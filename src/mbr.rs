//! The protective MBR: a legacy partition record that covers the whole disk.
use vstd::prelude::*;

use crate::bytes::{le32, push_le32};
use crate::error::Error;
use crate::image::{write_at, write_bytes};

verus! {

/// Byte offset of the first legacy partition record.
pub const MBR_RECORDS_OFFSET: usize = 446;

/// The number of sectors that the protective record claims: all but the first, saturated to
/// what a `u32` holds.
pub open spec fn protective_sector_count(len: int, sector_size: u64) -> u32 {
    let size = len / (sector_size as int) - 1;
    if size > u32::MAX {
        u32::MAX
    } else {
        size as u32
    }
}

/// The 66 bytes written from offset 446: the protective record (type 0xEE, from LBA 1 over
/// `count` sectors), three empty records and the boot signature 0x55 0xAA.
pub open spec fn protective_mbr_bytes(count: u32) -> Seq<u8> {
    seq![0x00u8, 0x00, 0x02, 0x00, 0xee, 0xff, 0xff, 0xff, 0x01, 0x00, 0x00, 0x00] + le32(count)
        + Seq::new(48, |i: int| 0u8) + seq![0x55u8, 0xaa]
}

/// Writes a protective MBR into the first sector of a disk image, bytes 446 to 511; the other
/// bytes are left as they are. Fails with `Io` on an image shorter than 512 bytes.
pub fn write_protective_mbr_into(writer: &mut Vec<u8>, sector_size: u64) -> (r: Result<(), Error>)
    requires
        sector_size > 0,
        old(writer)@.len() >= sector_size,
    ensures
        old(writer)@.len() < 512 ==> r is Err && r->Err_0 is Io && final(writer)@ == old(writer)@,
        old(writer)@.len() >= 512 ==> r is Ok && final(writer)@ == write_at(
            old(writer)@,
            MBR_RECORDS_OFFSET as int,
            protective_mbr_bytes(protective_sector_count(old(writer)@.len() as int, sector_size)),
        ),
{
    let len = writer.len();
    if len < 512 {
        return Err(Error::Io);
    }
    assert(len as u64 / sector_size >= 1) by (nonlinear_arith)
        requires
            len as u64 >= sector_size,
            sector_size > 0,
    ;
    let size = len as u64 / sector_size - 1;
    let count: u32 = if size > u32::MAX as u64 {
        u32::MAX
    } else {
        size as u32
    };
    let mut data: Vec<u8> = vec![0x00, 0x00, 0x02, 0x00, 0xee, 0xff, 0xff, 0xff, 0x01, 0x00, 0x00, 0x00];
    push_le32(&mut data, count);
    let mut i: usize = 0;
    while i < 48
        invariant
            i <= 48,
            data@ == seq![0x00u8, 0x00, 0x02, 0x00, 0xee, 0xff, 0xff, 0xff, 0x01, 0x00, 0x00, 0x00]
                + le32(count) + Seq::new(i as nat, |k: int| 0u8),
        decreases 48 - i,
    {
        data.push(0);
        i = i + 1;
        assert(data@ =~= seq![0x00u8, 0x00, 0x02, 0x00, 0xee, 0xff, 0xff, 0xff, 0x01, 0x00, 0x00, 0x00]
            + le32(count) + Seq::new(i as nat, |k: int| 0u8));
    }
    data.push(0x55);
    data.push(0xaa);
    assert(data@ =~= protective_mbr_bytes(count));
    write_bytes(writer, MBR_RECORDS_OFFSET, data.as_slice());
    Ok(())
}

} // verus!
