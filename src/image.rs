//! Disk images: overwriting a range of bytes, and locating records by sector.
use vstd::prelude::*;

verus! {

/// `d` with the bytes from `o` on replaced by `data`.
pub open spec fn write_at(d: Seq<u8>, o: int, data: Seq<u8>) -> Seq<u8> {
    d.take(o) + data + d.skip(o + data.len())
}

/// Overwrites the bytes of `disk` from offset `o` with `data`.
pub fn write_bytes(disk: &mut Vec<u8>, o: usize, data: &[u8])
    requires
        o + data@.len() <= old(disk)@.len(),
    ensures
        final(disk)@ == write_at(old(disk)@, o as int, data@),
{
    let len = disk.len();
    let mut i: usize = 0;
    while i < data.len()
        invariant
            len == disk@.len(),
            len == old(disk)@.len(),
            i <= data@.len(),
            o + data@.len() <= len,
            forall|j: int|
                0 <= j < len ==> #[trigger] disk@[j] == if o <= j < o + i {
                    data@[j - o]
                } else {
                    old(disk)@[j]
                },
        decreases data@.len() - i,
    {
        disk[o + i] = data[i];
        i = i + 1;
    }
    assert(disk@ =~= write_at(old(disk)@, o as int, data@));
}

/// The byte offset `lba * sector_size + extra`, if it is below `usize::MAX`.
pub fn byte_offset(lba: u64, sector_size: u64, extra: u64) -> (r: Option<usize>)
    ensures
        r is Some <==> lba * sector_size + extra <= usize::MAX,
        r is Some ==> r->Some_0 == lba * sector_size + extra,
{
    match lba.checked_mul(sector_size) {
        None => {
            assert(lba * sector_size > u64::MAX);
            assert(lba * sector_size + extra > usize::MAX);
            None
        },
        Some(a) => match a.checked_add(extra) {
            None => None,
            Some(b) => {
                if b as u128 > usize::MAX as u128 {
                    None
                } else {
                    Some(b as usize)
                }
            },
        },
    }
}

} // verus!
