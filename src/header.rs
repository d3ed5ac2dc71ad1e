//! The 92-byte GPT header record.
use vstd::prelude::*;

use crate::bytes::{
    crc32, crc32_of, from_le32, from_le64, le32, le64, lemma_le32_of_decoded, lemma_le64_of_decoded,
    push_all, push_le32, push_le64, read_array, read_le32, read_le64, bytes_equal,
};
use crate::entry::{entry_bytes, lemma_units_bytes_len, EntryView, GPTPartitionEntry, ENTRY_SIZE};
use crate::error::Error;
use crate::image::{byte_offset, write_at, write_bytes};
use crate::name::name_units;

verus! {

/// Size in bytes of the header record.
pub const HEADER_SIZE: usize = 92;

/// A GUID Partition Table header.
#[derive(Debug, Clone, Copy, PartialEq, Eq)]
pub struct GPTHeader {
    /// GPT signature (must be "EFI PART").
    pub signature: [u8; 8],
    /// GPT revision (must be 00 00 01 00).
    pub revision: [u8; 4],
    /// GPT header size (must be 92).
    pub header_size: u32,
    /// CRC32 checksum of the header.
    pub crc32_checksum: u32,
    /// Reserved bytes of the header.
    pub reserved: [u8; 4],
    /// Location (in sectors) of this header.
    pub primary_lba: u64,
    /// Location (in sectors) of the other copy of the header.
    pub backup_lba: u64,
    /// Location (in sectors) of the first usable sector.
    pub first_usable_lba: u64,
    /// Location (in sectors) of the last usable sector.
    pub last_usable_lba: u64,
    /// 16 bytes representing the UUID of the GPT.
    pub disk_guid: [u8; 16],
    /// Location (in sectors) of the partition entries array: `2` for a primary header.
    pub partition_entry_lba: u64,
    /// Number of partition entries in the array.
    pub number_of_partition_entries: u32,
    /// Size (in bytes) of a partition entry.
    pub size_of_partition_entry: u32,
    /// CRC32 checksum of the partition array.
    pub partition_entry_array_crc32: u32,
}

/// "EFI PART"
pub open spec fn efi_signature() -> Seq<u8> {
    seq![0x45u8, 0x46, 0x49, 0x20, 0x50, 0x41, 0x52, 0x54]
}

/// 00 00 01 00
pub open spec fn gpt_revision() -> Seq<u8> {
    seq![0x00u8, 0x00, 0x01, 0x00]
}

/// The bytes of a header as it is stored on disk.
pub open spec fn header_bytes(h: GPTHeader) -> Seq<u8> {
    h.signature@ + h.revision@ + le32(h.header_size) + le32(h.crc32_checksum) + h.reserved@
        + le64(h.primary_lba) + le64(h.backup_lba) + le64(h.first_usable_lba) + le64(
        h.last_usable_lba,
    ) + h.disk_guid@ + le64(h.partition_entry_lba) + le32(h.number_of_partition_entries)
        + le32(h.size_of_partition_entry) + le32(h.partition_entry_array_crc32)
}

/// The checksum of a header: the CRC32 of its bytes with the checksum field set to zero.
pub open spec fn header_checksum(h: GPTHeader) -> u32 {
    crc32_of(header_bytes(GPTHeader { crc32_checksum: 0, ..h }))
}

/// `h` is the header whose 92 bytes start at `o` in `b`.
pub open spec fn header_decodes(b: Seq<u8>, o: int, h: GPTHeader) -> bool {
    &&& h.signature@ == b.subrange(o, o + 8)
    &&& h.revision@ == b.subrange(o + 8, o + 12)
    &&& h.header_size == from_le32(b, o + 12)
    &&& h.crc32_checksum == from_le32(b, o + 16)
    &&& h.reserved@ == b.subrange(o + 20, o + 24)
    &&& h.primary_lba == from_le64(b, o + 24)
    &&& h.backup_lba == from_le64(b, o + 32)
    &&& h.first_usable_lba == from_le64(b, o + 40)
    &&& h.last_usable_lba == from_le64(b, o + 48)
    &&& h.disk_guid@ == b.subrange(o + 56, o + 72)
    &&& h.partition_entry_lba == from_le64(b, o + 72)
    &&& h.number_of_partition_entries == from_le32(b, o + 80)
    &&& h.size_of_partition_entry == from_le32(b, o + 84)
    &&& h.partition_entry_array_crc32 == from_le32(b, o + 88)
}

/// The 92 bytes at `o` in `b` with the checksum field set to zero.
pub open spec fn zeroed_header_bytes(b: Seq<u8>, o: int) -> Seq<u8> {
    b.subrange(o, o + 16) + seq![0u8, 0, 0, 0] + b.subrange(o + 20, o + 92)
}

/// Why the header record at `o` in `b` cannot be accepted, checked in order: the record
/// does not fit, the signature, the revision, the header size, then the checksum.
pub open spec fn header_error(b: Seq<u8>, o: int) -> Option<Error> {
    if o + HEADER_SIZE > b.len() {
        Some(Error::Deserialize)
    } else if b.subrange(o, o + 8) != efi_signature() {
        Some(Error::InvalidSignature)
    } else if b.subrange(o + 8, o + 12) != gpt_revision() {
        Some(Error::InvalidRevision)
    } else if from_le32(b, o + 12) != HEADER_SIZE {
        Some(Error::InvalidHeaderSize)
    } else if from_le32(b, o + 16) != crc32_of(zeroed_header_bytes(b, o)) {
        Some(Error::InvalidChecksum(from_le32(b, o + 16), crc32_of(zeroed_header_bytes(b, o))))
    } else {
        None
    }
}

/// Number of sectors that the partition entry array of `h` takes.
pub open spec fn array_sectors(h: GPTHeader, sector_size: u64) -> int {
    (h.number_of_partition_entries * h.size_of_partition_entry - 1) / (sector_size as int) + 1
}

/// What `update_from` asks of a header and a disk of `len` bytes: a non-empty entry array, and
/// room on the disk for both headers and both arrays.
pub open spec fn geometry_fits(h: GPTHeader, len: int, sector_size: u64) -> bool {
    &&& sector_size > 0
    &&& h.number_of_partition_entries * h.size_of_partition_entry > 0
    &&& len / (sector_size as int) >= array_sectors(h, sector_size) + 2
}

/// The header `h` with its geometry derived from a disk of `len` bytes: the copy that is not
/// this one lies in the last sector, the usable area lies between the two entry arrays, and a
/// backup copy's entry array lies just after the usable area.
pub open spec fn with_geometry(h: GPTHeader, len: int, sector_size: u64) -> GPTHeader {
    let sectors = len / (sector_size as int);
    let last = (sectors - array_sectors(h, sector_size) - 2) as u64;
    GPTHeader {
        primary_lba: if h.primary_lba == 1 { h.primary_lba } else { (sectors - 1) as u64 },
        backup_lba: if h.primary_lba == 1 { (sectors - 1) as u64 } else { h.backup_lba },
        last_usable_lba: last,
        first_usable_lba: (2 + array_sectors(h, sector_size)) as u64,
        partition_entry_lba: if h.partition_entry_lba != 2 { (last + 1) as u64 } else { 2 },
        ..h
    }
}

/// `h` is a fresh primary header for a disk of `len` bytes, with room for 128 entries of 128
/// bytes and the checksums not yet computed.
pub open spec fn is_fresh_header(h: GPTHeader, len: int, sector_size: u64, disk_guid: [u8; 16]) -> bool {
    let sectors = len / (sector_size as int);
    let array = (128 * 128 - 1) / (sector_size as int) + 1;
    &&& h.signature@ == efi_signature()
    &&& h.revision@ == gpt_revision()
    &&& h.header_size == 92
    &&& h.crc32_checksum == 0
    &&& h.reserved@ == seq![0u8, 0, 0, 0]
    &&& h.primary_lba == 1
    &&& h.backup_lba == sectors - 1
    &&& h.first_usable_lba == 2 + array
    &&& h.last_usable_lba == sectors - array - 2
    &&& h.disk_guid == disk_guid
    &&& h.partition_entry_lba == 2
    &&& h.number_of_partition_entries == 128
    &&& h.size_of_partition_entry == 128
    &&& h.partition_entry_array_crc32 == 0
}

/// The views of a sequence of entries.
pub open spec fn views(p: Seq<GPTPartitionEntry>) -> Seq<EntryView> {
    p.map_values(|e: GPTPartitionEntry| e@)
}

/// The bytes of a partition entry array: every slot, used or not, in order.
pub open spec fn array_bytes(p: Seq<EntryView>) -> Seq<u8>
    decreases p.len(),
{
    if p.len() == 0 {
        Seq::empty()
    } else {
        array_bytes(p.drop_last()) + entry_bytes(p.last())
    }
}

/// The checksum of a partition entry array.
pub open spec fn array_checksum(p: Seq<EntryView>) -> u32 {
    crc32_of(array_bytes(p))
}

/// `h` with both checksums computed for the entry array `p`.
pub open spec fn with_checksums(h: GPTHeader, p: Seq<EntryView>) -> GPTHeader {
    let h1 = GPTHeader { partition_entry_array_crc32: array_checksum(p), ..h };
    GPTHeader { crc32_checksum: header_checksum(h1), ..h1 }
}

/// Byte offset of the header record of `h`.
pub open spec fn header_offset(h: GPTHeader, sector_size: u64) -> int {
    h.primary_lba * sector_size
}

/// Byte offset of the entry of index `i` in the array of `h`.
pub open spec fn entry_offset(h: GPTHeader, sector_size: u64, i: int) -> int {
    h.partition_entry_lba * sector_size + i * h.size_of_partition_entry
}

/// The header record of `h` and each of its entry records lie inside a disk of `len` bytes.
pub open spec fn regions_fit(h: GPTHeader, sector_size: u64, len: int) -> bool {
    &&& header_offset(h, sector_size) + HEADER_SIZE <= len
    &&& h.number_of_partition_entries > 0 ==> entry_offset(
        h,
        sector_size,
        h.number_of_partition_entries - 1,
    ) + ENTRY_SIZE <= len
}

/// `d` after writing the first `k` entries of `p` at their places in the array of `h`.
pub open spec fn write_entries(
    d: Seq<u8>,
    h: GPTHeader,
    sector_size: u64,
    p: Seq<EntryView>,
    k: nat,
) -> Seq<u8>
    decreases k,
{
    if k == 0 {
        d
    } else {
        write_at(
            write_entries(d, h, sector_size, p, (k - 1) as nat),
            entry_offset(h, sector_size, k - 1),
            entry_bytes(p[k - 1]),
        )
    }
}

/// `d` after writing the header `h` and its `number_of_partition_entries` entries taken from `p`.
pub open spec fn image_after(d: Seq<u8>, h: GPTHeader, sector_size: u64, p: Seq<EntryView>) -> Seq<
    u8,
> {
    write_entries(
        write_at(d, header_offset(h, sector_size), header_bytes(h)),
        h,
        sector_size,
        p,
        h.number_of_partition_entries as nat,
    )
}

/// Writing entries leaves the length of the image unchanged.
pub proof fn lemma_write_entries_len(d: Seq<u8>, h: GPTHeader, sector_size: u64, p: Seq<EntryView>, k: nat)
    requires
        k <= p.len(),
        forall|i: int| 0 <= i < k ==> entry_offset(h, sector_size, i) + ENTRY_SIZE <= d.len(),
        forall|i: int| 0 <= i < p.len() ==> #[trigger] entry_bytes(p[i]).len() == ENTRY_SIZE,
    ensures
        write_entries(d, h, sector_size, p, k).len() == d.len(),
    decreases k,
{
    if k > 0 {
        assert(entry_bytes(p[k - 1]).len() == ENTRY_SIZE);
        lemma_write_entries_len(d, h, sector_size, p, (k - 1) as nat);
    }
}

/// A header record takes 92 bytes.
pub proof fn lemma_header_bytes_len(h: GPTHeader)
    ensures
        header_bytes(h).len() == HEADER_SIZE,
{
}

/// An entry record takes 128 bytes.
pub proof fn lemma_entry_bytes_len(e: EntryView)
    requires
        e.type_guid.len() == 16,
        e.unique_guid.len() == 16,
    ensures
        entry_bytes(e).len() == ENTRY_SIZE,
{
    lemma_units_bytes_len(name_units(e.name));
}

/// Writing a header whose records fit leaves the length of the image unchanged.
pub proof fn lemma_image_after_len(d: Seq<u8>, h: GPTHeader, sector_size: u64, p: Seq<EntryView>)
    requires
        regions_fit(h, sector_size, d.len() as int),
        h.number_of_partition_entries <= p.len(),
        forall|i: int| 0 <= i < p.len() ==> (#[trigger] p[i]).type_guid.len() == 16
            && p[i].unique_guid.len() == 16,
    ensures
        image_after(d, h, sector_size, p).len() == d.len(),
{
    lemma_header_bytes_len(h);
    let d1 = write_at(d, header_offset(h, sector_size), header_bytes(h));
    assert(d1.len() == d.len());
    let n = h.number_of_partition_entries as int;
    assert forall|i: int| 0 <= i < n implies entry_offset(h, sector_size, i) + ENTRY_SIZE
        <= d1.len() by {
        let z = h.size_of_partition_entry as int;
        assert(i * z <= (n - 1) * z) by (nonlinear_arith)
            requires
                0 <= i <= n - 1,
                0 <= z,
        ;
    }
    assert forall|i: int| 0 <= i < p.len() implies #[trigger] entry_bytes(p[i]).len()
        == ENTRY_SIZE by {
        lemma_entry_bytes_len(p[i]);
    }
    lemma_write_entries_len(d1, h, sector_size, p, n as nat);
}

impl GPTHeader {
    /// Generate the CRC32 checksum of the partition entry array (every slot, used or not).
    pub fn generate_partition_entry_array_crc32(&self, partitions: &[GPTPartitionEntry]) -> (r: u32)
        ensures
            r == array_checksum(views(partitions@)),
    {
        let mut data: Vec<u8> = Vec::new();
        let mut i: usize = 0;
        while i < partitions.len()
            invariant
                i <= partitions@.len(),
                data@ == array_bytes(views(partitions@).take(i as int)),
            decreases partitions@.len() - i,
        {
            let bytes = partitions[i].to_bytes();
            push_all(&mut data, bytes.as_slice());
            assert(views(partitions@).take(i + 1).drop_last() =~= views(partitions@).take(i as int));
            i = i + 1;
        }
        assert(views(partitions@).take(i as int) =~= views(partitions@));
        crc32(data.as_slice())
    }

    /// Update the CRC32 checksum of the partition entry array.
    pub fn update_partition_entry_array_crc32(&mut self, partitions: &[GPTPartitionEntry])
        ensures
            *final(self) == (GPTHeader {
                partition_entry_array_crc32: array_checksum(views(partitions@)),
                ..*old(self)
            }),
    {
        self.partition_entry_array_crc32 = self.generate_partition_entry_array_crc32(partitions);
    }

    /// Checks that the header record and the entry records lie inside a disk of `len` bytes.
    pub fn fits_in(&self, sector_size: u64, len: usize) -> (r: bool)
        ensures
            r == regions_fit(*self, sector_size, len as int),
    {
        match byte_offset(self.primary_lba, sector_size, HEADER_SIZE as u64) {
            None => {
                return false;
            },
            Some(end) => {
                if end > len {
                    return false;
                }
            },
        }
        if self.number_of_partition_entries == 0 {
            return true;
        }
        let last = (self.number_of_partition_entries - 1) as u64;
        let z = self.size_of_partition_entry as u64;
        assert(last * z <= 0xFFFF_FFFFu64 * 0xFFFF_FFFFu64) by (nonlinear_arith)
            requires
                last <= 0xFFFF_FFFFu64,
                z <= 0xFFFF_FFFFu64,
        ;
        let extra = last * z;
        if extra > u64::MAX - ENTRY_SIZE as u64 {
            return false;
        }
        match byte_offset(self.partition_entry_lba, sector_size, extra + ENTRY_SIZE as u64) {
            None => false,
            Some(end) => end <= len,
        }
    }

    /// Write the header and its entry array into a disk image, after computing both checksums.
    /// The header goes to sector `primary_lba`, entry `i` to `partition_entry_lba` sectors plus
    /// `i * size_of_partition_entry` bytes. Nothing is written when a record would fall outside
    /// the image.
    pub fn write_into(
        &mut self,
        writer: &mut Vec<u8>,
        sector_size: u64,
        partitions: &[GPTPartitionEntry],
    ) -> (r: Result<(), Error>)
        requires
            old(self).number_of_partition_entries <= partitions@.len(),
        ensures
            *final(self) == with_checksums(*old(self), views(partitions@)),
            regions_fit(*final(self), sector_size, old(writer)@.len() as int) ==> r is Ok
                && final(writer)@ == image_after(
                old(writer)@,
                *final(self),
                sector_size,
                views(partitions@),
            ),
            !regions_fit(*final(self), sector_size, old(writer)@.len() as int) ==> r is Err
                && r->Err_0 is Io && final(writer)@ == old(writer)@,
    {
        self.update_partition_entry_array_crc32(partitions);
        self.update_crc32_checksum();
        if !self.fits_in(sector_size, writer.len()) {
            return Err(Error::Io);
        }
        let ghost p = views(partitions@);
        let ghost h = *self;
        let header = self.to_bytes();
        let o = byte_offset(self.primary_lba, sector_size, 0);
        let o = match o {
            Some(o) => o,
            None => {
                return Err(Error::Io);
            },
        };
        write_bytes(writer, o, header.as_slice());
        let ghost after_header = writer@;
        let wlen = writer.len();
        let n = self.number_of_partition_entries;
        let mut i: u32 = 0;
        while i < n
            invariant
                h == *self,
                n == h.number_of_partition_entries,
                n <= partitions@.len(),
                p == views(partitions@),
                i <= n,
                regions_fit(h, sector_size, after_header.len() as int),
                writer@ == write_entries(after_header, h, sector_size, p, i as nat),
                writer@.len() == after_header.len(),
                wlen == after_header.len(),
            decreases n - i,
        {
            let z = self.size_of_partition_entry as u64;
            let iu = i as u64;
            assert(iu * z <= (n - 1) * z) by (nonlinear_arith)
                requires
                    iu <= n - 1,
            ;
            assert(iu * z <= 0xFFFF_FFFFu64 * 0xFFFF_FFFFu64) by (nonlinear_arith)
                requires
                    iu <= 0xFFFF_FFFFu64,
                    z <= 0xFFFF_FFFFu64,
            ;
            assert(entry_offset(h, sector_size, i as int) <= entry_offset(h, sector_size, n - 1));
            assert(entry_offset(h, sector_size, i as int) + ENTRY_SIZE <= wlen);
            let off = byte_offset(self.partition_entry_lba, sector_size, iu * z);
            let off = match off {
                Some(off) => off,
                None => {
                    return Err(Error::Io);
                },
            };
            let bytes = partitions[i as usize].to_bytes();
            write_bytes(writer, off, bytes.as_slice());
            assert(p[i as int] == partitions@[i as int]@);
            i = i + 1;
        }
        Ok(())
    }

    /// Make a new primary GPT header for a disk image (nothing is written).
    pub fn new_from(reader: &[u8], sector_size: u64, disk_guid: [u8; 16]) -> (r: Result<
        GPTHeader,
        Error,
    >)
        requires
            sector_size > 0,
            (reader@.len() as int) / (sector_size as int) >= (128 * 128 - 1) / (sector_size as int)
                + 3,
        ensures
            r is Ok && is_fresh_header(r->Ok_0, reader@.len() as int, sector_size, disk_guid),
    {
        let mut gpt = GPTHeader {
            signature: [0x45, 0x46, 0x49, 0x20, 0x50, 0x41, 0x52, 0x54],
            revision: [0x00, 0x00, 0x01, 0x00],
            header_size: 92,
            crc32_checksum: 0,
            reserved: [0; 4],
            primary_lba: 1,
            backup_lba: 0,
            first_usable_lba: 0,
            last_usable_lba: 0,
            disk_guid,
            partition_entry_lba: 2,
            number_of_partition_entries: 128,
            size_of_partition_entry: 128,
            partition_entry_array_crc32: 0,
        };
        assert(gpt.signature@ =~= efi_signature());
        assert(gpt.revision@ =~= gpt_revision());
        assert(gpt.reserved@ =~= seq![0u8, 0, 0, 0]);
        let ghost before = gpt;
        let _len = reader.len();
        assert(array_sectors(before, sector_size) == (128 * 128 - 1) / (sector_size as int) + 1);
        let res = gpt.update_from(reader, sector_size);
        match res {
            Ok(()) => Ok(gpt),
            Err(e) => Err(e),
        }
    }

    /// Updates the header to the geometry of a disk image: `primary_lba` or `backup_lba` (the one
    /// that is not this copy's), `first_usable_lba`, `last_usable_lba` and, for a backup copy,
    /// `partition_entry_lba`.
    pub fn update_from(&mut self, reader: &[u8], sector_size: u64) -> (r: Result<(), Error>)
        requires
            geometry_fits(*old(self), reader@.len() as int, sector_size),
        ensures
            r is Ok,
            *final(self) == with_geometry(*old(self), reader@.len() as int, sector_size),
    {
        let n = self.number_of_partition_entries as u64;
        let z = self.size_of_partition_entry as u64;
        assert(n * z <= 0xFFFF_FFFFu64 * 0xFFFF_FFFFu64) by (nonlinear_arith)
            requires
                n <= 0xFFFF_FFFFu64,
                z <= 0xFFFF_FFFFu64,
        ;
        let total = n * z;
        let partition_array_size = (total - 1) / sector_size + 1;
        let len = reader.len() as u64 / sector_size;
        if self.primary_lba == 1 {
            self.backup_lba = len - 1;
        } else {
            self.primary_lba = len - 1;
        }
        self.last_usable_lba = len - partition_array_size - 1 - 1;
        self.first_usable_lba = 2 + partition_array_size;
        if self.partition_entry_lba != 2 {
            self.partition_entry_lba = self.last_usable_lba + 1;
        }
        Ok(())
    }

    /// The 92 bytes of the header as stored on disk.
    pub fn to_bytes(&self) -> (r: Vec<u8>)
        ensures
            r@ == header_bytes(*self),
            r@.len() == HEADER_SIZE,
    {
        let mut v: Vec<u8> = Vec::new();
        push_all(&mut v, self.signature.as_slice());
        push_all(&mut v, self.revision.as_slice());
        push_le32(&mut v, self.header_size);
        push_le32(&mut v, self.crc32_checksum);
        push_all(&mut v, self.reserved.as_slice());
        push_le64(&mut v, self.primary_lba);
        push_le64(&mut v, self.backup_lba);
        push_le64(&mut v, self.first_usable_lba);
        push_le64(&mut v, self.last_usable_lba);
        push_all(&mut v, self.disk_guid.as_slice());
        push_le64(&mut v, self.partition_entry_lba);
        push_le32(&mut v, self.number_of_partition_entries);
        push_le32(&mut v, self.size_of_partition_entry);
        push_le32(&mut v, self.partition_entry_array_crc32);
        v
    }

    /// Decodes the header record at offset `o`, without checking any field.
    pub fn decode(b: &[u8], o: usize) -> (r: GPTHeader)
        requires
            o + HEADER_SIZE <= b@.len(),
        ensures
            header_decodes(b@, o as int, r),
    {
        let _len = b.len();
        GPTHeader {
            signature: read_array(b, o),
            revision: read_array(b, o + 8),
            header_size: read_le32(b, o + 12),
            crc32_checksum: read_le32(b, o + 16),
            reserved: read_array(b, o + 20),
            primary_lba: read_le64(b, o + 24),
            backup_lba: read_le64(b, o + 32),
            first_usable_lba: read_le64(b, o + 40),
            last_usable_lba: read_le64(b, o + 48),
            disk_guid: read_array(b, o + 56),
            partition_entry_lba: read_le64(b, o + 72),
            number_of_partition_entries: read_le32(b, o + 80),
            size_of_partition_entry: read_le32(b, o + 84),
            partition_entry_array_crc32: read_le32(b, o + 88),
        }
    }

    /// Generate the CRC32 checksum of the header (computed with the checksum field set to zero).
    pub fn generate_crc32_checksum(&self) -> (r: u32)
        ensures
            r == header_checksum(*self),
    {
        let mut clone = *self;
        clone.crc32_checksum = 0;
        let data = clone.to_bytes();
        crc32(data.as_slice())
    }

    /// Update the CRC32 checksum of this header.
    pub fn update_crc32_checksum(&mut self)
        ensures
            *final(self) == (GPTHeader { crc32_checksum: header_checksum(*old(self)), ..*old(self) }),
    {
        self.crc32_checksum = self.generate_crc32_checksum();
    }

    /// Read a GPT header from the 92 bytes at offset `offset` of a disk image, and check its
    /// signature, revision, size and checksum.
    pub fn read_from(reader: &[u8], offset: u64) -> (r: Result<GPTHeader, Error>)
        ensures
            header_error(reader@, offset as int) is Some ==> r is Err && r->Err_0 == header_error(
                reader@,
                offset as int,
            )->Some_0,
            header_error(reader@, offset as int) is None ==> r is Ok && header_decodes(
                reader@,
                offset as int,
                r->Ok_0,
            ),
    {
        if offset > reader.len() as u64 || reader.len() - (offset as usize) < HEADER_SIZE {
            return Err(Error::Deserialize);
        }
        let o = offset as usize;
        let h = GPTHeader::decode(reader, o);
        let sig: [u8; 8] = [0x45, 0x46, 0x49, 0x20, 0x50, 0x41, 0x52, 0x54];
        assert(sig@ =~= efi_signature());
        if !bytes_equal(h.signature.as_slice(), sig.as_slice()) {
            return Err(Error::InvalidSignature);
        }
        let rev: [u8; 4] = [0x00, 0x00, 0x01, 0x00];
        assert(rev@ =~= gpt_revision());
        if !bytes_equal(h.revision.as_slice(), rev.as_slice()) {
            return Err(Error::InvalidRevision);
        }
        if h.header_size != 92 {
            return Err(Error::InvalidHeaderSize);
        }
        let sum = h.generate_crc32_checksum();
        proof {
            lemma_zeroed_bytes(reader@, o as int, h);
        }
        if h.crc32_checksum != sum {
            return Err(Error::InvalidChecksum(h.crc32_checksum, sum));
        }
        Ok(h)
    }

    /// Returns `true` if the header is a primary copy (located at the beginning of the disk).
    pub fn is_primary(&self) -> (r: bool)
        ensures
            r == (self.primary_lba == 1),
    {
        self.primary_lba == 1
    }

    /// Returns `true` if the header is a backup copy (located at the end of the disk).
    ///
    /// When the header is a backup copy, `primary_lba` is the LBA of the backup copy and
    /// `backup_lba` the LBA of the primary copy.
    pub fn is_backup(&self) -> (r: bool)
        ensures
            r == (self.primary_lba != 1),
    {
        !self.is_primary()
    }
}

/// Encoding a decoded header with its checksum set to zero gives the stored bytes with the
/// checksum field zeroed.
pub proof fn lemma_zeroed_bytes(b: Seq<u8>, o: int, h: GPTHeader)
    requires
        0 <= o,
        o + HEADER_SIZE <= b.len(),
        header_decodes(b, o, h),
    ensures
        header_bytes(GPTHeader { crc32_checksum: 0, ..h }) == zeroed_header_bytes(b, o),
{
    let z = GPTHeader { crc32_checksum: 0, ..h };
    lemma_header_encoding_of_decoded(b, o, h);
    assert(0u32 as u8 == 0 && (0u32 >> 8u32) as u8 == 0 && (0u32 >> 16u32) as u8 == 0 && (0u32
        >> 24u32) as u8 == 0) by (bit_vector);
    assert(le32(0) =~= seq![0u8, 0, 0, 0]);
    assert(b.subrange(o, o + 92) =~= b.subrange(o, o + 16) + b.subrange(o + 16, o + 20)
        + b.subrange(o + 20, o + 92));
    let pre = h.signature@ + h.revision@ + le32(h.header_size);
    let post = h.reserved@ + le64(h.primary_lba) + le64(h.backup_lba) + le64(h.first_usable_lba)
        + le64(h.last_usable_lba) + h.disk_guid@ + le64(h.partition_entry_lba) + le32(
        h.number_of_partition_entries,
    ) + le32(h.size_of_partition_entry) + le32(h.partition_entry_array_crc32);
    assert(header_bytes(h) =~= pre + le32(h.crc32_checksum) + post);
    assert(header_bytes(z) =~= pre + le32(0) + post);
    let whole = pre + le32(h.crc32_checksum) + post;
    assert(whole.subrange(0, 16) =~= pre);
    assert(whole.subrange(20, 92) =~= post);
    assert(b.subrange(o, o + 92).subrange(0, 16) =~= b.subrange(o, o + 16));
    assert(b.subrange(o, o + 92).subrange(20, 92) =~= b.subrange(o + 20, o + 92));
    assert(header_bytes(z) =~= zeroed_header_bytes(b, o));
}

/// The encoding of the header decoded at `o` is the bytes it was decoded from.
pub proof fn lemma_header_encoding_of_decoded(b: Seq<u8>, o: int, h: GPTHeader)
    requires
        0 <= o,
        o + HEADER_SIZE <= b.len(),
        header_decodes(b, o, h),
    ensures
        header_bytes(h) == b.subrange(o, o + 92),
{
    lemma_le32_of_decoded(b, o + 12);
    lemma_le32_of_decoded(b, o + 16);
    lemma_le64_of_decoded(b, o + 24);
    lemma_le64_of_decoded(b, o + 32);
    lemma_le64_of_decoded(b, o + 40);
    lemma_le64_of_decoded(b, o + 48);
    lemma_le64_of_decoded(b, o + 72);
    lemma_le32_of_decoded(b, o + 80);
    lemma_le32_of_decoded(b, o + 84);
    lemma_le32_of_decoded(b, o + 88);
    let part1 = h.signature@ + h.revision@;
    lemma_split(b, o, o + 8, o + 12);
    let part2 = part1 + le32(h.header_size);
    lemma_split(b, o, o + 12, o + 16);
    let part3 = part2 + le32(h.crc32_checksum);
    lemma_split(b, o, o + 16, o + 20);
    let part4 = part3 + h.reserved@;
    lemma_split(b, o, o + 20, o + 24);
    let part5 = part4 + le64(h.primary_lba);
    lemma_split(b, o, o + 24, o + 32);
    let part6 = part5 + le64(h.backup_lba);
    lemma_split(b, o, o + 32, o + 40);
    let part7 = part6 + le64(h.first_usable_lba);
    lemma_split(b, o, o + 40, o + 48);
    let part8 = part7 + le64(h.last_usable_lba);
    lemma_split(b, o, o + 48, o + 56);
    let part9 = part8 + h.disk_guid@;
    lemma_split(b, o, o + 56, o + 72);
    let part10 = part9 + le64(h.partition_entry_lba);
    lemma_split(b, o, o + 72, o + 80);
    let part11 = part10 + le32(h.number_of_partition_entries);
    lemma_split(b, o, o + 80, o + 84);
    let part12 = part11 + le32(h.size_of_partition_entry);
    lemma_split(b, o, o + 84, o + 88);
    lemma_split(b, o, o + 88, o + 92);
}

/// A range of bytes is its two halves put together.
pub proof fn lemma_split(b: Seq<u8>, a: int, m: int, e: int)
    requires
        0 <= a <= m <= e <= b.len(),
    ensures
        b.subrange(a, e) == b.subrange(a, m) + b.subrange(m, e),
{
    assert(b.subrange(a, e) =~= b.subrange(a, m) + b.subrange(m, e));
}

} // verus!
