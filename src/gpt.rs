//! The partition table: a header, its entry array and the alignment used for placement.
use vstd::prelude::*;

use crate::bytes::{bytes_equal, crc32, crc32_of};
use crate::entry::{decode_entry, empty_view, is_used_view, EntryView, GPTPartitionEntry, ENTRY_SIZE};
use crate::error::Error;
use crate::header::{
    array_checksum, entry_offset, header_decodes, header_error, image_after, is_fresh_header,
    lemma_image_after_len, regions_fit, views, with_checksums, GPTHeader,
};
use crate::image::{byte_offset, write_at};
use vstd::slice::slice_subrange;
use crate::mbr::{
    protective_mbr_bytes, protective_sector_count, write_protective_mbr_into, MBR_RECORDS_OFFSET,
};

verus! {

/// Alignment (in sectors) of a table without used partitions.
pub const DEFAULT_ALIGN: u64 = 2048;

/// Largest alignment (in sectors) that is inferred from the partitions of a table.
pub const MAX_ALIGN: u64 = 16384;

/// A GUID partition table: its header, its partition entries, the sector size of the disk and
/// the alignment (in sectors) used when placing new partitions.
#[derive(Debug, PartialEq, Eq)]
pub struct GPT {
    /// Sector size of the disk.
    pub sector_size: u64,
    /// GPT partition header (disk GUID, first/last usable LBA, etc.).
    pub header: GPTHeader,
    /// The partition entries, slot 1 first: one for each of the header's
    /// `number_of_partition_entries`.
    pub partitions: Vec<GPTPartitionEntry>,
    /// Partitions alignment (in sectors); must be greater than 0.
    pub align: u64,
}

/// The used entries of `p` have pairwise distinct unique partition GUIDs.
pub open spec fn guids_unique(p: Seq<EntryView>) -> bool {
    forall|i: int, j: int|
        0 <= i < j < p.len() && is_used_view(#[trigger] p[i]) && is_used_view(#[trigger] p[j])
            ==> p[i].unique_guid != p[j].unique_guid
}

/// `e` lies inside the usable area of `h` with a positive size.
pub open spec fn within_usable(e: EntryView, h: GPTHeader) -> bool {
    h.first_usable_lba <= e.starting_lba <= e.ending_lba <= h.last_usable_lba
}

/// The sector ranges of `a` and `b` do not meet.
pub open spec fn disjoint(a: EntryView, b: EntryView) -> bool {
    a.ending_lba < b.starting_lba || b.ending_lba < a.starting_lba
}

/// Every used entry has a positive size and lies inside the usable area, and no two used entries
/// overlap.
pub open spec fn boundaries_valid(p: Seq<EntryView>, h: GPTHeader) -> bool {
    &&& forall|i: int| 0 <= i < p.len() && is_used_view(#[trigger] p[i]) ==> within_usable(p[i], h)
    &&& forall|i: int, j: int|
        0 <= i < j < p.len() && is_used_view(#[trigger] p[i]) && is_used_view(#[trigger] p[j])
            ==> disjoint(p[i], p[j])
}

/// The other copy of `h`: header and backup locations swapped, and the entry array on the
/// other side of the usable area.
pub open spec fn backup_of(h: GPTHeader) -> GPTHeader {
    GPTHeader {
        primary_lba: h.backup_lba,
        backup_lba: h.primary_lba,
        partition_entry_lba: if h.partition_entry_lba == 2 {
            (h.last_usable_lba + 1) as u64
        } else {
            2
        },
        ..h
    }
}

/// Entry `e` is used and holds sector `sector`.
pub open spec fn holds_sector(e: EntryView, sector: u64) -> bool {
    is_used_view(e) && e.starting_lba <= sector <= e.ending_lba
}

/// Number of used entries.
pub open spec fn count_used(p: Seq<EntryView>) -> nat
    decreases p.len(),
{
    if p.len() == 0 {
        0
    } else {
        count_used(p.drop_last()) + if is_used_view(p.last()) {
            1nat
        } else {
            0nat
        }
    }
}

/// Largest starting LBA of a used entry (0 when none is used).
pub open spec fn max_used_start(p: Seq<EntryView>) -> u64
    decreases p.len(),
{
    if p.len() == 0 {
        0
    } else {
        let m = max_used_start(p.drop_last());
        if is_used_view(p.last()) && p.last().starting_lba > m {
            p.last().starting_lba
        } else {
            m
        }
    }
}

/// `d` divides the starting LBA of every used entry.
pub open spec fn divides_used(p: Seq<EntryView>, d: u64) -> bool {
    forall|i: int|
        0 <= i < p.len() && is_used_view(#[trigger] p[i]) ==> p[i].starting_lba % d == 0
}

/// Every used entry starts at `lba`.
pub open spec fn all_used_start_at(p: Seq<EntryView>, lba: u64) -> bool {
    forall|i: int| 0 <= i < p.len() && is_used_view(#[trigger] p[i]) ==> p[i].starting_lba == lba
}

/// The largest `k` in `1..=d` that divides every used starting LBA (1 when `d` is 0).
pub open spec fn largest_divisor(p: Seq<EntryView>, d: u64) -> u64
    decreases d,
{
    if d <= 1 {
        1
    } else if divides_used(p, d) {
        d
    } else {
        largest_divisor(p, (d - 1) as u64)
    }
}

/// The bound of the inferred alignment: the largest used start, at most `MAX_ALIGN`.
pub open spec fn alignment_bound(p: Seq<EntryView>) -> u64 {
    if max_used_start(p) < MAX_ALIGN {
        max_used_start(p)
    } else {
        MAX_ALIGN
    }
}

/// The alignment inferred from the used entries of a table read from disk: `DEFAULT_ALIGN`
/// without used entries, 1 for a single used entry starting at the first usable sector, and
/// otherwise the largest divisor of every used start, bounded by `alignment_bound`.
pub open spec fn alignment_of(h: GPTHeader, p: Seq<EntryView>) -> u64 {
    if count_used(p) == 0 {
        DEFAULT_ALIGN
    } else if count_used(p) == 1 && all_used_start_at(p, h.first_usable_lba) {
        1
    } else {
        largest_divisor(p, alignment_bound(p))
    }
}

/// Byte offset of the backup header: the last whole sector of an image of `len` bytes.
pub open spec fn backup_header_offset(len: int, sector_size: u64) -> int {
    (len / (sector_size as int) - 1) * sector_size
}

/// The image has a sector besides the first one where a backup header can be looked for.
pub open spec fn has_last_sector(len: int, sector_size: u64) -> bool {
    len / (sector_size as int) >= 1
}

/// Where a valid header is found: at sector 1, else at the last sector.
pub open spec fn header_location(d: Seq<u8>, sector_size: u64) -> Option<int> {
    if header_error(d, sector_size as int) is None {
        Some(sector_size as int)
    } else if has_last_sector(d.len() as int, sector_size) && header_error(
        d,
        backup_header_offset(d.len() as int, sector_size),
    ) is None {
        Some(backup_header_offset(d.len() as int, sector_size))
    } else {
        None
    }
}

/// The error when no valid header is found: `InvalidSignature` when both copies lack the
/// signature, otherwise both causes.
pub open spec fn header_failure(d: Seq<u8>, sector_size: u64) -> Error {
    let e1 = header_error(d, sector_size as int)->Some_0;
    let e2 = if has_last_sector(d.len() as int, sector_size) {
        header_error(d, backup_header_offset(d.len() as int, sector_size))->Some_0
    } else {
        Error::Deserialize
    };
    if e1 is InvalidSignature && e2 is InvalidSignature {
        Error::InvalidSignature
    } else {
        Error::ReadError(Box::new(e1), Box::new(e2))
    }
}

/// The header decoded from the record at `o`.
pub open spec fn header_at(d: Seq<u8>, o: int) -> GPTHeader {
    choose|h: GPTHeader| header_decodes(d, o, h)
}

/// Every entry record of the array of `h` lies inside the image.
pub open spec fn entries_fit(d: Seq<u8>, h: GPTHeader, sector_size: u64) -> bool {
    forall|i: int|
        0 <= i < h.number_of_partition_entries ==> #[trigger] entry_offset(h, sector_size, i)
            + ENTRY_SIZE <= d.len()
}

/// Byte offset just past the entry array of `h`: `number_of_partition_entries` records of
/// `size_of_partition_entry` bytes from sector `partition_entry_lba`.
pub open spec fn array_end(h: GPTHeader, sector_size: u64) -> int {
    h.partition_entry_lba * sector_size + h.number_of_partition_entries * h.size_of_partition_entry
}

/// The entry array of `h` as it is stored in the image, byte for byte.
pub open spec fn stored_array(d: Seq<u8>, h: GPTHeader, sector_size: u64) -> Seq<u8> {
    d.subrange(h.partition_entry_lba * sector_size, array_end(h, sector_size))
}

/// The entries decoded from the array of `h`.
pub open spec fn decoded_entries(d: Seq<u8>, h: GPTHeader, sector_size: u64) -> Seq<EntryView> {
    Seq::new(
        h.number_of_partition_entries as nat,
        |i: int| decode_entry(d, entry_offset(h, sector_size, i)),
    )
}

/// What reading a table from image `d` with sectors of `sector_size` bytes gives.
pub open spec fn read_outcome(d: Seq<u8>, sector_size: u64, r: Result<GPT, Error>) -> bool {
    match header_location(d, sector_size) {
        None => r is Err && r->Err_0 == header_failure(d, sector_size),
        Some(o) => {
            let h = header_at(d, o);
            let p = decoded_entries(d, h, sector_size);
            let sum = crc32_of(stored_array(d, h, sector_size));
            if !entries_fit(d, h, sector_size) || array_end(h, sector_size) > d.len() {
                r is Err && r->Err_0 is Deserialize
            } else if h.partition_entry_array_crc32 != sum {
                r is Err && r->Err_0 == Error::InvalidPartitionEntryArrayChecksum(
                    h.partition_entry_array_crc32,
                    sum,
                )
            } else {
                &&& r is Ok
                &&& r->Ok_0.header == h
                &&& r->Ok_0.entries() == p
                &&& r->Ok_0.sector_size == sector_size
                &&& r->Ok_0.align == alignment_of(h, p)
                &&& r->Ok_0.wf()
            }
        },
    }
}

/// Reading fails on both copies of the header for lack of a signature.
pub open spec fn no_signature(d: Seq<u8>, sector_size: u64) -> bool {
    header_location(d, sector_size) is None && header_failure(d, sector_size) is InvalidSignature
}

/// The record at `o` decodes to a single header.
pub proof fn lemma_header_at(d: Seq<u8>, o: int, h: GPTHeader)
    requires
        header_decodes(d, o, h),
    ensures
        header_at(d, o) == h,
{
    broadcast use vstd::array::group_array_axioms;

    let h2 = header_at(d, o);
    assert(header_decodes(d, o, h2));
    assert(h2.signature =~= h.signature);
    assert(h2.revision =~= h.revision);
    assert(h2.reserved =~= h.reserved);
    assert(h2.disk_guid =~= h.disk_guid);
}

/// Largest divisor search: when `k` divides every used start and nothing above it up to `d`
/// does, the search from `d` ends at `k`.
proof fn lemma_largest_divisor(p: Seq<EntryView>, d: u64, k: u64)
    requires
        1 <= k <= d,
        divides_used(p, k),
        forall|e: u64| k < e <= d ==> !divides_used(p, e),
    ensures
        largest_divisor(p, d) == k,
    decreases d,
{
    if d > k {
        assert(!divides_used(p, d));
        lemma_largest_divisor(p, (d - 1) as u64, k);
    }
}

/// Alignment inference, general case: for a table with used partitions that is not a single
/// partition at the first usable sector, when every used start is a multiple of `k`, `k` is at
/// most the largest used start and at most 16384, and no larger value up to that bound divides
/// every used start, the inferred alignment is `k`.
pub proof fn lemma_alignment_inference(h: GPTHeader, p: Seq<EntryView>, k: u64)
    requires
        count_used(p) > 0,
        !(count_used(p) == 1 && all_used_start_at(p, h.first_usable_lba)),
        1 <= k <= alignment_bound(p),
        divides_used(p, k),
        forall|e: u64| k < e <= alignment_bound(p) ==> !divides_used(p, e),
    ensures
        alignment_of(h, p) == k,
{
    lemma_largest_divisor(p, alignment_bound(p), k);
}

/// Alignment inference, full disk: a table whose only used partition starts at the first usable
/// sector infers an alignment of 1.
pub proof fn lemma_alignment_single_partition(h: GPTHeader, p: Seq<EntryView>)
    requires
        count_used(p) == 1,
        all_used_start_at(p, h.first_usable_lba),
    ensures
        alignment_of(h, p) == 1,
{
}

impl GPT {
    /// The entries of the table, slot 1 first.
    pub open spec fn entries(&self) -> Seq<EntryView> {
        views(self.partitions@)
    }

    /// The table has one slot for each of the header's `number_of_partition_entries`.
    pub open spec fn wf(&self) -> bool {
        self.entries().len() == self.header.number_of_partition_entries
    }

    /// Make a new partition table for a disk image, with 128 unused slots (nothing is written).
    pub fn new_from(reader: &[u8], sector_size: u64, disk_guid: [u8; 16]) -> (r: Result<GPT, Error>)
        requires
            sector_size > 0,
            (reader@.len() as int) / (sector_size as int) >= (128 * 128 - 1) / (sector_size as int)
                + 3,
        ensures
            r is Ok,
            r is Ok ==> {
                let g = r->Ok_0;
                &&& is_fresh_header(g.header, reader@.len() as int, sector_size, disk_guid)
                &&& g.entries() == Seq::new(128, |i: int| empty_view())
                &&& g.sector_size == sector_size
                &&& g.align == DEFAULT_ALIGN
                &&& g.wf()
            },
    {
        let header = match GPTHeader::new_from(reader, sector_size, disk_guid) {
            Ok(h) => h,
            Err(e) => {
                return Err(e);
            },
        };
        let mut partitions: Vec<GPTPartitionEntry> = Vec::new();
        let mut i: u32 = 0;
        while i < header.number_of_partition_entries
            invariant
                header.number_of_partition_entries == 128,
                i <= 128,
                partitions@.len() == i,
                views(partitions@) == Seq::new(i as nat, |k: int| empty_view()),
            decreases 128 - i,
        {
            let e = GPTPartitionEntry::empty();
            let ghost prev = partitions@;
            partitions.push(e);
            assert(partitions@ == prev.push(e));
            assert(partitions@[i as int]@ == empty_view());
            assert forall|k: int| 0 <= k < i implies partitions@[k]@ == empty_view() by {
                assert(partitions@[k] == prev[k]);
                assert(views(prev)[k] == empty_view());
            }
            i = i + 1;
            assert(views(partitions@) =~= Seq::new(i as nat, |k: int| empty_view()));
        }
        Ok(GPT { sector_size, header, partitions, align: DEFAULT_ALIGN })
    }

    /// The entry of slot `i` (slots are numbered from 1).
    pub fn partition(&self, i: u32) -> (r: &GPTPartitionEntry)
        requires
            1 <= i <= self.entries().len(),
        ensures
            r@ == self.entries()[i - 1],
    {
        &self.partitions[i as usize - 1]
    }

    /// Replaces the entry of slot `i` (slots are numbered from 1).
    pub fn set_partition(&mut self, i: u32, entry: GPTPartitionEntry)
        requires
            1 <= i <= old(self).entries().len(),
        ensures
            final(self).entries() == old(self).entries().update(i - 1, entry@),
            final(self).header == old(self).header,
            final(self).sector_size == old(self).sector_size,
            final(self).align == old(self).align,
    {
        let ghost e = entry@;
        self.partitions.set(i as usize - 1, entry);
        assert(self.entries() =~= old(self).entries().update(i - 1, e));
    }

    /// Sets the entry of slot `i` to the unused entry.
    ///
    /// Fails with `InvalidPartitionNumber` when `i` is 0 or greater than the number of slots.
    pub fn remove(&mut self, i: u32) -> (r: Result<(), Error>)
        requires
            old(self).wf(),
        ensures
            final(self).wf(),
            final(self).header == old(self).header,
            final(self).sector_size == old(self).sector_size,
            final(self).align == old(self).align,
            (i == 0 || i > old(self).header.number_of_partition_entries) ==> r is Err
                && r->Err_0 == Error::InvalidPartitionNumber(i) && final(self).entries() == old(
                self,
            ).entries(),
            !(i == 0 || i > old(self).header.number_of_partition_entries) ==> r is Ok
                && final(self).entries() == old(self).entries().update(i - 1, empty_view()),
    {
        if i == 0 || i > self.header.number_of_partition_entries {
            return Err(Error::InvalidPartitionNumber(i));
        }
        self.set_partition(i, GPTPartitionEntry::empty());
        Ok(())
    }

    /// Finds the first slot whose used partition holds the given sector.
    pub fn find_at_sector(&self, sector: u64) -> (r: Option<u32>)
        requires
            self.wf(),
        ensures
            r is Some ==> {
                let k = r->Some_0;
                &&& 1 <= k <= self.entries().len()
                &&& holds_sector(self.entries()[k - 1], sector)
                &&& forall|j: int| 0 <= j < k - 1 ==> !holds_sector(#[trigger] self.entries()[j], sector)
            },
            r is None ==> forall|j: int|
                0 <= j < self.entries().len() ==> !holds_sector(#[trigger] self.entries()[j], sector),
    {
        let mut i: usize = 0;
        while i < self.partitions.len()
            invariant
                self.wf(),
                i <= self.entries().len(),
                forall|j: int| 0 <= j < i ==> !holds_sector(#[trigger] self.entries()[j], sector),
            decreases self.entries().len() - i,
        {
            let p = &self.partitions[i];
            assert(p@ == self.entries()[i as int]);
            if p.is_used() && sector >= p.starting_lba && sector <= p.ending_lba {
                return Some(i as u32 + 1);
            }
            i = i + 1;
        }
        None
    }

    /// Sets to unused the first slot whose used partition holds the given sector.
    ///
    /// Fails with `PartitionNotFound` when no used partition holds it.
    pub fn remove_at_sector(&mut self, sector: u64) -> (r: Result<(), Error>)
        requires
            old(self).wf(),
        ensures
            final(self).wf(),
            final(self).header == old(self).header,
            final(self).sector_size == old(self).sector_size,
            final(self).align == old(self).align,
            (forall|j: int|
                0 <= j < old(self).entries().len() ==> !holds_sector(
                    #[trigger] old(self).entries()[j],
                    sector,
                )) ==> r is Err && r->Err_0 is PartitionNotFound && final(self).entries() == old(
                self,
            ).entries(),
            (exists|j: int|
                0 <= j < old(self).entries().len() && holds_sector(
                    #[trigger] old(self).entries()[j],
                    sector,
                )) ==> r is Ok && exists|k: int|
                0 <= k < old(self).entries().len() && holds_sector(old(self).entries()[k], sector)
                    && (forall|j: int|
                    0 <= j < k ==> !holds_sector(#[trigger] old(self).entries()[j], sector))
                    && final(self).entries() == old(self).entries().update(k, empty_view()),
    {
        match self.find_at_sector(sector) {
            None => Err(Error::PartitionNotFound),
            Some(k) => {
                let r = self.remove(k);
                assert(final(self).entries() == old(self).entries().update(k - 1, empty_view()));
                r
            },
        }
    }

    /// The entries with their slot numbers (from 1).
    pub fn iter(&self) -> (r: Vec<(u32, GPTPartitionEntry)>)
        requires
            self.wf(),
        ensures
            r@.len() == self.entries().len(),
            forall|i: int|
                0 <= i < r@.len() ==> #[trigger] r@[i].0 == i + 1 && r@[i].1@ == self.entries()[i],
    {
        let mut out: Vec<(u32, GPTPartitionEntry)> = Vec::new();
        let mut i: usize = 0;
        while i < self.partitions.len()
            invariant
                self.wf(),
                i <= self.entries().len(),
                out@.len() == i,
                forall|j: int|
                    0 <= j < i ==> #[trigger] out@[j].0 == j + 1 && out@[j].1@ == self.entries()[j],
            decreases self.entries().len() - i,
        {
            let e = self.partitions[i].clone();
            out.push((i as u32 + 1, e));
            i = i + 1;
        }
        out
    }

    /// Returns `true` if the header is a primary copy (located at the beginning of the disk).
    pub fn is_primary(&self) -> (r: bool)
        ensures
            r == (self.header.primary_lba == 1),
    {
        self.header.is_primary()
    }

    /// Returns `true` if the header is a backup copy (located at the end of the disk).
    pub fn is_backup(&self) -> (r: bool)
        ensures
            r == (self.header.primary_lba != 1),
    {
        self.header.is_backup()
    }

    /// Checks that the used partitions have distinct unique partition GUIDs.
    fn check_partition_guids(&self) -> (r: Result<(), Error>)
        ensures
            guids_unique(self.entries()) ==> r is Ok,
            !guids_unique(self.entries()) ==> r is Err && r->Err_0 is ConflictPartitionGUID,
    {
        let n = self.partitions.len();
        let mut i: usize = 0;
        while i < n
            invariant
                n == self.entries().len(),
                i <= n,
                forall|a: int, b: int|
                    0 <= a < b < n && a < i && is_used_view(#[trigger] self.entries()[a])
                        && is_used_view(#[trigger] self.entries()[b]) ==> self.entries()[a].unique_guid
                        != self.entries()[b].unique_guid,
            decreases n - i,
        {
            let a = &self.partitions[i];
            assert(a@ == self.entries()[i as int]);
            if a.is_used() {
                let mut j: usize = i + 1;
                while j < n
                    invariant
                        n == self.entries().len(),
                        i < j <= n,
                        a@ == self.entries()[i as int],
                        is_used_view(a@),
                        forall|b: int|
                            i < b < j && is_used_view(#[trigger] self.entries()[b])
                                ==> self.entries()[i as int].unique_guid != self.entries()[b].unique_guid,
                    decreases n - j,
                {
                    let b = &self.partitions[j];
                    assert(b@ == self.entries()[j as int]);
                    if b.is_used() && bytes_equal(
                        a.unique_partition_guid.as_slice(),
                        b.unique_partition_guid.as_slice(),
                    ) {
                        return Err(Error::ConflictPartitionGUID);
                    }
                    j = j + 1;
                }
            }
            i = i + 1;
        }
        Ok(())
    }

    /// Checks that the used partitions have a positive size, lie in the usable area and do not
    /// overlap.
    fn check_partition_boundaries(&self) -> (r: Result<(), Error>)
        ensures
            boundaries_valid(self.entries(), self.header) ==> r is Ok,
            !boundaries_valid(self.entries(), self.header) ==> r is Err
                && r->Err_0 is InvalidPartitionBoundaries,
    {
        let n = self.partitions.len();
        let mut i: usize = 0;
        while i < n
            invariant
                n == self.entries().len(),
                i <= n,
                forall|a: int|
                    0 <= a < i && is_used_view(#[trigger] self.entries()[a]) ==> within_usable(
                        self.entries()[a],
                        self.header,
                    ),
                forall|a: int, b: int|
                    0 <= a < b < n && a < i && is_used_view(#[trigger] self.entries()[a])
                        && is_used_view(#[trigger] self.entries()[b]) ==> disjoint(
                        self.entries()[a],
                        self.entries()[b],
                    ),
            decreases n - i,
        {
            let a = &self.partitions[i];
            assert(a@ == self.entries()[i as int]);
            if a.is_used() {
                if a.starting_lba < self.header.first_usable_lba || a.ending_lba < a.starting_lba
                    || a.ending_lba > self.header.last_usable_lba {
                    return Err(Error::InvalidPartitionBoundaries);
                }
                let mut j: usize = i + 1;
                while j < n
                    invariant
                        n == self.entries().len(),
                        i < j <= n,
                        a@ == self.entries()[i as int],
                        is_used_view(a@),
                        forall|b: int|
                            i < b < j && is_used_view(#[trigger] self.entries()[b]) ==> disjoint(
                                self.entries()[i as int],
                                self.entries()[b],
                            ),
                    decreases n - j,
                {
                    let b = &self.partitions[j];
                    assert(b@ == self.entries()[j as int]);
                    if b.is_used() && !(a.ending_lba < b.starting_lba || b.ending_lba
                        < a.starting_lba) {
                        return Err(Error::InvalidPartitionBoundaries);
                    }
                    j = j + 1;
                }
            }
            i = i + 1;
        }
        Ok(())
    }

    /// Write the table into a disk image: the header at its place with its entry array, then the
    /// other copy (header locations swapped, entry array on the other side of the usable area)
    /// with the same entries. Both checksums are computed anew, which updates `header`.
    ///
    /// Returns the other copy's header as written. Nothing is written, and the table is left as
    /// it is, when two used partitions share a unique GUID (`ConflictPartitionGUID`), when a used
    /// partition has a negative size, leaves the usable area or overlaps another
    /// (`InvalidPartitionBoundaries`), or when a record would fall outside the image (`Io`).
    pub fn write_into(&mut self, writer: &mut Vec<u8>) -> (r: Result<GPTHeader, Error>)
        requires
            old(self).wf(),
        ensures
            final(self).entries() == old(self).entries(),
            final(self).sector_size == old(self).sector_size,
            final(self).align == old(self).align,
            write_outcome(*old(self), old(writer)@, r, final(self).header, final(writer)@),
    {
        let ghost g = *self;
        match self.check_partition_guids() {
            Ok(()) => {},
            Err(e) => {
                return Err(e);
            },
        }
        match self.check_partition_boundaries() {
            Ok(()) => {},
            Err(e) => {
                return Err(e);
            },
        }
        if self.header.last_usable_lba == u64::MAX {
            return Err(Error::Io);
        }
        let mut backup = self.header;
        backup.primary_lba = self.header.backup_lba;
        backup.backup_lba = self.header.primary_lba;
        backup.partition_entry_lba = if self.header.partition_entry_lba == 2 {
            self.header.last_usable_lba + 1
        } else {
            2
        };
        assert(backup == backup_of(self.header));
        let len = writer.len();
        if !self.header.fits_in(self.sector_size, len) || !backup.fits_in(self.sector_size, len) {
            return Err(Error::Io);
        }
        proof {
            lemma_regions_fit_checksums(self.header, views(self.partitions@), self.sector_size, len as int);
            lemma_regions_fit_checksums(backup, views(self.partitions@), self.sector_size, len as int);
        }
        if let Err(e) = self.header.write_into(writer, self.sector_size, self.partitions.as_slice()) {
            return Err(e);
        }
        proof {
            lemma_image_after_len(old(writer)@, self.header, self.sector_size, views(self.partitions@));
        }
        if let Err(e) = backup.write_into(writer, self.sector_size, self.partitions.as_slice()) {
            return Err(e);
        }
        Ok(backup)
    }
}

impl GPT {
    /// Checks that `d` divides the starting LBA of every used entry.
    fn divides_all(partitions: &[GPTPartitionEntry], d: u64) -> (r: bool)
        requires
            d > 0,
        ensures
            r == divides_used(views(partitions@), d),
    {
        let mut i: usize = 0;
        while i < partitions.len()
            invariant
                d > 0,
                i <= partitions@.len(),
                forall|j: int|
                    0 <= j < i && is_used_view(#[trigger] views(partitions@)[j])
                        ==> views(partitions@)[j].starting_lba % d == 0,
            decreases partitions@.len() - i,
        {
            let p = &partitions[i];
            assert(p@ == views(partitions@)[i as int]);
            if p.is_used() && p.starting_lba % d != 0 {
                return false;
            }
            i = i + 1;
        }
        true
    }

    /// Infers the alignment of the partitions from their starting LBAs.
    fn find_alignment(header: &GPTHeader, partitions: &[GPTPartitionEntry]) -> (r: u64)
        ensures
            r == alignment_of(*header, views(partitions@)),
    {
        let ghost p = views(partitions@);
        let mut count: usize = 0;
        let mut max: u64 = 0;
        let mut at_first = true;
        let mut i: usize = 0;
        while i < partitions.len()
            invariant
                p == views(partitions@),
                i <= p.len(),
                count == count_used(p.take(i as int)),
                count <= i,
                max == max_used_start(p.take(i as int)),
                at_first == all_used_start_at(p.take(i as int), header.first_usable_lba),
            decreases p.len() - i,
        {
            let e = &partitions[i];
            assert(e@ == p[i as int]);
            assert(p.take(i + 1).drop_last() =~= p.take(i as int));
            assert(p.take(i + 1).last() == p[i as int]);
            if e.is_used() {
                count = count + 1;
                if e.starting_lba > max {
                    max = e.starting_lba;
                }
                if e.starting_lba != header.first_usable_lba {
                    at_first = false;
                }
            }
            proof {
                let t = p.take(i + 1);
                if at_first {
                    assert forall|j: int|
                        0 <= j < t.len() && is_used_view(#[trigger] t[j]) implies t[j].starting_lba
                        == header.first_usable_lba by {
                        if j < i {
                            assert(t[j] == p.take(i as int)[j]);
                        }
                    }
                } else if !all_used_start_at(p.take(i as int), header.first_usable_lba) {
                    let j = choose|j: int|
                        0 <= j < i && is_used_view(#[trigger] p.take(i as int)[j])
                            && p.take(i as int)[j].starting_lba != header.first_usable_lba;
                    assert(t[j] == p.take(i as int)[j]);
                }
            }
            i = i + 1;
        }
        assert(p.take(i as int) =~= p);
        if count == 0 {
            return DEFAULT_ALIGN;
        }
        if count == 1 && at_first {
            return 1;
        }
        let bound = if max < MAX_ALIGN {
            max
        } else {
            MAX_ALIGN
        };
        let mut d = bound;
        while d > 1 && !GPT::divides_all(partitions, d)
            invariant
                p == views(partitions@),
                largest_divisor(p, d) == largest_divisor(p, bound),
            decreases d,
        {
            d = d - 1;
        }
        if d <= 1 {
            1
        } else {
            d
        }
    }

    /// Read the GPT of a disk image whose sectors have `sector_size` bytes. The header is read
    /// at sector 1 and, if it cannot be accepted, at the last sector; then every entry of its
    /// array is read and the array's checksum is checked.
    pub fn read_from(reader: &[u8], sector_size: u64) -> (r: Result<GPT, Error>)
        requires
            sector_size > 0,
        ensures
            read_outcome(reader@, sector_size, r),
    {
        let len = reader.len();
        let ghost mut o: int = sector_size as int;
        let header = match GPTHeader::read_from(reader, sector_size) {
            Ok(h) => h,
            Err(primary_err) => {
                let sectors = len as u64 / sector_size;
                let backup = if sectors == 0 {
                    Err(Error::Deserialize)
                } else {
                    assert((sectors - 1) * sector_size <= len) by (nonlinear_arith)
                        requires
                            sectors == len as int / sector_size as int,
                            sectors >= 1,
                            sector_size > 0,
                    ;
                    GPTHeader::read_from(reader, (sectors - 1) * sector_size)
                };
                match backup {
                    Ok(h) => {
                        proof {
                            o = ((sectors - 1) * sector_size) as int;
                        }
                        h
                    },
                    Err(backup_err) => {
                        if matches!(primary_err, Error::InvalidSignature) && matches!(
                            backup_err,
                            Error::InvalidSignature
                        ) {
                            return Err(Error::InvalidSignature);
                        }
                        return Err(Error::ReadError(Box::new(primary_err), Box::new(backup_err)));
                    },
                }
            },
        };
        proof {
            lemma_header_at(reader@, o, header);
        }
        assert(header_location(reader@, sector_size) == Some(o));
        let n = header.number_of_partition_entries;
        let mut partitions: Vec<GPTPartitionEntry> = Vec::new();
        let mut i: u32 = 0;
        while i < n
            invariant
                n == header.number_of_partition_entries,
                i <= n,
                len == reader@.len(),
                header_location(reader@, sector_size) == Some(o),
                header_at(reader@, o) == header,
                partitions@.len() == i,
                views(partitions@) == decoded_entries(reader@, header, sector_size).take(i as int),
                forall|j: int|
                    0 <= j < i ==> #[trigger] entry_offset(header, sector_size, j) + ENTRY_SIZE
                        <= reader@.len(),
            decreases n - i,
        {
            let z = header.size_of_partition_entry as u64;
            let iu = i as u64;
            assert(iu * z <= 0xFFFF_FFFFu64 * 0xFFFF_FFFFu64) by (nonlinear_arith)
                requires
                    iu <= 0xFFFF_FFFFu64,
                    z <= 0xFFFF_FFFFu64,
            ;
            let off = match byte_offset(header.partition_entry_lba, sector_size, iu * z) {
                Some(off) => off,
                None => {
                    assert(entry_offset(header, sector_size, i as int) + ENTRY_SIZE > reader@.len());
                    assert(!entries_fit(reader@, header, sector_size));
                    return Err(Error::Deserialize);
                },
            };
            let entry = match GPTPartitionEntry::read_from(reader, off as u64) {
                Ok(e) => e,
                Err(e) => {
                    assert(entry_offset(header, sector_size, i as int) + ENTRY_SIZE > reader@.len());
                    assert(!entries_fit(reader@, header, sector_size));
                    return Err(e);
                },
            };
            let ghost prev = partitions@;
            partitions.push(entry);
            proof {
                assert(partitions@ == prev.push(entry));
                assert(views(partitions@) =~= decoded_entries(reader@, header, sector_size).take(
                    i + 1,
                )) by {
                    assert forall|j: int| 0 <= j < i implies views(partitions@)[j] == views(
                        prev,
                    )[j] by {
                        assert(partitions@[j] == prev[j]);
                    }
                }
            }
            i = i + 1;
        }
        let ghost p = decoded_entries(reader@, header, sector_size);
        assert(views(partitions@) =~= p);
        let n64 = n as u64;
        let z = header.size_of_partition_entry as u64;
        assert(n64 * z <= 0xFFFF_FFFFu64 * 0xFFFF_FFFFu64) by (nonlinear_arith)
            requires
                n64 <= 0xFFFF_FFFFu64,
                z <= 0xFFFF_FFFFu64,
        ;
        let total = n64 * z;
        let end = match byte_offset(header.partition_entry_lba, sector_size, total) {
            Some(end) => end,
            None => {
                return Err(Error::Deserialize);
            },
        };
        if end > len {
            return Err(Error::Deserialize);
        }
        let start = end - total as usize;
        let sum = crc32(slice_subrange(reader, start, end));
        if header.partition_entry_array_crc32 != sum {
            return Err(Error::InvalidPartitionEntryArrayChecksum(
                header.partition_entry_array_crc32,
                sum,
            ));
        }
        let align = GPT::find_alignment(&header, partitions.as_slice());
        Ok(GPT { sector_size, header, partitions, align })
    }

    /// Writes a protective MBR into the first sector of a disk image (see
    /// `mbr::write_protective_mbr_into`).
    pub fn write_protective_mbr_into(writer: &mut Vec<u8>, sector_size: u64) -> (r: Result<(), Error>)
        requires
            sector_size > 0,
            old(writer)@.len() >= sector_size,
        ensures
            old(writer)@.len() < 512 ==> r is Err && r->Err_0 is Io && final(writer)@ == old(writer)@,
            old(writer)@.len() >= 512 ==> r is Ok && final(writer)@ == write_at(
                old(writer)@,
                MBR_RECORDS_OFFSET as int,
                protective_mbr_bytes(protective_sector_count(old(writer)@.len() as int, sector_size)),
            ),
    {
        write_protective_mbr_into(writer, sector_size)
    }

    /// Find the GPT of a disk image: read it with sectors of 512 bytes and, only when neither copy
    /// of the header has a signature there, with sectors of 4096 bytes.
    pub fn find_from(reader: &[u8]) -> (r: Result<GPT, Error>)
        ensures
            !no_signature(reader@, 512) ==> read_outcome(reader@, 512, r),
            no_signature(reader@, 512) ==> read_outcome(reader@, 4096, r),
    {
        match GPT::read_from(reader, 512) {
            Err(Error::InvalidSignature) => GPT::read_from(reader, 4096),
            r => r,
        }
    }
}

/// Where a used entry `e` goes in `s`, used entries sorted by starting LBA: after every entry
/// that starts at or before it.
pub open spec fn insert_pos(s: Seq<EntryView>, e: EntryView) -> nat
    decreases s.len(),
{
    if s.len() == 0 {
        0
    } else if s[0].starting_lba > e.starting_lba {
        0
    } else {
        1 + insert_pos(s.drop_first(), e)
    }
}

/// The used entries of `p`, sorted by starting LBA; entries that start at the same sector keep
/// their order.
pub open spec fn sorted_used(p: Seq<EntryView>) -> Seq<EntryView>
    decreases p.len(),
{
    if p.len() == 0 {
        Seq::empty()
    } else {
        let s = sorted_used(p.drop_last());
        if is_used_view(p.last()) {
            s.insert(insert_pos(s, p.last()) as int, p.last())
        } else {
            s
        }
    }
}

/// The unused entries of `p`, in order.
pub open spec fn unused_in_order(p: Seq<EntryView>) -> Seq<EntryView>
    decreases p.len(),
{
    if p.len() == 0 {
        Seq::empty()
    } else {
        let s = unused_in_order(p.drop_last());
        if is_used_view(p.last()) {
            s
        } else {
            s.push(p.last())
        }
    }
}

/// `insert_pos` is the first index whose entry starts after `e`.
proof fn lemma_insert_pos(s: Seq<EntryView>, e: EntryView, k: int)
    requires
        0 <= k <= s.len(),
        forall|j: int| 0 <= j < k ==> s[j].starting_lba <= e.starting_lba,
        k < s.len() ==> s[k].starting_lba > e.starting_lba,
    ensures
        insert_pos(s, e) == k,
    decreases s.len(),
{
    if s.len() > 0 && k > 0 {
        lemma_insert_pos(s.drop_first(), e, k - 1);
    }
}

impl GPT {
    /// Sort the entries: used ones first, by starting LBA, then the unused ones; entries that
    /// compare equal keep their order.
    pub fn sort(&mut self)
        ensures
            final(self).entries() == sorted_used(old(self).entries()) + unused_in_order(
                old(self).entries(),
            ),
            final(self).header == old(self).header,
            final(self).sector_size == old(self).sector_size,
            final(self).align == old(self).align,
    {
        let ghost p = self.entries();
        let mut used: Vec<GPTPartitionEntry> = Vec::new();
        let mut unused: Vec<GPTPartitionEntry> = Vec::new();
        let mut i: usize = 0;
        while i < self.partitions.len()
            invariant
                p == self.entries(),
                i <= p.len(),
                views(used@) == sorted_used(p.take(i as int)),
                views(unused@) == unused_in_order(p.take(i as int)),
            decreases p.len() - i,
        {
            let e = self.partitions[i].clone();
            assert(p.take(i + 1).drop_last() =~= p.take(i as int));
            assert(p.take(i + 1).last() == e@);
            if e.is_used() {
                let mut pos: usize = 0;
                while pos < used.len() && used[pos].starting_lba <= e.starting_lba
                    invariant
                        pos <= used@.len(),
                        forall|j: int| 0 <= j < pos ==> views(used@)[j].starting_lba <= e.starting_lba,
                    decreases used@.len() - pos,
                {
                    assert(views(used@)[pos as int] == used@[pos as int]@);
                    pos = pos + 1;
                }
                proof {
                    if pos < used@.len() {
                        assert(views(used@)[pos as int] == used@[pos as int]@);
                    }
                    lemma_insert_pos(views(used@), e@, pos as int);
                }
                let ghost before = used@;
                let ghost ev = e@;
                used.insert(pos, e);
                assert(views(used@) =~= views(before).insert(pos as int, ev));
            } else {
                let ghost before = unused@;
                let ghost ev = e@;
                unused.push(e);
                assert(views(unused@) =~= views(before).push(ev));
            }
            i = i + 1;
        }
        assert(p.take(i as int) =~= p);
        let ghost u = used@;
        let ghost n = unused@;
        used.append(&mut unused);
        assert(views(used@) =~= views(u) + views(n));
        self.partitions = used;
    }
}

impl Clone for GPT {
    fn clone(&self) -> (r: Self)
        ensures
            r.entries() == self.entries(),
            r.header == self.header,
            r.sector_size == self.sector_size,
            r.align == self.align,
    {
        let mut partitions: Vec<GPTPartitionEntry> = Vec::new();
        let mut i: usize = 0;
        while i < self.partitions.len()
            invariant
                i <= self.partitions@.len(),
                partitions@.len() == i,
                views(partitions@) == views(self.partitions@).take(i as int),
            decreases self.partitions@.len() - i,
        {
            let ghost before = partitions@;
            let e = self.partitions[i].clone();
            partitions.push(e);
            assert(views(partitions@) =~= views(self.partitions@).take(i + 1)) by {
                assert(partitions@ == before.push(e));
                assert forall|j: int| 0 <= j < i implies views(partitions@)[j] == views(before)[j] by {
                    assert(partitions@[j] == before[j]);
                }
            }
            i = i + 1;
        }
        assert(views(self.partitions@).take(i as int) =~= views(self.partitions@));
        GPT { sector_size: self.sector_size, header: self.header, partitions, align: self.align }
    }
}

/// What writing table `g` into image `d` gives: `r` the result, `h` the table's header after
/// the call and `d2` the image after the call.
pub open spec fn write_outcome(
    g: GPT,
    d: Seq<u8>,
    r: Result<GPTHeader, Error>,
    h: GPTHeader,
    d2: Seq<u8>,
) -> bool {
    let p = g.entries();
    let primary = with_checksums(g.header, p);
    let backup = with_checksums(backup_of(g.header), p);
    if !guids_unique(p) {
        r is Err && r->Err_0 is ConflictPartitionGUID && h == g.header && d2 == d
    } else if !boundaries_valid(p, g.header) {
        r is Err && r->Err_0 is InvalidPartitionBoundaries && h == g.header && d2 == d
    } else if g.header.last_usable_lba == u64::MAX || !regions_fit(
        g.header,
        g.sector_size,
        d.len() as int,
    ) || !regions_fit(backup_of(g.header), g.sector_size, d.len() as int) {
        r is Err && r->Err_0 is Io && h == g.header && d2 == d
    } else {
        &&& r is Ok
        &&& r->Ok_0 == backup
        &&& h == primary
        &&& d2 == image_after(image_after(d, primary, g.sector_size, p), backup, g.sector_size, p)
    }
}

/// Boundary validation: when the used partitions have distinct unique GUIDs but two of them
/// share a sector, or one starts before the first usable sector or ends after the last one,
/// writing fails with `InvalidPartitionBoundaries` and changes neither the image nor the header.
pub proof fn lemma_invalid_boundaries_rejected(
    g: GPT,
    d: Seq<u8>,
    r: Result<GPTHeader, Error>,
    h: GPTHeader,
    d2: Seq<u8>,
    i: int,
    j: int,
)
    requires
        write_outcome(g, d, r, h, d2),
        guids_unique(g.entries()),
        0 <= i < g.entries().len(),
        0 <= j < g.entries().len(),
        is_used_view(g.entries()[i]),
        is_used_view(g.entries()[j]),
        (i != j && !disjoint(g.entries()[i], g.entries()[j])) || g.entries()[i].starting_lba
            < g.header.first_usable_lba || g.entries()[i].ending_lba > g.header.last_usable_lba,
    ensures
        r is Err,
        r->Err_0 is InvalidPartitionBoundaries,
        d2 == d,
        h == g.header,
{
    let p = g.entries();
    if i != j && !disjoint(p[i], p[j]) {
        if i < j {
            assert(!boundaries_valid(p, g.header));
        } else {
            assert(!disjoint(p[j], p[i]));
            assert(!boundaries_valid(p, g.header));
        }
    } else {
        assert(!within_usable(p[i], g.header));
    }
}

/// Unique GUIDs: when two used partitions share a unique partition GUID, writing fails with
/// `ConflictPartitionGUID` and changes neither the image nor the header, whatever their
/// boundaries.
pub proof fn lemma_guid_conflict_rejected(
    g: GPT,
    d: Seq<u8>,
    r: Result<GPTHeader, Error>,
    h: GPTHeader,
    d2: Seq<u8>,
    i: int,
    j: int,
)
    requires
        write_outcome(g, d, r, h, d2),
        0 <= i < j < g.entries().len(),
        is_used_view(g.entries()[i]),
        is_used_view(g.entries()[j]),
        g.entries()[i].unique_guid == g.entries()[j].unique_guid,
    ensures
        r is Err,
        r->Err_0 is ConflictPartitionGUID,
        d2 == d,
        h == g.header,
{
    assert(!guids_unique(g.entries()));
}

/// Whether the records fit does not depend on the checksum fields.
proof fn lemma_regions_fit_checksums(h: GPTHeader, p: Seq<EntryView>, sector_size: u64, len: int)
    ensures
        regions_fit(with_checksums(h, p), sector_size, len) == regions_fit(h, sector_size, len),
{
}

} // verus!
