//! The 128-byte partition entry record.
use vstd::prelude::*;

use crate::bytes::{from_le16, from_le64, le16, le64, push_all, push_le16, push_le64, read_array, read_le16, read_le64};
use crate::error::Error;
use crate::name::{decode_name, name_units, PartitionName, NAME_UNITS};

verus! {

/// Size in bytes of a partition entry record.
pub const ENTRY_SIZE: usize = 128;

/// A GPT partition's entry in the partition array.
#[derive(Debug, PartialEq, Eq)]
pub struct GPTPartitionEntry {
    /// 16 bytes representing the UUID of the partition's type (all zero: the slot is unused).
    pub partition_type_guid: [u8; 16],
    /// 16 bytes representing the UUID of the partition.
    pub unique_partition_guid: [u8; 16],
    /// The position (in sectors) of the first sector of the partition.
    pub starting_lba: u64,
    /// The position (in sectors) of the last sector of the partition (inclusive).
    pub ending_lba: u64,
    /// The attribute bits.
    pub attribute_bits: u64,
    /// The partition name.
    pub partition_name: PartitionName,
}

/// The mathematical value of a partition entry.
pub struct EntryView {
    pub type_guid: Seq<u8>,
    pub unique_guid: Seq<u8>,
    pub starting_lba: u64,
    pub ending_lba: u64,
    pub attribute_bits: u64,
    pub name: Seq<char>,
}

impl View for GPTPartitionEntry {
    type V = EntryView;

    open spec fn view(&self) -> EntryView {
        EntryView {
            type_guid: self.partition_type_guid@,
            unique_guid: self.unique_partition_guid@,
            starting_lba: self.starting_lba,
            ending_lba: self.ending_lba,
            attribute_bits: self.attribute_bits,
            name: self.partition_name@,
        }
    }
}

/// Sixteen zero bytes: the type GUID of an unused slot.
pub open spec fn zero_guid() -> Seq<u8> {
    Seq::new(16, |i: int| 0u8)
}

/// A slot is used when its type GUID is not all zero.
pub open spec fn is_used_view(e: EntryView) -> bool {
    e.type_guid != zero_guid()
}

/// The unused entry.
pub open spec fn empty_view() -> EntryView {
    EntryView {
        type_guid: zero_guid(),
        unique_guid: zero_guid(),
        starting_lba: 0,
        ending_lba: 0,
        attribute_bits: 0,
        name: Seq::empty(),
    }
}

/// The little-endian bytes of a sequence of code units.
pub open spec fn units_bytes(u: Seq<u16>) -> Seq<u8>
    decreases u.len(),
{
    if u.len() == 0 {
        Seq::empty()
    } else {
        units_bytes(u.drop_last()) + le16(u.last())
    }
}

/// The `n` code units stored little-endian from `o` in `b`.
pub open spec fn units_at(b: Seq<u8>, o: int, n: nat) -> Seq<u16> {
    Seq::new(n, |i: int| from_le16(b, o + 2 * i))
}

/// The bytes of an entry as it is stored on disk.
pub open spec fn entry_bytes(e: EntryView) -> Seq<u8> {
    e.type_guid + e.unique_guid + le64(e.starting_lba) + le64(e.ending_lba) + le64(
        e.attribute_bits,
    ) + units_bytes(name_units(e.name))
}

/// The entry whose 128 bytes start at `o` in `b`.
pub open spec fn decode_entry(b: Seq<u8>, o: int) -> EntryView {
    EntryView {
        type_guid: b.subrange(o, o + 16),
        unique_guid: b.subrange(o + 16, o + 32),
        starting_lba: from_le64(b, o + 32),
        ending_lba: from_le64(b, o + 40),
        attribute_bits: from_le64(b, o + 48),
        name: decode_name(units_at(b, o + 56, NAME_UNITS as nat)),
    }
}

impl Clone for GPTPartitionEntry {
    fn clone(&self) -> (r: Self)
        ensures
            r@ == self@,
    {
        GPTPartitionEntry {
            partition_type_guid: self.partition_type_guid,
            unique_partition_guid: self.unique_partition_guid,
            starting_lba: self.starting_lba,
            ending_lba: self.ending_lba,
            attribute_bits: self.attribute_bits,
            partition_name: self.partition_name.clone(),
        }
    }
}

/// Reads `n` little-endian code units from offset `o`.
fn read_units(b: &[u8], o: usize, n: usize) -> (r: Vec<u16>)
    requires
        o + 2 * n <= b@.len(),
    ensures
        r@ == units_at(b@, o as int, n as nat),
{
    let mut r: Vec<u16> = Vec::new();
    let len = b.len();
    let mut i: usize = 0;
    while i < n
        invariant
            len == b@.len(),
            i <= n,
            o + 2 * n <= b@.len(),
            r@ == units_at(b@, o as int, i as nat),
        decreases n - i,
    {
        r.push(read_le16(b, o + 2 * i));
        i = i + 1;
        assert(r@ =~= units_at(b@, o as int, i as nat));
    }
    r
}

impl GPTPartitionEntry {
    /// Creates an unused partition entry.
    pub fn empty() -> (r: GPTPartitionEntry)
        ensures
            r@ == empty_view(),
    {
        let r = GPTPartitionEntry {
            partition_type_guid: [0; 16],
            unique_partition_guid: [0; 16],
            starting_lba: 0,
            ending_lba: 0,
            attribute_bits: 0,
            partition_name: PartitionName::new(""),
        };
        assert(r.partition_type_guid@ =~= zero_guid());
        assert(r.unique_partition_guid@ =~= zero_guid());
        proof {
            reveal_strlit("");
        }
        assert(r.partition_name@ =~= Seq::<char>::empty());
        r
    }

    /// Returns `true` if the partition entry is not used (type GUID is all zero).
    pub fn is_unused(&self) -> (r: bool)
        ensures
            r == !is_used_view(self@),
    {
        let mut i: usize = 0;
        while i < 16
            invariant
                i <= 16,
                forall|j: int| 0 <= j < i ==> self.partition_type_guid@[j] == 0,
            decreases 16 - i,
        {
            if self.partition_type_guid[i] != 0 {
                assert(self.partition_type_guid@[i as int] != zero_guid()[i as int]);
                return false;
            }
            i = i + 1;
        }
        assert(self.partition_type_guid@ =~= zero_guid());
        true
    }

    /// Returns `true` if the partition entry is used (type GUID is not all zero).
    pub fn is_used(&self) -> (r: bool)
        ensures
            r == is_used_view(self@),
    {
        !self.is_unused()
    }

    /// Returns the number of sectors in the partition; an error if `ending_lba` is lesser than
    /// `starting_lba`.
    pub fn size(&self) -> (r: Result<u64, Error>)
        requires
            self.ending_lba - self.starting_lba < u64::MAX,
        ensures
            self.ending_lba < self.starting_lba ==> r is Err && r->Err_0 is InvalidPartitionBoundaries,
            self.ending_lba >= self.starting_lba ==> r is Ok && r->Ok_0 == self.ending_lba
                - self.starting_lba + 1,
    {
        if self.ending_lba < self.starting_lba {
            return Err(Error::InvalidPartitionBoundaries);
        }
        Ok(self.ending_lba - self.starting_lba + 1)
    }

    /// The 128 bytes of the entry as stored on disk.
    pub fn to_bytes(&self) -> (r: Vec<u8>)
        ensures
            r@ == entry_bytes(self@),
            r@.len() == ENTRY_SIZE,
    {
        let mut v: Vec<u8> = Vec::new();
        push_all(&mut v, self.partition_type_guid.as_slice());
        push_all(&mut v, self.unique_partition_guid.as_slice());
        push_le64(&mut v, self.starting_lba);
        push_le64(&mut v, self.ending_lba);
        push_le64(&mut v, self.attribute_bits);
        let units = self.partition_name.to_units();
        let ghost start = v@;
        let mut i: usize = 0;
        while i < units.len()
            invariant
                i <= units@.len(),
                units@ == name_units(self.partition_name@),
                v@ == start + units_bytes(units@.take(i as int)),
            decreases units@.len() - i,
        {
            push_le16(&mut v, units[i]);
            assert(units@.take(i + 1).drop_last() =~= units@.take(i as int));
            i = i + 1;
        }
        assert(units@.take(units@.len() as int) =~= units@);
        proof {
            lemma_units_bytes_len(units@);
        }
        v
    }

    /// Decodes the entry record at offset `o`.
    pub fn decode(b: &[u8], o: usize) -> (r: GPTPartitionEntry)
        requires
            o + ENTRY_SIZE <= b@.len(),
        ensures
            r@ == decode_entry(b@, o as int),
    {
        let _len = b.len();
        let units = read_units(b, o + 56, NAME_UNITS);
        GPTPartitionEntry {
            partition_type_guid: read_array(b, o),
            unique_partition_guid: read_array(b, o + 16),
            starting_lba: read_le64(b, o + 32),
            ending_lba: read_le64(b, o + 40),
            attribute_bits: read_le64(b, o + 48),
            partition_name: PartitionName::from_units(units.as_slice()),
        }
    }

    /// Read a partition entry from the 128 bytes at offset `offset` of a disk image.
    pub fn read_from(reader: &[u8], offset: u64) -> (r: Result<GPTPartitionEntry, Error>)
        ensures
            offset + ENTRY_SIZE > reader@.len() ==> r is Err && r->Err_0 is Deserialize,
            offset + ENTRY_SIZE <= reader@.len() ==> r is Ok && r->Ok_0@ == decode_entry(
                reader@,
                offset as int,
            ),
    {
        if offset > reader.len() as u64 || reader.len() - (offset as usize) < ENTRY_SIZE {
            return Err(Error::Deserialize);
        }
        Ok(GPTPartitionEntry::decode(reader, offset as usize))
    }
}

/// Each code unit takes two bytes.
pub proof fn lemma_units_bytes_len(u: Seq<u16>)
    ensures
        units_bytes(u).len() == 2 * u.len(),
    decreases u.len(),
{
    if u.len() > 0 {
        lemma_units_bytes_len(u.drop_last());
    }
}

} // verus!
