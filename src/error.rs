use vstd::prelude::*;

verus! {

/// An error that can be produced while reading, writing or managing a GPT.
#[derive(Debug)]
pub enum Error {
    /// The byte image is too short (or an offset lies outside it) for the record being decoded.
    Deserialize,
    /// A write would reach outside the byte image.
    Io,
    /// The signature of the header is not "EFI PART".
    InvalidSignature,
    /// The revision of the header is not 00 00 01 00.
    InvalidRevision,
    /// The header size field is not 92.
    InvalidHeaderSize,
    /// The stored header checksum (first) differs from the computed one (second).
    InvalidChecksum(u32, u32),
    /// The stored partition entry array checksum (first) differs from the computed one (second).
    InvalidPartitionEntryArrayChecksum(u32, u32),
    /// Neither the primary header (first) nor the backup header (second) could be read.
    ReadError(Box<Error>, Box<Error>),
    /// No free space satisfies the request.
    NoSpaceLeft,
    /// Two used partitions share the same unique partition GUID.
    ConflictPartitionGUID,
    /// A partition has a negative size, overlaps another one or lies outside the usable area.
    InvalidPartitionBoundaries,
    /// A partition number outside `1..=number_of_partition_entries`.
    InvalidPartitionNumber(u32),
    /// No used partition contains the requested sector.
    PartitionNotFound,
}

} // verus!
