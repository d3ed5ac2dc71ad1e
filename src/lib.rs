//! Reading, validating, repairing and writing GUID partition tables.
//!
//! A disk is handled as an in-memory image (`Vec<u8>` or a byte slice). The header and
//! partition entry records are encoded and decoded by hand, and every decision of the table
//! engine (which header copy is used, which checks a table must pass before it is written,
//! where free space lies) is stated as a contract.
use vstd::prelude::*;

pub mod bytes;
pub mod entry;
pub mod error;
pub mod gpt;
pub mod header;
pub mod image;
pub mod mbr;
pub mod name;
pub mod placement;
pub mod round_trip;

pub use entry::GPTPartitionEntry;
pub use error::Error;
pub use gpt::GPT;
pub use header::GPTHeader;
pub use name::PartitionName;

verus! {

} // verus!
