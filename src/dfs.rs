//! Types and conversions for DFS disc images.

use vstd::prelude::*;


mod disc;
mod file;
pub mod laws;
pub mod layout;

pub use self::disc::{BootOption, Disc, DiscName, DiscView};
pub use self::file::{File, FileName, FileView, MAX_ADDR};

verus! {

/// Sector size in all known DFS implementations.
pub const SECTOR_SIZE: usize = 256;

/// Largest disc image size in all known DFS implementations.
pub const MAX_DISC_SIZE: u64 = 524288;

/// Why decoding or encoding a disc failed.
#[derive(Debug, PartialEq, Eq)]
pub enum DFSError {
    /// A field held a value with no meaning.
    InvalidValue,
    /// The image is smaller than the size given, in bytes.
    InputTooSmall(usize),
    /// A size or sector count went past what the format can hold.
    InputTooLarge(usize),
    /// The image is malformed at the given byte offset.
    InvalidDiscData(usize),
    /// Two catalog entries share a directory and name, shown as `dir.name`.
    DuplicateFileName(String),
}

} // verus!
