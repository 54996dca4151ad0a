//! Games on Demand: a disc image packed for the hard disk.
//!
//! The bytes of the image are cut into blocks of 4 KiB, the blocks into subparts of 204, and
//! the subparts into Data files of 203. In front of each subpart stands a page with the
//! hashes of its blocks, in front of each Data file a page with the hashes of those pages.

use vstd::prelude::*;

pub mod convert;
pub mod filing;
pub mod hash_list;
pub mod laws;
pub mod measures;
pub mod names;
pub mod output;
pub mod package;
pub mod part;
pub mod source;

verus! {

/// Blocks in a full Data file.
pub const BLOCKS_PER_PART: u64 = 0xa1c4;

/// Blocks in a full subpart.
pub const BLOCKS_PER_SUBPART: u64 = 0xcc;

/// Bytes in a block, and in a page of hashes.
pub const BLOCK_SIZE: u64 = 0x1000;

/// Subparts in a full Data file.
pub const SUBPARTS_PER_PART: u32 = 0xcb;

/// Bytes in a full subpart.
pub const SUBPART_SIZE: u64 = 0xcc000;

/// Bytes of the image in a full Data file.
pub const PART_DATA: u64 = 0xa1c4000;

/// Bytes in a full Data file, with its pages of hashes.
pub const MAX_PART_BYTES: u64 = 0xa290000;

} // verus!
