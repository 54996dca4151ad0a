//! Disc images: choosing what to extract, and packing an image for the hard disk.

pub mod extract;
pub mod god;
pub mod policy;
