//! The plain way to pack an image: every Data file takes all of the image that it has room
//! for, whatever the report says, and the caller is not asked whether to stop.

pub mod convert;
pub mod god;

pub use convert::{convert_iso, ConvertOptions, ConvertReport, TrimMode};
