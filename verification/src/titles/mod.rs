//! Names for the numbers that titles go by.

pub mod catalog;
pub mod dynamic;
pub mod finding;

pub use catalog::{lookup, Catalog, Source, TitleInfo};
