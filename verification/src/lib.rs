//! Reading and writing FATX and XTAF volumes, the file systems of the Xbox and
//! the Xbox 360.

pub mod browser;
pub mod bytes;
pub mod chains;
pub mod cli;
pub mod clock;
pub mod device;
pub mod directory;
pub mod dirent;
pub mod disk;
pub mod error;
pub mod files;
pub mod iso;
pub mod iso2god;
pub mod laws;
pub mod mkimage;
pub mod nfs;
pub mod notation;
pub mod numbers;
pub mod partition;
pub mod path;
pub mod platform;
pub mod samples;
pub mod text;
pub mod titles;
pub mod trees;
pub mod types;
pub mod volume;
