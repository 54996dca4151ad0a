//! Serving a volume to NFS clients.

pub mod attributes;
pub mod attrs;
pub mod laws;
pub mod removal;
pub mod requests;
pub mod server;
pub mod storage;
