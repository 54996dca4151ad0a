//! Browsing a volume with the keyboard.

pub mod app;
pub mod keys;
pub mod laws;
pub mod listing;
pub mod steps;
