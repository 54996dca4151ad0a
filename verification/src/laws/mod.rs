//! Laws of the file system: what operations on paths mean to each other.
//!
//! The laws speak of the model that the contracts of the operations refer to. They hold of
//! intact volumes: those whose file allocation table is on the device in full and does not
//! overlap the clusters. Damage elsewhere (cross-linked files, circular chains, broken
//! directories) is excluded only as far as it lies in the way of an operation.
//!
//! Sound volumes are intact, and no two chains on them share a cluster; new volumes are sound,
//! and creating, rewriting, renaming and deleting keep them so. Where the directories of a sound
//! volume form a tree besides, as they do from the start, whole trees can be deleted.
//!
//! Other laws say what the bytes on a device mean ([`shape`], [`entries`]), which operations a
//! sound volume must grant and which it must refuse ([`success`], [`granting`]), and what the
//! tools around the file system do with numbers, sizes, drives and mounts ([`tools`]).

pub mod chain_facts;
pub mod counting;
pub mod creation;
pub mod dir_facts;
pub mod entries;
pub mod formatting;
pub mod frame;
pub mod granting;
pub mod keeping;
pub mod reading;
pub mod removal;
pub mod rewriting;
pub mod shape;
pub mod sound_creation;
pub mod sound_formatting;
pub mod sound_removal;
pub mod sound_renaming;
pub mod sound_rewriting;
pub mod sound_trees;
pub mod sound_undoing;
pub mod soundness;
pub mod success;
pub mod tools;
pub mod tree_growth;
pub mod undoing;
