//! Core of a package installer for a registry of versioned packages:
//! where archive entries land in a cache slot and when the slot is complete,
//! semantic-version precedence and the pick of the greatest admitted version,
//! hoisted lookup in the installed `node_modules` tree and in the lockfile,
//! validation of an installed tree, the walk that gathers registry documents,
//! and the install plan of a manifest.

pub mod entry;
pub mod version;
pub mod tree;
pub mod package;
pub mod cache;
pub mod refresh;
pub mod listing;
