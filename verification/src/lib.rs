//! Finding, listing and removing the files that Git ignores in a working tree
//! and in its submodules.

pub mod delete;
pub mod error;
pub mod ignored;
pub mod ignored_laws;
pub mod path;
pub mod picker;
pub mod prompt;
pub mod repository;
pub mod session;
pub mod text;
