//! Resolving every version of every crate of an index: which packages the resolver is
//! shown for a crate, what they demand, which versions they can have, and whether what
//! the resolver finds can be built.

pub mod answers;
pub mod check;
pub mod choice;
pub mod constraints;
pub mod demands;
pub mod error;
pub mod hasher;
pub mod index_data;
pub mod laws;
pub mod name_map;
pub mod names;
pub mod provider;
pub mod report;
pub mod selection;
pub mod text;
pub mod version;
pub mod version_set;
pub mod walk;
