//! A lazy, pre-order walk over a directory tree, split into the decisions
//! (verified here) and the filesystem work (left to the caller).
//!
//! The caller resolves the start path with [`enclosing_directory`], lists that
//! directory and seeds a [`TreeWalker`] with the child that has the start
//! path's identity. From then on it asks the walker which entry is due,
//! inspects that entry on the filesystem and hands the finding back; the
//! walker answers with the value to yield and remembers what is still to
//! visit.

pub mod resolve;
pub mod seed;
pub mod traversal;
pub mod tree;
pub mod walker;

pub use resolve::{absolute_path, enclosing_directory, parent_of, ResolveError};
pub use seed::{Identity, SeedError, Sibling};
pub use tree::Tree;
pub use walker::{Inspection, InspectionView, TreeWalker, WalkerState};
