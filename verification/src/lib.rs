//! Rewrites module-import paths of a source tree so that references to the
//! top-level children of the tree's root carry an alias prefix.
//!
//! The library decides and computes; it touches no file. [`entry`] picks the
//! children of the root that count, [`walk`] says which directory to list
//! and which file to rewrite next, and [`rewrite`] turns the text of one
//! file into its rewritten text. [`laws`] states what holds of every
//! rewrite and every walk.

pub mod entry;
pub mod laws;
pub mod passes;
pub mod rewrite;
pub mod shape;
pub mod text;
pub mod walk;
