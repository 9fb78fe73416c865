//! A task/event manager core: a local working set of records kept in step
//! with a remote document written as a tagged tree. The engine decodes the
//! document, allocates collision-free identifiers, and rewrites the document
//! with three streaming patch passes (delete, edit, insert) that copy
//! untouched content through unchanged.

pub mod bytes;
pub mod names;
pub mod values;
pub mod doc;
pub mod attrs;
pub mod records;
pub mod passes;
pub mod tree;
pub mod state;
pub mod sync;
pub mod laws;
