//! Merging of PDF documents: the objects of several documents become one document with
//! one top-level descriptor and one pages tree, which lists the leaves of all of them in
//! the order of the documents.

pub mod backend;
pub mod document;
pub mod error;
pub mod ids;
pub mod laws;
pub mod merger;
pub mod object;
pub mod rebuild;
pub mod reconcile;
