//! Merging of single-page PDF documents into one document, on the level of
//! their object tables, and the compositing of RGBA pixels onto white.
//!
//! The merge copies the objects of every source document under fresh
//! identifiers into one table, rewrites their references, and builds one
//! page tree over the pages of all sources in their order. It is stated
//! and proved over mathematical values of documents. Listing the pages of
//! a document and writing a file are left to the `lopdf` crate; files are
//! read by the program that uses the library, which hands it the documents.

pub mod object;
pub mod document;
pub mod error;
pub mod ids;
pub mod names;
pub mod remap;
pub mod copy;
pub mod page_tree;
pub mod merge;
pub mod guarantees;
pub mod codec;
pub mod pdf;
pub mod collect;
pub mod pixels;
