//! Cross-file type resolution for the Glass interface-definition language.
//!
//! A batch of parsed Glass programs (schemas, enums and services grouped by
//! package, with import statements between files) is turned into a single
//! `TypeTree`: a graph of fully qualified type definitions together with the
//! dependency edges between them, an import graph over the files, and query
//! functions for code emitters (dependency lookup, reverse dependencies,
//! reachability, and a topological generation order).

pub mod ast;
pub mod collections;
pub mod cycles;
pub mod errors;
pub mod imports;
pub mod laws;
pub mod order;
pub mod passes;
pub mod queries;
pub mod resolve;
pub mod text;
pub mod tree;
