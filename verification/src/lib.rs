//! Verified core of a host-alias synchronizer.
//!
//! The library parses an alias file (hosts-file syntax) into an
//! [`table::AliasTable`], folds in peer records reported by a mesh-networking
//! tool, and serializes the merged table with the loopback lines first and the
//! address column padded to a uniform width.  All file and process I/O lives
//! outside the library; the functions here work on plain strings and vectors.

pub mod parse;
pub mod paths;
pub mod peers;
pub mod render;
pub mod roundtrip;
pub mod table;
pub mod text;
