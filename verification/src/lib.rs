//! Core engine for reconstructing C-family type definitions out of a debug
//! information container's type stream, and for comparing two such
//! reconstructions line by line.
//!
//! The crate is organised like the engine it implements: `pdb_types` models
//! decoded type records and renders a single type, `pdb_file` indexes a
//! container and drives the dependency closure, `diffing` aligns two texts,
//! and `backend` exposes the command/result interface that a caller feeds.

pub mod strings;
pub mod error;
pub mod pdb_types;
pub mod sync_maps;
pub mod pdb_file;
pub mod diffing;
pub mod filtering;
pub mod frontend;
pub mod backend;
pub mod index_list;
