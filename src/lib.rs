//! A log-structured key-value storage engine: an append-only log split into
//! numbered segments, an in-memory index from key to the location of its latest
//! record, and compaction that rewrites the live records into a fresh segment.
//!
//! `codec` frames records, `replay` rebuilds the index from segment bytes,
//! `engine` decides rotation and compaction and keeps the index, `compaction`
//! merges a snapshot of segments, `naming` reads a generation from a segment
//! file's name, and `protocol` maps results onto the service protocol's responses. Reading and writing files is left to the caller.

pub mod codec;
pub mod index;
pub mod replay;
pub mod engine;
pub mod compaction;
pub mod protocol;
pub mod naming;
