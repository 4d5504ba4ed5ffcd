//! An embeddable store of keys and values on append-only segments, with
//! tables and a small SQL dialect on top.
//!
//! The store is a list of segments. A segment is a log of entries and a
//! sidecar index that holds, for each entry, its key and the offset at which
//! it begins. Writes go to the end of the active segment; when that is full
//! a new segment is begun. A read consults the segments from the last to
//! the first and takes what the first index that holds the key points to.
//! Compaction merges all segments but the active one into a new segment.
//!
//! The library keeps an image of the data directory in memory: the
//! manifest and, for every segment, the bytes of its log and of its
//! sidecar. Every operation is a verified function on that image; bringing
//! the image to disk and back is left to the program around the library.
//!
//! - `record`, `sidecar`, `segment`: the binary formats.
//! - `model`: the store as mathematics; `laws`: what holds of it.
//! - `storage`, `compaction`: the store itself.
//! - `cache`, `engine`, `writes`, `reads`: the store behind a cache of
//!   segment indexes.
//! - `types`, `schema`, `codec`, `api`, `exec`: tables and rows.
//! - `sql`, `pretty`, `repl`, `tcp`: what the front ends compute.

pub mod api;
pub mod assoc;
pub mod cache;
pub mod clock;
pub mod codec;
pub mod compaction;
pub mod decimal;
pub mod engine;
pub mod error;
pub mod exec;
pub mod keys;
pub mod laws;
pub mod model;
pub mod pretty;
pub mod reads;
pub mod record;
pub mod repl;
pub mod schema;
pub mod seg_index;
pub mod segment;
pub mod segment_name;
pub mod sidecar;
pub mod sql;
pub mod storage;
pub mod str_map;
pub mod table;
pub mod tcp;
pub mod text;
pub mod types;
pub mod utils;
pub mod writes;
