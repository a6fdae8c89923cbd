//! Chunk persistence: save-file records, runtime indices and their on-disk
//! encodings.
pub mod backend;
pub mod bytes;
pub mod compression;
pub mod format;
pub mod index;
pub mod native;
pub mod pixel_body;
