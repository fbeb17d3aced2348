//! A chunked archive container: many files packed into one sequential
//! binary blob. Each entry is a small binary header followed by the file's
//! content stored in fixed-size chunks, the final partial chunk zero-padded.
//! The archive supports appending, listing, extracting and removing entries
//! by scanning the blob front to back; there is no separate index structure.

pub mod bytes;
pub mod error;
pub mod fct_archive;
pub mod file_parser;
pub mod fs_operations;
