//! Trident: a storage kernel in which every value is stored once and every
//! index keeps only `key -> RecordId` pointers.
//!
//! This crate holds the verified core: the binary formats and their
//! checksums, the pointer indexes, the layout scheme, and the bookkeeping
//! structures of the engine.

pub mod bytes_order;
pub mod clock;
pub mod errors;
pub mod formats;
pub mod identity;
pub mod io;
pub mod kernel;
pub mod index;
pub mod layout;
pub mod le;
pub mod maintenance;
pub mod manifest;
pub mod maps;
pub mod memory;
pub mod seqs;
pub mod sort;
pub mod store;
pub mod text;
