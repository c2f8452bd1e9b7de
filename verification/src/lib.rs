//! Decoder for the on-disk layout of ELF object files: a file header and a
//! table of named sections with their raw bytes, read from an in-memory byte
//! image of the file.

pub mod file;
pub mod laws;
pub mod model;
pub mod reader;
pub mod strtab;
pub mod types;

pub use file::{File, Section};
pub use model::ElfError;
pub use types::{FileHeader, SectionHeader};
