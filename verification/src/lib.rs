//! Loader for NSO executables: header parsing, LZ4 segment decompression,
//! MOD0 / dynamic-section walking, symbol reading and AArch64 relocation.

pub mod bytes;
pub mod error;
pub mod stream;
pub mod elf;
pub mod lz4;
pub mod format;
pub mod section;
pub mod nso;
pub mod laws;
pub mod table_laws;
pub mod image_laws;
