//! Dictionary compression of a path into an expression that evaluates to it.

pub mod dict_compression;
pub mod laws;

pub use dict_compression::lz_compress_to_ast;
