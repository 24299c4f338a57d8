//! The compression algorithms and the byte layout that their codes share.

pub mod le_bytes;
pub mod lz77;
pub mod lz78;
