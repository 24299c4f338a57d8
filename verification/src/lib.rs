//! LZ77 and LZ78 byte compressors with verified encoders and decoders, and
//! the decision logic of two chunked readers.

pub mod algorithms;
pub mod io_controller;
pub mod readfile;
