//! A reader split into chunks with one read per chunk: the decisions that
//! follow each read.

use vstd::prelude::*;

verus! {

/// What one read into a chunk buffer gave.
#[derive(Debug, Clone, Copy, PartialEq, Eq)]
pub enum ReadOutcome {
    /// The read succeeded with this many bytes (0 at the end of input).
    Read(usize),
    /// The read failed because the input ended early.
    UnexpectedEof,
    /// The read failed otherwise.
    Failed,
}

/// What the chunk iterator yields after a read.
#[derive(Debug, Clone, Copy, PartialEq, Eq)]
pub enum ChunkResult {
    /// The first this many bytes of the buffer.
    Chunk(usize),
    /// No more chunks.
    End,
    /// The read's error.
    Error,
}

/// Splits `reader` into chunks of at most `chunk_size` bytes, one read each.
pub struct ToChunks<R> {
    pub reader: R,
    pub chunk_size: usize,
}

impl<R> ToChunks<R> {
    /// The chunked reader over `reader`.
    pub fn new(reader: R, chunk_size: usize) -> (r: Self)
        ensures
            r.reader == reader,
            r.chunk_size == chunk_size,
    {
        ToChunks { reader, chunk_size }
    }

    /// What to yield after one read into a buffer of `chunk_size` bytes: the
    /// bytes read, or the end when the read gave none or the input ended
    /// early, or the error.
    pub fn on_read(&self, outcome: ReadOutcome) -> (r: ChunkResult)
        requires
            outcome matches ReadOutcome::Read(n) ==> n <= self.chunk_size,
        ensures
            r == (match outcome {
                ReadOutcome::Read(n) => if n == 0 {
                    ChunkResult::End
                } else {
                    ChunkResult::Chunk(n)
                },
                ReadOutcome::UnexpectedEof => ChunkResult::End,
                ReadOutcome::Failed => ChunkResult::Error,
            }),
            r matches ChunkResult::Chunk(n) ==> 0 < n <= self.chunk_size,
    {
        match outcome {
            ReadOutcome::Read(n) => {
                if n == 0 {
                    ChunkResult::End
                } else {
                    ChunkResult::Chunk(n)
                }
            },
            ReadOutcome::UnexpectedEof => ChunkResult::End,
            ReadOutcome::Failed => ChunkResult::Error,
        }
    }
}

/// Turns a reader into its chunks.
pub trait IterChunks: Sized {
    type Output;

    fn iter_chunks(self, len: usize) -> Self::Output;
}

impl<R> IterChunks for R {
    type Output = ToChunks<R>;

    fn iter_chunks(self, len: usize) -> (r: ToChunks<R>)
        ensures
            r.reader == self,
            r.chunk_size == len,
    {
        ToChunks::new(self, len)
    }
}

} // verus!
