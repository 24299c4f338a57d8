//! A reader split into chunks that fills each chunk with as many reads as it
//! takes: the state kept between reads and the decisions taken on it.

use crate::io_controller::ReadOutcome;
use vstd::prelude::*;

verus! {

/// What the last read into the current chunk gave.
#[derive(Debug, Clone, Copy, PartialEq, Eq)]
pub enum LastRead {
    /// No read yet, or the last read found the end of input.
    Nothing,
    /// The last read added bytes.
    Data,
    /// The last read failed.
    Error,
}

/// The state of the chunk being filled.
#[derive(Debug, Clone, Copy, PartialEq, Eq)]
pub struct FillState {
    /// Bytes of the chunk filled so far.
    pub bytes_read: usize,
    /// Whether a read found the end of input.
    pub eof: bool,
    /// What the last read gave.
    pub last: LastRead,
}

/// What to do next for the chunk being filled.
#[derive(Debug, Clone, Copy, PartialEq, Eq)]
pub enum FillAction {
    /// Read into the chunk buffer from this position on.
    Read(usize),
    /// Yield the first this many bytes of the buffer.
    Yield(usize),
    /// Yield no more chunks.
    End,
    /// Yield the last read's error.
    Error,
}

/// Splits `reader` into chunks of `chunk_size` bytes (the last may be
/// shorter), reading until each chunk is full or the input ends.
pub struct ToChunks<R> {
    pub reader: R,
    pub chunk_size: usize,
}

/// The action for state `st` of a chunk of `chunk_size` bytes.
pub open spec fn spec_next_action(chunk_size: usize, st: FillState) -> FillAction {
    if st.bytes_read != chunk_size && !st.eof {
        FillAction::Read(st.bytes_read)
    } else if st.bytes_read > 0 {
        FillAction::Yield(st.bytes_read)
    } else {
        match st.last {
            LastRead::Nothing => FillAction::End,
            LastRead::Data => FillAction::Yield(st.bytes_read),
            LastRead::Error => FillAction::Error,
        }
    }
}

/// The state after a read with outcome `outcome`: bytes are added, a read of
/// none marks the end of input, and an error is remembered while reading
/// goes on.
pub open spec fn spec_after_read(st: FillState, outcome: ReadOutcome) -> FillState {
    match outcome {
        ReadOutcome::Read(n) => if n == 0 {
            FillState { eof: true, last: LastRead::Nothing, ..st }
        } else {
            FillState { bytes_read: (st.bytes_read + n) as usize, last: LastRead::Data, ..st }
        },
        ReadOutcome::UnexpectedEof => FillState { last: LastRead::Nothing, ..st },
        ReadOutcome::Failed => FillState { last: LastRead::Error, ..st },
    }
}

/// The states that filling a chunk of `chunk_size` bytes can reach: never
/// more bytes than the chunk holds; bytes behind a `Data` read; and an error
/// only while more reads are due.
pub open spec fn fill_inv(chunk_size: usize, st: FillState) -> bool {
    &&& st.bytes_read <= chunk_size
    &&& (st.last == LastRead::Data ==> st.bytes_read > 0)
    &&& (st.last == LastRead::Error ==> st.bytes_read != chunk_size && !st.eof)
}

impl<R> ToChunks<R> {
    /// The chunked reader over `reader`.
    pub fn new(reader: R, chunk_size: usize) -> (r: Self)
        ensures
            r.reader == reader,
            r.chunk_size == chunk_size,
    {
        ToChunks { reader, chunk_size }
    }

    /// The state before the first read of a chunk.
    pub fn start(&self) -> (st: FillState)
        ensures
            st == (FillState { bytes_read: 0, eof: false, last: LastRead::Nothing }),
            fill_inv(self.chunk_size, st),
    {
        FillState { bytes_read: 0, eof: false, last: LastRead::Nothing }
    }

    /// What to do in state `st`: read while the chunk is neither full nor at
    /// the end of input; then yield the bytes read if there are any, else
    /// end (or yield the last error).
    pub fn next_action(&self, st: &FillState) -> (a: FillAction)
        ensures
            a == spec_next_action(self.chunk_size, *st),
            fill_inv(self.chunk_size, *st) ==> match a {
                FillAction::Read(from) => from < self.chunk_size,
                FillAction::Yield(n) => 0 < n <= self.chunk_size && (n < self.chunk_size
                    ==> st.eof),
                FillAction::End => true,
                FillAction::Error => false,
            },
    {
        if st.bytes_read != self.chunk_size && !st.eof {
            FillAction::Read(st.bytes_read)
        } else if st.bytes_read > 0 {
            FillAction::Yield(st.bytes_read)
        } else {
            match st.last {
                LastRead::Nothing => FillAction::End,
                LastRead::Data => FillAction::Yield(st.bytes_read),
                LastRead::Error => FillAction::Error,
            }
        }
    }

    /// The state after a read into the rest of the chunk buffer, which holds
    /// `chunk_size - bytes_read` bytes and so bounds what a read gives.
    pub fn after_read(&self, st: FillState, outcome: ReadOutcome) -> (next: FillState)
        requires
            st.bytes_read <= self.chunk_size,
            outcome matches ReadOutcome::Read(n) ==> n <= self.chunk_size - st.bytes_read,
        ensures
            next == spec_after_read(st, outcome),
            fill_inv(self.chunk_size, st) && spec_next_action(self.chunk_size, st) is Read
                ==> fill_inv(self.chunk_size, next),
    {
        match outcome {
            ReadOutcome::Read(n) => {
                if n == 0 {
                    FillState { eof: true, last: LastRead::Nothing, ..st }
                } else {
                    FillState { bytes_read: st.bytes_read + n, last: LastRead::Data, ..st }
                }
            },
            ReadOutcome::UnexpectedEof => FillState { last: LastRead::Nothing, ..st },
            ReadOutcome::Failed => FillState { last: LastRead::Error, ..st },
        }
    }
}

/// Turns a reader into its chunks.
pub trait IterChunks: Sized {
    type Output;

    fn iter_chunks(self, len: usize) -> Self::Output;
}

impl<R> IterChunks for R {
    type Output = ToChunks<R>;

    fn iter_chunks(self, len: usize) -> (r: ToChunks<R>)
        ensures
            r.reader == self,
            r.chunk_size == len,
    {
        ToChunks::new(self, len)
    }
}

/// Whether `outcome` is a possible read into the rest of the buffer in
/// state `st`.
pub open spec fn outcome_fits(chunk_size: usize, st: FillState, outcome: ReadOutcome) -> bool {
    outcome matches ReadOutcome::Read(n) ==> n <= chunk_size - st.bytes_read
}

/// The state after feeding `outcomes` in order to the filling of one chunk,
/// as long as it asks for reads and each outcome is a possible read.
pub open spec fn fill_run(chunk_size: usize, outcomes: Seq<ReadOutcome>) -> FillState
    decreases outcomes.len(),
{
    if outcomes.len() == 0 {
        FillState { bytes_read: 0, eof: false, last: LastRead::Nothing }
    } else {
        let st = fill_run(chunk_size, outcomes.drop_last());
        if spec_next_action(chunk_size, st) is Read && outcome_fits(
            chunk_size,
            st,
            outcomes.last(),
        ) {
            spec_after_read(st, outcomes.last())
        } else {
            st
        }
    }
}

/// However the reads go, filling a chunk never yields an error (a failed read
/// is retried), never holds more than `chunk_size` bytes, and yields a short
/// chunk only at the end of input.
pub proof fn lemma_fill_never_errors(chunk_size: usize, outcomes: Seq<ReadOutcome>)
    ensures
        fill_inv(chunk_size, fill_run(chunk_size, outcomes)),
        spec_next_action(chunk_size, fill_run(chunk_size, outcomes)) != FillAction::Error,
        spec_next_action(chunk_size, fill_run(chunk_size, outcomes)) matches FillAction::Yield(n)
            ==> 0 < n <= chunk_size && (n < chunk_size ==> fill_run(chunk_size, outcomes).eof),
    decreases outcomes.len(),
{
    if outcomes.len() > 0 {
        lemma_fill_never_errors(chunk_size, outcomes.drop_last());
    }
}

/// Reads fill the chunk buffer front to back without gaps or overlaps: the
/// first read goes to position 0, each read goes to the position where the
/// bytes read so far end, and after a read of `n > 0` bytes the next read
/// (if any) goes `n` positions further on; a read of `n` bytes adds exactly
/// `n` to the bytes of the chunk.
pub proof fn lemma_reads_are_contiguous(
    chunk_size: usize,
    st: FillState,
    outcome: ReadOutcome,
    from: usize,
)
    requires
        fill_inv(chunk_size, st),
        spec_next_action(chunk_size, st) == FillAction::Read(from),
        outcome_fits(chunk_size, st, outcome),
    ensures
        spec_next_action(
            chunk_size,
            FillState { bytes_read: 0, eof: false, last: LastRead::Nothing },
        ) == (if chunk_size == 0 {
            FillAction::End
        } else {
            FillAction::Read(0)
        }),
        from == st.bytes_read,
        outcome matches ReadOutcome::Read(n) ==> spec_after_read(st, outcome).bytes_read
            == from + n,
        !(outcome is Read) ==> spec_after_read(st, outcome).bytes_read == from,
        outcome matches ReadOutcome::Read(n) ==> (n > 0 && spec_next_action(
            chunk_size,
            spec_after_read(st, outcome),
        ) is Read ==> spec_next_action(chunk_size, spec_after_read(st, outcome))
            == FillAction::Read((from + n) as usize)),
        st.bytes_read < chunk_size && !st.eof,
{
}

} // verus!
