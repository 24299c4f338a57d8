use compressors::io_controller::{self, ChunkResult, ReadOutcome};
use compressors::readfile::{self, FillAction, FillState, IterChunks, LastRead};

#[test]
fn single_read_chunks() {
    let tc = io_controller::ToChunks::new((), 8);
    assert_eq!(tc.on_read(ReadOutcome::Read(5)), ChunkResult::Chunk(5));
    assert_eq!(tc.on_read(ReadOutcome::Read(0)), ChunkResult::End);
    assert_eq!(tc.on_read(ReadOutcome::UnexpectedEof), ChunkResult::End);
    assert_eq!(tc.on_read(ReadOutcome::Failed), ChunkResult::Error);
}

#[test]
fn iter_chunks_keeps_size() {
    let tc = "reader".iter_chunks(16);
    assert_eq!(tc.chunk_size, 16);
    assert_eq!(tc.reader, "reader");
}

fn run(chunk: usize, outcomes: &[ReadOutcome]) -> FillAction {
    let tc = readfile::ToChunks::new((), chunk);
    let mut st = tc.start();
    let mut i = 0;
    loop {
        match tc.next_action(&st) {
            FillAction::Read(_) => {
                st = tc.after_read(st, outcomes[i]);
                i += 1;
            }
            other => return other,
        }
    }
}

#[test]
fn fills_chunk_over_several_reads() {
    assert_eq!(run(4, &[ReadOutcome::Read(3), ReadOutcome::Read(1)]), FillAction::Yield(4));
}

#[test]
fn short_chunk_at_end_of_input() {
    assert_eq!(run(4, &[ReadOutcome::Read(2), ReadOutcome::Read(0)]), FillAction::Yield(2));
}

#[test]
fn failed_read_is_retried() {
    assert_eq!(
        run(4, &[ReadOutcome::Failed, ReadOutcome::UnexpectedEof, ReadOutcome::Read(4)]),
        FillAction::Yield(4)
    );
}

#[test]
fn end_of_input_without_bytes_ends() {
    assert_eq!(run(4, &[ReadOutcome::Read(0)]), FillAction::End);
    assert_eq!(run(0, &[]), FillAction::End);
}

#[test]
fn state_after_failed_read_remembers_error() {
    let tc = readfile::ToChunks::new((), 4);
    let st = tc.after_read(tc.start(), ReadOutcome::Failed);
    assert_eq!(st, FillState { bytes_read: 0, eof: false, last: LastRead::Error });
    assert_eq!(tc.next_action(&st), FillAction::Read(0));
}
