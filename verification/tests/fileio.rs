use secure_transfer::config::CHUNK_SIZE;
use secure_transfer::fileio::{chunk_count, chunk_offset, ChunkCutter};
use secure_transfer::pipeline::DecryptedChunk;
use secure_transfer::writer::{ReorderBuffer, WriteAction, WRITE_PROGRESS_STEP};

fn chunk(chunk_id: u32, data: &[u8]) -> DecryptedChunk {
    DecryptedChunk { chunk_id, data: data.to_vec() }
}

fn written(actions: &[WriteAction]) -> Vec<u8> {
    let mut bytes = Vec::new();
    for action in actions {
        if let WriteAction::Write(data) = action {
            bytes.extend_from_slice(data);
        }
    }
    bytes
}

#[test]
fn numbers_of_chunks() {
    assert_eq!(chunk_count(0), 0);
    assert_eq!(chunk_count(1), 1);
    assert_eq!(chunk_count(1400), 1);
    assert_eq!(chunk_count(1401), 2);
    assert_eq!(chunk_count(1400 * 0xffff_ffff), 0xffff_ffff);
    assert_eq!(chunk_count(1400 * 0xffff_ffff + 1), 0);
    assert_eq!(chunk_count(u64::MAX), (u64::MAX / 1400 + 1) as u32);
}

#[test]
fn offsets_of_chunks() {
    assert_eq!(chunk_offset(0), 0);
    assert_eq!(chunk_offset(3), 4200);
    assert_eq!(chunk_offset(u32::MAX), u32::MAX as u64 * CHUNK_SIZE as u64);
}

#[test]
fn cutter_numbers_chunks_and_stops_at_the_end() {
    let mut cutter = ChunkCutter::new();
    let first = cutter.next_chunk(vec![1, 2, 3, 0, 0], 3).unwrap();
    assert_eq!(first.chunk_id, 0);
    assert_eq!(first.data, vec![1, 2, 3]);
    let second = cutter.next_chunk(vec![4, 5], 2).unwrap();
    assert_eq!(second.chunk_id, 1);
    assert_eq!(second.data, vec![4, 5]);
    assert!(cutter.next_chunk(vec![0; 5], 0).is_none());
    assert_eq!(cutter.next_id(), 2);
}

#[test]
fn chunks_are_written_in_order() {
    let mut buffer = ReorderBuffer::new(4);
    let mut actions = Vec::new();
    buffer.accept(chunk(2, &[5, 6]), &mut actions).unwrap();
    buffer.accept(chunk(1, &[3, 4]), &mut actions).unwrap();
    assert!(actions.is_empty());
    assert!(!buffer.is_done());
    buffer.accept(chunk(0, &[1, 2]), &mut actions).unwrap();
    assert_eq!(written(&actions), vec![1, 2, 3, 4, 5, 6]);
    assert_eq!(actions.len(), 3);
    assert_eq!(buffer.bytes(), 6);
    assert_eq!(buffer.chunks_written(), 3);
    assert!(!buffer.is_done());
    buffer.accept(chunk(3, &[7]), &mut actions).unwrap();
    assert!(buffer.is_done());
    assert_eq!(written(&actions), vec![1, 2, 3, 4, 5, 6, 7]);
}

#[test]
fn chunks_that_come_again_are_not_written_again() {
    let mut buffer = ReorderBuffer::new(2);
    let mut actions = Vec::new();
    for id in [0, 0, 1, 0, 1] {
        buffer.accept(chunk(id, &[id as u8]), &mut actions).unwrap();
    }
    assert_eq!(written(&actions), vec![0, 1]);
    assert_eq!(buffer.chunks_written(), 2);
}

#[test]
fn any_order_of_chunks_gives_the_file() {
    let file: Vec<u8> = (0..20 * CHUNK_SIZE + 17).map(|i| (i % 251) as u8).collect();
    let pieces: Vec<&[u8]> = file.chunks(CHUNK_SIZE).collect();
    assert_eq!(pieces.len() as u32, chunk_count(file.len() as u64));
    for step in [1usize, 2, 5, 8, 13] {
        let mut buffer = ReorderBuffer::new(pieces.len() as u32);
        let mut actions = Vec::new();
        for k in 0..pieces.len() {
            let id = (k * step) % pieces.len();
            buffer.accept(chunk(id as u32, pieces[id]), &mut actions).unwrap();
        }
        assert!(buffer.is_done());
        assert_eq!(written(&actions), file);
        assert_eq!(buffer.bytes(), file.len() as u64);
    }
}

#[test]
fn progress_is_reported_behind_the_step() {
    let piece = vec![0u8; 1 << 20];
    let pieces = (WRITE_PROGRESS_STEP >> 20) as u32;
    let mut buffer = ReorderBuffer::new(2 * pieces);
    for id in 0..pieces - 1 {
        let mut actions = Vec::new();
        buffer.accept(chunk(id, &piece), &mut actions).unwrap();
        assert_eq!(actions.len(), 1);
    }
    let mut actions = Vec::new();
    buffer.accept(chunk(pieces - 1, &piece), &mut actions).unwrap();
    assert_eq!(actions.len(), 2);
    assert!(matches!(actions[0], WriteAction::Write(_)));
    assert!(matches!(actions[1], WriteAction::Progress(n) if n == WRITE_PROGRESS_STEP));
    actions.clear();
    buffer.accept(chunk(pieces, &piece), &mut actions).unwrap();
    assert_eq!(actions.len(), 1);
}

#[test]
fn a_file_of_no_chunks_is_done_at_once() {
    assert!(ReorderBuffer::new(0).is_done());
}
