use friz::store::{Lines, CHUNK_SIZE};

fn numbers(from: usize, to: usize) -> Vec<String> {
    (from..to).map(|i| i.to_string()).collect()
}

#[test]
fn chunks_hold_twenty_thousand_lines() {
    assert_eq!(CHUNK_SIZE, 20_000);
}

#[test]
fn lines_are_found_across_chunks() {
    let mut lines = Lines::new();
    assert_eq!(lines.len(), 0);
    lines.push_chunk(numbers(0, CHUNK_SIZE));
    lines.push_chunk(numbers(CHUNK_SIZE, CHUNK_SIZE + 3));
    assert_eq!(lines.len(), CHUNK_SIZE + 3);
    assert_eq!(lines.chunks().len(), 2);
    for i in [0, 1, CHUNK_SIZE - 1, CHUNK_SIZE, CHUNK_SIZE + 2] {
        assert_eq!(lines.get(i), i.to_string());
    }
}

#[test]
fn a_snapshot_stays_as_it_is() {
    let mut lines = Lines::new();
    lines.push_chunk(numbers(0, CHUNK_SIZE));
    let before = lines.snapshot();
    lines.push_chunk(numbers(CHUNK_SIZE, CHUNK_SIZE + 1));
    assert_eq!(before.len(), CHUNK_SIZE);
    assert_eq!(lines.len(), CHUNK_SIZE + 1);
    assert_eq!(before.get(7), "7");
    assert!(std::sync::Arc::ptr_eq(&before.chunks()[0], &lines.chunks()[0]));
}
