use friz::reader::{strip_line, Batch};
use friz::store::CHUNK_SIZE;

#[test]
fn line_ends_are_taken_off() {
    for (raw, line) in [
        ("abc\n", "abc"),
        ("abc\r\n", "abc"),
        ("abc\r", "abc"),
        ("abc", "abc"),
        ("abc\r\r\n", "abc\r"),
        ("abc\n\n", "abc\n"),
        ("abc\n\r", "abc\n"),
        ("\n", ""),
        ("", ""),
        ("\u{e9}\u{4e2d}\n", "\u{e9}\u{4e2d}"),
    ] {
        assert_eq!(strip_line(raw.to_string()), line);
    }
}

#[test]
fn a_short_input_is_one_chunk() {
    let mut batch = Batch::new();
    assert_eq!(batch.take_line("a\n".to_string()), None);
    assert_eq!(batch.take_line("b".to_string()), None);
    assert_eq!(batch.finish(), Some(vec!["a".to_string(), "b".to_string()]));
}

#[test]
fn an_empty_input_is_no_chunk() {
    assert_eq!(Batch::new().finish(), None);
}

#[test]
fn full_chunks_are_given_out_as_they_fill() {
    let mut batch = Batch::new();
    let mut chunks: Vec<Vec<String>> = Vec::new();
    for i in 0..2 * CHUNK_SIZE + 1 {
        if let Some(chunk) = batch.take_line(format!("{}\n", i)) {
            assert_eq!((i + 1) % CHUNK_SIZE, 0);
            chunks.push(chunk);
        }
    }
    assert_eq!(chunks.len(), 2);
    assert!(chunks.iter().all(|chunk| chunk.len() == CHUNK_SIZE));
    chunks.extend(batch.finish());
    let lines: Vec<String> = chunks.concat();
    assert_eq!(lines.len(), 2 * CHUNK_SIZE + 1);
    assert!(lines.iter().enumerate().all(|(i, line)| *line == i.to_string()));
}
