use logban::next_line;
use logban::search::{contains, find_from, matches_at};
use std::io::BufRead;

fn lines_of(data: &[u8]) -> Vec<Vec<u8>> {
    let mut lines = Vec::new();
    let mut start = 0;
    while let Some((line, next)) = next_line(data, start) {
        assert!(start < next && next <= data.len());
        lines.push(line.to_vec());
        start = next;
    }
    assert_eq!(start, data.len());
    lines
}

fn split_on_newlines(data: &[u8]) -> Vec<Vec<u8>> {
    BufRead::split(data, b'\n').map(|line| line.unwrap()).collect()
}

#[test]
fn lines_end_at_newlines() {
    let data = b"a\nbc\n\nrest";
    let (line, next) = next_line(data, 0).unwrap();
    assert_eq!(line, b"a");
    assert_eq!(next, 2);
    let (line, next) = next_line(data, next).unwrap();
    assert_eq!(line, b"bc");
    assert_eq!(next, 5);
    let (line, next) = next_line(data, next).unwrap();
    assert_eq!(line, b"");
    assert_eq!(next, 6);
    let (line, next) = next_line(data, next).unwrap();
    assert_eq!(line, b"rest");
    assert_eq!(next, 10);
    assert!(next_line(data, next).is_none());
    assert!(next_line(data, data.len()).is_none());
}

#[test]
fn the_last_line_needs_no_newline() {
    assert_eq!(lines_of(b"a\nb"), vec![b"a".to_vec(), b"b".to_vec()]);
    assert_eq!(lines_of(b"a\nb\n"), vec![b"a".to_vec(), b"b".to_vec()]);
    assert_eq!(lines_of(b"a"), vec![b"a".to_vec()]);
    assert_eq!(lines_of(b""), Vec::<Vec<u8>>::new());
    assert_eq!(lines_of(b"\n"), vec![b"".to_vec()]);
    assert_eq!(lines_of(b"\n\n"), vec![b"".to_vec(), b"".to_vec()]);
}

#[test]
fn a_buffer_gives_the_lines_that_a_buffered_reader_gives() {
    let samples: [&[u8]; 9] = [
        b"",
        b"a",
        b"a\n",
        b"a\nb",
        b"a\nb\n",
        b"\n",
        b"\n\n",
        b"\nx",
        b"1.1.1.1 - - [d:00:00:01 z]\r\n2.2.2.2 - - [d:00:00:02 z]",
    ];
    for data in samples {
        assert_eq!(lines_of(data), split_on_newlines(data));
    }
}

#[test]
fn find_from_gives_the_first_index_at_or_after_the_start() {
    let line = b"ab ab ab";
    assert_eq!(find_from(line, b' ', 0), Some(2));
    assert_eq!(find_from(line, b' ', 2), Some(2));
    assert_eq!(find_from(line, b' ', 3), Some(5));
    assert_eq!(find_from(line, b' ', 6), None);
    assert_eq!(find_from(line, b'b', 8), None);
}

#[test]
fn contains_finds_a_string_anywhere() {
    assert!(contains(b"hello world", b"hello"));
    assert!(contains(b"hello world", b"o w"));
    assert!(contains(b"hello world", b"world"));
    assert!(contains(b"hello world", b""));
    assert!(contains(b"", b""));
    assert!(!contains(b"hello world", b"worlds"));
    assert!(!contains(b"hello", b"hello world"));
    assert!(!contains(b"aab", b"aba"));
    assert!(matches_at(b"abc", b"bc", 1));
    assert!(!matches_at(b"abc", b"bc", 0));
}
