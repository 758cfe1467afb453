use serial_session::reassembler::Reassembler;

fn feed(r: &mut Reassembler, chunk: &str) -> Vec<String> {
    r.feed(chunk.as_bytes())
        .into_iter()
        .map(|l| String::from_utf8(l).unwrap())
        .collect()
}

#[test]
fn line_split_across_two_feeds_is_one_line() {
    let mut r = Reassembler::new();
    assert!(feed(&mut r, "AB").is_empty());
    assert_eq!(r.pending(), b"AB");
    assert_eq!(feed(&mut r, "C\r\n"), vec!["ABC"]);
    assert_eq!(r.pending_len(), 0);
}

#[test]
fn two_delimiters_in_one_feed_give_two_lines_in_order() {
    let mut r = Reassembler::new();
    assert_eq!(feed(&mut r, "X\r\nY\r\n"), vec!["X", "Y"]);
}

#[test]
fn crlf_is_one_delimiter() {
    let mut r = Reassembler::new();
    assert_eq!(feed(&mut r, "X\r\n"), vec!["X"]);
    assert!(r.pending().is_empty());
}

#[test]
fn crlf_split_across_feeds_adds_no_line() {
    let mut r = Reassembler::new();
    assert_eq!(feed(&mut r, "X\r"), vec!["X"]);
    assert!(feed(&mut r, "\nY").is_empty());
    assert_eq!(r.pending(), b"Y");
}

#[test]
fn bare_cr_and_bare_lf_end_lines() {
    let mut r = Reassembler::new();
    assert_eq!(feed(&mut r, "A\rB\nC\n\rD"), vec!["A", "B", "C"]);
    assert_eq!(r.pending(), b"D");
}

#[test]
fn empty_lines_are_dropped() {
    let mut r = Reassembler::new();
    assert!(feed(&mut r, "\r\n\r\n  \t\r\n\n").is_empty());
    assert!(r.pending().is_empty());
}

#[test]
fn lines_are_trimmed() {
    let mut r = Reassembler::new();
    assert_eq!(feed(&mut r, "  temp = 21 \t\r\n"), vec!["temp = 21"]);
    assert_eq!(feed(&mut r, "\x0b\x0cok\x0b\n"), vec!["ok"]);
}

#[test]
fn inner_whitespace_is_kept() {
    let mut r = Reassembler::new();
    assert_eq!(feed(&mut r, "a  b\r\n"), vec!["a  b"]);
}

#[test]
fn empty_chunk_changes_nothing() {
    let mut r = Reassembler::new();
    assert!(feed(&mut r, "").is_empty());
    assert!(feed(&mut r, "par").is_empty());
    assert!(feed(&mut r, "").is_empty());
    assert_eq!(r.pending(), b"par");
}

#[test]
fn chunking_does_not_change_the_lines() {
    let stream = "OK\r\nTEMP 21.5\r\n\r\nHUM 40\nRDY\rtail";
    let mut whole = Reassembler::new();
    let expected = feed(&mut whole, stream);
    assert_eq!(expected, vec!["OK", "TEMP 21.5", "HUM 40", "RDY"]);
    for size in 1..stream.len() {
        let mut r = Reassembler::new();
        let mut got = Vec::new();
        for chunk in stream.as_bytes().chunks(size) {
            got.extend(feed(&mut r, std::str::from_utf8(chunk).unwrap()));
        }
        assert_eq!(got, expected);
        assert_eq!(r.pending(), b"tail");
    }
}

#[test]
fn non_text_bytes_pass_through() {
    let mut r = Reassembler::new();
    let lines = r.feed(&[0xff, 0x00, 0x41, 13, 10]);
    assert_eq!(lines, vec![vec![0xff, 0x00, 0x41]]);
}
