use optparse::tail::{last_lines_joined, scan_chunk};

fn lines(xs: &[&str]) -> Vec<String> {
    xs.iter().map(|s| s.to_string()).collect()
}

#[test]
fn scan_chunk_counts_line_feeds_from_the_back() {
    // bytes: a \n b \n c ; scanning all five from the back for 2 lines
    let buf = b"a\nb\nc";
    let (lc, pos, done) = scan_chunk(buf, 5, 2, 0, 100);
    assert_eq!(lc, 2);
    // one byte scanned before the first feed, then two more to the second
    assert_eq!(pos, 100 - 3);
    assert!(done);
}

#[test]
fn scan_chunk_stops_at_position_zero() {
    let buf = b"abcd";
    let (lc, pos, done) = scan_chunk(buf, 4, 5, 0, 3);
    assert_eq!(lc, 0);
    assert_eq!(pos, 0);
    assert!(done);
}

#[test]
fn scan_chunk_exhausts_buffer_without_finding_enough() {
    let buf = b"ab\ncd";
    let (lc, pos, done) = scan_chunk(buf, 5, 9, 0, 50);
    assert_eq!(lc, 1);
    assert_eq!(pos, 45);
    assert!(!done);
}

#[test]
fn scan_chunk_empty_buffer_is_a_no_op() {
    let buf: &[u8] = b"";
    let (lc, pos, done) = scan_chunk(buf, 0, 3, 7, 0);
    assert_eq!(lc, 7);
    assert_eq!(pos, 0);
    assert!(!done);
}

#[test]
fn last_lines_takes_the_tail() {
    let ls = lines(&["one", "two", "three", "four"]);
    assert_eq!(last_lines_joined(&ls, 2), "three\nfour\n");
}

#[test]
fn last_lines_takes_all_when_fewer() {
    let ls = lines(&["one", "two"]);
    assert_eq!(last_lines_joined(&ls, 10), "one\ntwo\n");
}

#[test]
fn last_lines_of_nothing_is_empty() {
    let ls = lines(&[]);
    assert_eq!(last_lines_joined(&ls, 3), "");
}

#[test]
fn last_lines_zero_count_is_empty() {
    let ls = lines(&["one", "two"]);
    assert_eq!(last_lines_joined(&ls, 0), "");
}
