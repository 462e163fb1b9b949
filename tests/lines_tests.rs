use html_table::lines::split_lines;

#[test]
fn lines_are_cut_at_line_feeds() {
    assert_eq!(split_lines("a b\nc\n\nd"), vec!["a b", "c", "", "d"]);
}

#[test]
fn final_line_feed_starts_no_line() {
    assert_eq!(split_lines("a\n"), vec!["a"]);
    assert_eq!(split_lines("\n"), vec![""]);
}

#[test]
fn empty_text_has_no_line() {
    assert!(split_lines("").is_empty());
}

#[test]
fn trailing_carriage_return_is_dropped() {
    assert_eq!(split_lines("a\r\nb\r\n"), vec!["a", "b"]);
    assert_eq!(split_lines("x\ry\r"), vec!["x\ry"]);
}
