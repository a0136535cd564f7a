use sqe_core::block::{parse_block, read_brace_block, BlockError, LineCursor};

fn cursor(lines: &[&str]) -> LineCursor {
    LineCursor::new(lines.iter().map(|s| s.to_string()).collect())
}

#[test]
fn block_on_one_line() {
    let mut c = cursor(&["next line"]);
    let r = read_brace_block(&mut c, " a {b} c} rest");
    assert_eq!(r, Ok(" a {b} c".to_string()));
    assert_eq!(c.pos, 0);
}

#[test]
fn block_over_several_lines() {
    let mut c = cursor(&["  first", "  { inner }", "}", "after"]);
    let r = read_brace_block(&mut c, "");
    assert_eq!(r, Ok("  first\n  { inner }\n".to_string()));
    assert_eq!(c.pos, 3);
}

#[test]
fn block_rest_of_opening_line_gets_a_line_break() {
    let mut c = cursor(&["b", "}"]);
    let r = read_brace_block(&mut c, "a");
    assert_eq!(r, Ok("a\nb\n".to_string()));
    assert_eq!(c.pos, 2);
}

#[test]
fn block_ignores_braces_in_strings() {
    let mut c = cursor(&[]);
    let r = read_brace_block(&mut c, r#"x = "}" + '{' + `}`; } tail"#);
    assert_eq!(r, Ok(r#"x = "}" + '{' + `}`; "#.to_string()));
}

#[test]
fn block_nested_quotes_of_other_kinds_do_not_close() {
    let mut c = cursor(&[]);
    let r = read_brace_block(&mut c, r#"s = "it's }" }"#);
    assert_eq!(r, Ok(r#"s = "it's }" "#.to_string()));
}

#[test]
fn block_escape_keeps_next_character() {
    let mut c = cursor(&[]);
    let r = read_brace_block(&mut c, r#"a \} b \" } c"#);
    assert_eq!(r, Ok(r#"a \} b \" "#.to_string()));
}

#[test]
fn block_escape_carries_over_line_end() {
    let mut c = cursor(&["}x", "}"]);
    let r = read_brace_block(&mut c, "a\\");
    assert_eq!(r, Ok("a\\\n}x\n".to_string()));
    assert_eq!(c.pos, 2);
}

#[test]
fn block_unterminated() {
    let mut c = cursor(&["{", "}"]);
    let r = read_brace_block(&mut c, "abc");
    assert_eq!(r, Err(BlockError::UnterminatedBlock));
    assert_eq!(c.pos, 2);
}

#[test]
fn block_unterminated_with_no_lines_left() {
    let mut c = cursor(&[]);
    assert_eq!(read_brace_block(&mut c, ""), Err(BlockError::UnterminatedBlock));
    assert_eq!(c.pos, 0);
}

#[test]
fn block_non_ascii_text() {
    let mut c = cursor(&["Frage — ja}"]);
    let r = read_brace_block(&mut c, "ä");
    assert_eq!(r, Ok("ä\nFrage — ja".to_string()));
}

#[test]
fn block_round_trip_plain_balanced() {
    for b in ["", "x", "{}", "a {b {c} d} e", "{}{}"] {
        let first = format!("{}}}tail }}}}", b);
        let mut c = cursor(&["unread"]);
        assert_eq!(read_brace_block(&mut c, &first), Ok(b.to_string()));
        assert_eq!(c.pos, 0);
    }
}

#[test]
fn parse_block_stops_at_marker() {
    let mut c = cursor(&["one", "two", "three END four", "five"]);
    let r = parse_block(&mut c, "END");
    assert_eq!(r, "one\ntwo\nthree \n");
    assert_eq!(c.pos, 3);
}

#[test]
fn parse_block_blank_before_marker_is_dropped() {
    let mut c = cursor(&["one", "   END", "x"]);
    assert_eq!(parse_block(&mut c, "END"), "one\n");
    assert_eq!(c.pos, 2);
}

#[test]
fn parse_block_without_marker_reads_all() {
    let mut c = cursor(&["a", "b"]);
    assert_eq!(parse_block(&mut c, "END"), "a\nb\n");
    assert_eq!(c.pos, 2);
}

#[test]
fn parse_block_empty_marker_matches_first_line() {
    let mut c = cursor(&["a", "b"]);
    assert_eq!(parse_block(&mut c, ""), "");
    assert_eq!(c.pos, 1);
}

#[test]
fn cursor_next_line() {
    let mut c = cursor(&["ab"]);
    assert_eq!(c.next_line(), Some(vec!['a', 'b']));
    assert_eq!(c.next_line(), None);
    assert_eq!(c.pos, 1);
}

#[test]
fn block_quoted_string_with_braces_round_trip() {
    let mut c = cursor(&["unread"]);
    let r = read_brace_block(&mut c, "\"a}{'b`c\"} tail");
    assert_eq!(r, Ok("\"a}{'b`c\"".to_string()));
    assert_eq!(c.pos, 0);
}

#[test]
fn block_balanced_by_scanner_count() {
    let mut c = cursor(&["  {y} '}' \\}", "}"]);
    let r = read_brace_block(&mut c, "x \\{ \"{\"");
    assert_eq!(r, Ok("x \\{ \"{\"\n  {y} '}' \\}\n".to_string()));
    assert_eq!(c.pos, 2);
}
