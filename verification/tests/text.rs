use mitos::chars::{char_is_word, count_leading_whitespace, count_trailing_whitespace};
use mitos::range::{Direction, Range};
use mitos::strings::{
    from_chars, is_before, parse_usize, sorted_distinct, to_chars, to_decimal, to_hex, to_lowered,
};
use mitos::text::{LineEnding, Text};
use mitos::transaction::{delete, repeat};

fn chars(s: &str) -> Vec<char> {
    s.chars().collect()
}

fn text(s: &str) -> Text {
    Text::from_chars(chars(s))
}

#[test]
fn lines_are_counted() {
    let text = text("ab\r\nc\n");
    assert_eq!(text.len_lines(), 3);
    assert_eq!(text.char_to_line(3), 0);
    assert_eq!(text.char_to_line(4), 1);
    assert_eq!(text.line_to_char(1), 4);
    assert_eq!(text.line_to_char(2), 6);
    assert_eq!(text.line_end_char_index(0), 2);
    assert_eq!(text.line_end_char_index(1), 5);
    assert_eq!(text.line_end_char_index(2), 6);
    assert_eq!(LineEnding::Crlf.as_chars(), ['\r', '\n']);
    assert_eq!(LineEnding::LF.len_chars(), 1);
}

#[test]
fn steps_go_over_clusters() {
    let text = Text::new(chars("ae\u{301}b"), vec![0, 1, 3, 4]).unwrap();
    assert_eq!(text.next_grapheme_boundary(1), 3);
    assert_eq!(text.prev_grapheme_boundary(3), 1);
    assert_eq!(text.next_grapheme_boundary(4), 4);
    assert_eq!(text.prev_grapheme_boundary(0), 0);
    assert_eq!(text.nth_next_grapheme_boundary(0, 2), 3);
    assert_eq!(text.nth_prev_grapheme_boundary(4, 2), 1);
    assert_eq!(text.ensure_grapheme_boundary_next(2), 3);
    assert_eq!(text.ensure_grapheme_boundary_prev(2), 1);
    assert!(text.is_grapheme_boundary(3) && !text.is_grapheme_boundary(2));
    assert_eq!(text.slice(1, 3), ['e', '\u{301}']);
}

#[test]
fn ranges_have_a_cursor() {
    let text = text("abcd");
    assert_eq!(Range::new(0, 3).cursor(&text), 2);
    assert_eq!(Range::new(3, 1).cursor(&text), 1);
    assert_eq!(Range::new(0, 2).put_cursor(&text, 3, true), Range::new(0, 4));
    assert_eq!(Range::new(2, 3).put_cursor(&text, 0, true), Range::new(3, 0));
    assert_eq!(Range::new(2, 3).put_cursor(&text, 0, false), Range::point(0));
    assert_eq!(Range::new(3, 1).flip().flip(), Range::new(3, 1));
    assert_eq!(Range::new(3, 1).direction(), Direction::Backward);
    assert_eq!(Range::new(1, 3).merge(&Range::new(2, 5)), Range::new(1, 5));
    assert_eq!(Range::point(2).min_width_1(&text), Range::new(2, 3));
    assert!(Range::new(0, 2).overlaps(&Range::new(1, 3)));
    assert!(!Range::new(0, 2).overlaps(&Range::new(2, 3)));
}

#[test]
fn numbers_are_written_and_read() {
    for n in [0, 7, 10, usize::MAX] {
        assert_eq!(parse_usize(&chars(&to_decimal(n))), Some(n));
    }
    assert_eq!(parse_usize(&chars("")), None);
    assert_eq!(parse_usize(&chars("1a")), None);
    assert_eq!(parse_usize(&chars("99999999999999999999999")), None);
    assert_eq!(to_hex(0xe9, 4), chars("00e9"));
    assert_eq!(to_hex(0x1f600, 4), chars("1f600"));
}

#[test]
fn texts_are_ordered() {
    assert!(is_before(&chars("a"), &chars("ab")));
    assert!(is_before(&chars("ab"), &chars("b")));
    assert!(!is_before(&chars("b"), &chars("b")));
    let parts = vec![chars("b"), chars("a"), chars("b")];
    assert_eq!(sorted_distinct(&parts, 9), [chars("a"), chars("b")]);
    assert_eq!(sorted_distinct(&parts, 1), [chars("b")]);
    assert_eq!(from_chars(&to_chars("héllo")), "héllo");
    assert_eq!(to_lowered(&chars("AbC")), chars("abc"));
    assert_eq!(repeat(&chars("ab"), 2), chars("abab"));
}

#[test]
fn whitespace_is_that_of_unicode() {
    let s = chars(" \u{a0}\ta\u{3000} ");
    assert_eq!(count_leading_whitespace(&s, 0, 6), 3);
    assert_eq!(count_trailing_whitespace(&s, 0, 6), 2);
    assert!(char_is_word('_') && char_is_word('é') && !char_is_word('-'));
}

#[test]
fn overlapping_deletions_are_made_once() {
    let changes = delete(&vec![(0, 3), (2, 5), (7, 8)], 9);
    let spans: Vec<(usize, usize)> = changes.iter().map(|c| (c.from, c.to)).collect();
    assert_eq!(spans, [(0, 3), (3, 5), (7, 8)]);
}
