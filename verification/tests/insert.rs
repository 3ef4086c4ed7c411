use mitos::commands::insert::{
    count_bytes, insert_newline, open, open_above, open_below, CommentContinuation, Continuation,
    NewlineStyle, Open, OpenStyle,
};
use mitos::commands::insert_delete::{
    dedent, delete_by_selection_insert_mode, delete_char_backward, delete_char_forward,
    delete_word_backward, delete_word_forward, kill_to_line_end, kill_to_line_start,
};
use mitos::commands::insert_text::{
    add_newline_above, add_newline_below, continued_line_comment_token, insert_at_line_end,
    insert_at_line_start, insert_char, insert_selection_interactive, insert_tab, smart_tab,
    IndentStyle, Interactive, Key, KeyCode, TabAction,
};
use mitos::range::{Direction, Range};
use mitos::selection::Selection;
use mitos::text::{LineEnding, Text};
use mitos::transaction::{apply, Change, Transaction};

fn chars(s: &str) -> Vec<char> {
    s.chars().collect()
}

fn text(s: &str) -> Text {
    Text::from_chars(chars(s))
}

fn after(text: &Text, changes: &Vec<Change>) -> String {
    apply(&text.chars, changes).into_iter().collect()
}

fn done(text: &Text, t: &Transaction) -> String {
    after(text, &t.changes)
}

fn newline_style() -> NewlineStyle {
    NewlineStyle {
        line_ending: LineEnding::LF,
        unit: chars("    "),
        pairs: vec![('{', '}')],
        continue_comments: true,
    }
}

fn plain(indent: &str) -> Vec<Continuation> {
    vec![Continuation { token: None, indent: chars(indent) }]
}

fn comment(token: &str, indent: &str) -> Vec<Continuation> {
    vec![Continuation { token: Some(chars(token)), indent: chars(indent) }]
}

#[test]
fn enter_keeps_the_indentation() {
    let text = text("  ab\n");
    let t = insert_newline(&text, &Selection::point(4), &newline_style(), &plain("  "));
    assert_eq!(done(&text, &t), "  ab\n  \n");
    assert_eq!(t.selection.unwrap().ranges, [Range::point(7)]);
}

#[test]
fn enter_takes_trailing_whitespace_away() {
    let text = text("ab   \n");
    let t = insert_newline(&text, &Selection::point(5), &newline_style(), &plain(""));
    assert_eq!(done(&text, &t), "ab\n\n");
    assert_eq!(t.selection.unwrap().ranges, [Range::point(3)]);
}

#[test]
fn enter_between_a_pair_opens_a_deeper_line() {
    let text = text("f {}\n");
    let t = insert_newline(&text, &Selection::point(3), &newline_style(), &plain(""));
    assert_eq!(done(&text, &t), "f {\n    \n}\n");
    assert_eq!(t.selection.unwrap().ranges, [Range::point(8)]);
}

#[test]
fn enter_continues_comments() {
    let text = text("// ab\n");
    let t = insert_newline(&text, &Selection::point(5), &newline_style(), &comment("//", ""));
    assert_eq!(done(&text, &t), "// ab\n// \n");
    assert_eq!(t.selection.unwrap().ranges, [Range::point(9)]);
}

#[test]
fn lines_are_opened_below_and_above() {
    let text = text("  ab\ncd\n");
    let cursor = Selection::point(3);
    let t = open_below(&text, &cursor, true, LineEnding::LF, 1, &plain("  "));
    assert_eq!(done(&text, &t), "  ab\n  \ncd\n");
    assert_eq!(t.selection.unwrap().ranges, [Range::point(7)]);
    let t = open_above(&text, &cursor, true, LineEnding::LF, 2, &plain("  "));
    assert_eq!(done(&text, &t), "  \n  \n  ab\ncd\n");
    assert_eq!(t.selection.unwrap().len(), 2);
}

#[test]
fn opened_lines_continue_comments_only_when_asked_to() {
    let text = text("// ab\n");
    let cursor = Selection::point(3);
    let style = |comment_continuation| OpenStyle {
        open: Open::Below,
        comment_continuation,
        continue_comments: true,
        line_ending: LineEnding::Crlf,
        count: 1,
    };
    let t = open(&text, &cursor, &style(CommentContinuation::Enabled), &comment("//", ""));
    assert_eq!(done(&text, &t), "// ab\r\n// \n");
    let t = open(&text, &cursor, &style(CommentContinuation::Disabled), &comment("//", ""));
    assert_eq!(done(&text, &t), "// ab\r\n\n");
    let foreign = self::text("※ ab\n");
    let mut style = style(CommentContinuation::Enabled);
    style.count = 2;
    let t = open(&foreign, &Selection::point(2), &style, &comment("※", ""));
    assert_eq!(done(&foreign, &t), "※ ab\r\n※ \r\n※ \n");
    assert_eq!(t.selection.unwrap().ranges, [Range::point(8), Range::point(12)]);
}

#[test]
fn tabs_fill_up_to_the_next_stop() {
    let text = text("ab\n");
    let t = insert_tab(&text, &Selection::point(1), IndentStyle::Spaces(4));
    assert_eq!(done(&text, &t), "a   b\n");
    let t = insert_tab(&text, &Selection::point(1), IndentStyle::Tabs);
    assert_eq!(done(&text, &t), "a\tb\n");
    assert_eq!(IndentStyle::Spaces(2).as_chars(), [' ', ' ']);
    assert_eq!(IndentStyle::Tabs.as_chars(), ['\t']);
}

#[test]
fn smart_tab_looks_at_what_is_before_the_cursor() {
    let text = text("  ab\n");
    assert_eq!(smart_tab(&text, &Selection::point(2), true, false), TabAction::InsertTab);
    assert_eq!(
        smart_tab(&text, &Selection::point(3), true, false),
        TabAction::MoveParentNodeEnd
    );
    assert_eq!(smart_tab(&text, &Selection::point(3), false, false), TabAction::InsertTab);
    assert_eq!(
        smart_tab(&text, &Selection::point(3), true, true),
        TabAction::GotoNextTabstop
    );
}

#[test]
fn characters_are_inserted_at_the_cursor() {
    let text = text("ab");
    let done = insert_char(&text, &Selection::point(1), 'x', vec![None]);
    assert_eq!(done.len(), 1);
    assert_eq!((done[0].0.from, done[0].0.to), (1, 1));
    assert_eq!(done[0].0.text, ['x']);
}

#[test]
fn keys_are_inserted_interactively() {
    let key = |code| Key { code, modified: false };
    let act = |code, count| insert_selection_interactive(key(code), count).0;
    assert_eq!(act(KeyCode::Char('x'), 3), Interactive::Chars('x', 3));
    assert_eq!(act(KeyCode::Enter, 1), Interactive::Newline);
    assert_eq!(act(KeyCode::Enter, 2), Interactive::ManyNewlines);
    assert_eq!(act(KeyCode::Tab, 2), Interactive::Tabs(2));
    assert_eq!(act(KeyCode::Other, 1), Interactive::Nothing);
}

#[test]
fn the_innermost_layer_names_the_comment_token() {
    let layers = Some(vec![Some(chars("//")), None]);
    assert_eq!(continued_line_comment_token(&layers, &None), Some(chars("//")));
    let language = Some(chars("#"));
    assert_eq!(continued_line_comment_token(&None, &language), Some(chars("#")));
}

#[test]
fn empty_lines_are_added_around() {
    let text = text("ab\ncd\n");
    let cursor = Selection::point(1);
    assert_eq!(done(&text, &add_newline_above(&text, &cursor, LineEnding::LF, 2)), "\n\nab\ncd\n");
    assert_eq!(done(&text, &add_newline_below(&text, &cursor, LineEnding::LF, 1)), "ab\n\ncd\n");
}

#[test]
fn insert_mode_begins_at_the_ends_of_lines() {
    let text = text("  ab\n\n");
    let at = |t: Transaction| t.selection.unwrap().ranges;
    let none = vec![Vec::new()];
    assert_eq!(
        at(insert_at_line_start(&text, &Selection::point(3), false, &none)),
        [Range::point(2)]
    );
    assert_eq!(
        at(insert_at_line_end(&text, &Selection::point(2), false, &none)),
        [Range::point(4)]
    );
    let t = insert_at_line_end(&text, &Selection::point(5), false, &vec![chars("  ")]);
    assert_eq!(done(&text, &t), "  ab\n  \n");
    assert_eq!(at(t), [Range::point(7)]);
}

#[test]
fn deleting_backward_takes_indentation_in_steps() {
    let text = text("      ab");
    assert_eq!(dedent(&text, &Range::point(6), 4, 4), Some((4, 6)));
    assert_eq!(dedent(&text, &Range::point(7), 4, 4), None);
    let done = delete_char_backward(&text, &Selection::point(8), 2, 4, 4, &vec![None]);
    assert_eq!(done[0].0, (6, 8));
}

#[test]
fn insert_mode_deletions() {
    let text = text("one two\nthree\n");
    let cursor = Selection::single(4, 5);
    let delete = |changes: Vec<Change>| after(&text, &changes);
    assert_eq!(
        delete(delete_char_forward(&text, &cursor, 2, LineEnding::LF).changes),
        "one o\nthree\n"
    );
    assert_eq!(
        delete(kill_to_line_start(&text, &cursor, LineEnding::LF).changes),
        "two\nthree\n"
    );
    assert_eq!(
        delete(kill_to_line_end(&text, &cursor, LineEnding::LF).changes),
        "one \nthree\n"
    );
    assert_eq!(
        delete(
            delete_word_backward(&text, &cursor, &vec![Range::new(4, 0)], LineEnding::LF).changes
        ),
        "two\nthree\n"
    );
    assert_eq!(
        delete(
            delete_word_forward(&text, &cursor, &vec![Range::new(4, 7)], LineEnding::LF).changes
        ),
        "one \nthree\n"
    );
    let spans = vec![(1, 3)];
    let deletion = delete_by_selection_insert_mode(
        &text,
        &cursor,
        &spans,
        Direction::Backward,
        LineEnding::LF,
    );
    assert_eq!(delete(deletion.changes), "o two\nthree\n");
}

#[test]
fn bytes_are_those_of_utf8() {
    assert_eq!(count_bytes(&chars("aä€😀")), 10);
}
