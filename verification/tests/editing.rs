use mitos::commands::align::{align_selections, Place};
use mitos::commands::editing::{
    comment_layer, delete_selection_impl, get_lines, indent, line_comment_token,
    reorder_selection_contents, replace_char, replace_line_endings, replace_selections,
    selection_is_linewise, switch_case_impl, switch_text, toggle_block_comments, toggle_comments,
    toggle_line_comments, unindent, AfterDeletion, Case, CommentAction, CommentLayer, Operation,
    ReorderStrategy, YankAction,
};
use mitos::commands::insert_text::{IndentStyle, KeyCode};
use mitos::commands::joining::join_selections_impl;
use mitos::commands::surround::{
    select_surround, surround_add, surround_character, surround_delete, surround_help,
    surround_replace, SurroundHelp, SurroundKey,
};
use mitos::range::Range;
use mitos::selection::Selection;
use mitos::text::{LineEnding, Text};
use mitos::transaction::{apply, Transaction};

fn chars(s: &str) -> Vec<char> {
    s.chars().collect()
}

fn text(s: &str) -> Text {
    Text::from_chars(chars(s))
}

fn done(text: &Text, t: &Transaction) -> String {
    apply(&text.chars, &t.changes).into_iter().collect()
}

fn selection(ranges: &[(usize, usize)], primary: usize) -> Selection {
    Selection::new(ranges.iter().map(|&(a, h)| Range::new(a, h)).collect(), primary)
}

#[test]
fn case_is_switched() {
    let text = text("aBß c");
    let all = Selection::single(0, 4);
    assert_eq!(done(&text, &switch_case_impl(&text, &all, Case::Switch)), "AbSS c");
    assert_eq!(done(&text, &switch_case_impl(&text, &all, Case::Upper)), "ABSS c");
    assert_eq!(done(&text, &switch_case_impl(&text, &all, Case::Lower)), "abß c");
    assert_eq!(switch_text(&chars("İ1")), chars("i\u{307}1"));
}

#[test]
fn contents_are_reordered_and_back() {
    let text = text("a bb ccc");
    let three = selection(&[(0, 1), (2, 4), (5, 8)], 0);
    let reorder = |strategy, count| {
        let (s, t) = reorder_selection_contents(&text, &three, strategy, count).unwrap();
        (done(&text, &t), s.primary_index)
    };
    assert_eq!(reorder(ReorderStrategy::RotateForward, None), ("ccc a bb".to_string(), 1));
    assert_eq!(reorder(ReorderStrategy::RotateBackward, None), ("bb ccc a".to_string(), 2));
    assert_eq!(reorder(ReorderStrategy::Reverse, None), ("ccc bb a".to_string(), 2));
    assert!(reorder_selection_contents(&text, &three, ReorderStrategy::Reverse, Some(2)).is_none());
}

#[test]
fn lines_are_indented_and_back() {
    let text = text("a\n\n  b\nc\n");
    let first = Selection::single(0, 5);
    assert_eq!(get_lines(&text, &first), [0, 1, 2]);
    let t = indent(&text, &first, IndentStyle::Spaces(2), 2);
    let indented = done(&text, &t);
    assert_eq!(indented, "    a\n\n      b\nc\n");
    let wide = self::text(&indented);
    let t = unindent(&wide, &Selection::single(0, 14), 4, 2, 2);
    assert_eq!(done(&wide, &t), "a\n\n  b\nc\n");
    let tabs = self::text("\t\ta\n");
    let t = unindent(&tabs, &Selection::point(0), 4, 4, 1);
    assert_eq!(done(&tabs, &t), "\ta\n");
}

#[test]
fn comments_are_toggled_by_what_there_is() {
    assert_eq!(toggle_comments(true, false, false, false), CommentAction::ToggleLines);
    assert_eq!(toggle_comments(true, true, true, true), CommentAction::UncommentSplitLines);
    assert_eq!(toggle_comments(true, true, false, true), CommentAction::UncommentSelection);
    assert_eq!(toggle_comments(false, true, false, false), CommentAction::CommentSplitLines);
    assert_eq!(toggle_comments(true, true, false, false), CommentAction::ToggleLines);
    assert_eq!(toggle_line_comments(false, true), CommentAction::ToggleBlocksOfSplitLines);
    assert_eq!(toggle_line_comments(true, true), CommentAction::ToggleLines);
    assert_eq!(toggle_block_comments(true, false), CommentAction::ToggleLines);
    assert_eq!(toggle_block_comments(false, true), CommentAction::ToggleBlocks);
}

#[test]
fn the_comment_layer_prefers_line_tokens() {
    let layer = |line, block| CommentLayer { line, block };
    assert_eq!(comment_layer(&vec![layer(true, false), layer(false, true)]), Some(0));
    assert_eq!(comment_layer(&vec![layer(false, true), layer(false, true)]), Some(1));
    assert_eq!(comment_layer(&vec![layer(false, false)]), None);
    let tokens = Some(vec!["//".to_string(), "///".to_string()]);
    assert_eq!(line_comment_token(&tokens, Some("///".into())).as_deref(), Some("///"));
    assert_eq!(line_comment_token(&tokens, None).as_deref(), Some("//"));
    assert_eq!(line_comment_token(&None, None), None);
}

#[test]
fn characters_are_replaced_one_by_one() {
    let text = text("abc");
    let two = Selection::single(0, 2);
    let t = replace_char(&text, &two, KeyCode::Char('x'), LineEnding::LF).unwrap();
    assert_eq!(done(&text, &t), "xxc");
    let t = replace_char(&text, &two, KeyCode::Enter, LineEnding::Crlf).unwrap();
    assert_eq!(done(&text, &t), "\r\n\r\nc");
    assert!(replace_char(&text, &two, KeyCode::Other, LineEnding::LF).is_none());
}

#[test]
fn replacements_take_the_line_ending() {
    assert_eq!(replace_line_endings(&chars("a\r\nb\nc"), &chars("\r\n")), chars("a\r\nb\r\nc"));
    let text = text("one two");
    let t = replace_selections(
        &text,
        &selection(&[(0, 3), (4, 7)], 1),
        &chars("x\ny"),
        LineEnding::Crlf,
    );
    assert_eq!(done(&text, &t), "x\r\ny x\r\ny");
    assert_eq!(t.selection.unwrap().ranges, [Range::new(0, 4), Range::new(5, 9)]);
}

#[test]
fn deletion_yanks_unless_told_not_to() {
    let text = text("ab\ncd\n");
    let line = Selection::single(0, 3);
    assert!(selection_is_linewise(&text, &line));
    let d = delete_selection_impl(&text, &line, Operation::Change, YankAction::Yank, None, '"');
    assert_eq!(d.yank, Some(('"', vec![chars("ab\n")])));
    assert_eq!(apply(&text.chars, &d.changes), chars("cd\n"));
    assert_eq!(d.after, AfterDeletion::OpenLineAbove);
    let part = Selection::single(0, 1);
    let d =
        delete_selection_impl(&text, &part, Operation::Change, YankAction::Yank, Some('_'), '"');
    assert_eq!(d.yank, None);
    assert_eq!(d.after, AfterDeletion::EnterInsertMode);
    let d =
        delete_selection_impl(&text, &part, Operation::Delete, YankAction::NoYank, None, '"');
    assert_eq!(d.yank, None);
    assert_eq!(d.after, AfterDeletion::ExitSelectMode);
}

#[test]
fn joins_leave_one_space() {
    let text = text("a\n   b\n\nc\n");
    let none = vec![None; 5];
    let t = join_selections_impl(&text, &Selection::single(0, 9), &none, false).unwrap();
    assert_eq!(done(&text, &t), "a b c\n");
    let t = join_selections_impl(&text, &Selection::point(0), &none, true).unwrap();
    assert_eq!(done(&text, &t), "a b\n\nc\n");
    assert_eq!(t.selection.unwrap().ranges, [Range::point(1)]);
}

#[test]
fn joins_take_comment_tokens_away() {
    let text = text("// a\n// b\n");
    let tokens = vec![Some(chars("//")), Some(chars("//")), None];
    let t = join_selections_impl(&text, &Selection::point(0), &tokens, false).unwrap();
    assert_eq!(done(&text, &t), "// a b\n");
}

#[test]
fn selections_are_aligned() {
    let text = text("a=\nbbb=\n");
    let heads = selection(&[(1, 1), (6, 6)], 0);
    let place = |row, col| Place { row, col };
    let places = vec![place(0, 1), place(1, 3)];
    let t = align_selections(&heads, &places, &places, text.len_chars()).ok().unwrap();
    assert_eq!(done(&text, &t), "a  =\nbbb=\n");
    let across = vec![place(1, 0), place(1, 3)];
    assert_eq!(
        align_selections(&heads, &places, &across, text.len_chars()).err(),
        Some("align cannot work with multi line selections")
    );
}

#[test]
fn pairs_are_put_around_and_taken_away() {
    let text = text("ab cd");
    let two = selection(&[(0, 2), (3, 5)], 0);
    let t = surround_add(&two, SurroundKey::Pair('(', ')'), LineEnding::LF, 5).unwrap();
    assert_eq!(done(&text, &t), "(ab) (cd)");
    assert_eq!(t.selection.unwrap().ranges, [Range::new(0, 4), Range::new(5, 9)]);
    assert!(surround_add(&two, SurroundKey::Other, LineEnding::LF, 5).is_none());
    let around = self::text("(ab) (cd)");
    let positions = vec![0, 3, 5, 8];
    let t = surround_replace(&positions, Some(('[', ']')));
    assert_eq!(done(&around, &t), "[ab] [cd]");
    let t = surround_delete(&positions);
    assert_eq!(done(&around, &t), "ab cd");
    let ends = select_surround(&positions, 1);
    assert_eq!(ends.len(), 4);
    assert_eq!(ends.primary(), Range::point(5));
    assert_eq!(surround_character(Some('m')), Some(None));
    assert_eq!(surround_character(Some('(')), Some(Some('(')));
    assert_eq!(surround_character(None), None);
}

#[test]
fn the_nearest_pair_is_offered_where_one_is_looked_for() {
    let (title, lines) = surround_help(SurroundHelp::Surround);
    assert_eq!(title, "Surround selections with");
    assert_eq!(lines.len(), 5);
    let (title, lines) = surround_help(SurroundHelp::Delete);
    assert_eq!(title, "Delete surrounding pair of");
    assert_eq!(lines[0], ("m", "Nearest matching pair"));
}
