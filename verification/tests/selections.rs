use mitos::commands::align::Place;
use mitos::commands::search::PromptEvent;
use mitos::commands::selection::{
    collapse_selection, copied_ends, copy_selection_on_line, ensure_selections_forward,
    extend_direction, extend_line_impl, extend_to_line_bounds, flip_selections,
    keep_or_remove_prompt, keep_primary_selection, remove_primary_selection, rotate_selections,
    rotate_selections_first, rotate_selections_last, select_all, select_by_pattern,
    select_line_impl, shrink_to_line_bounds, trim_selections, Extend, Probe,
};
use mitos::commands::syntax::{
    goto_ts_object_impl, match_brackets, selection_contains, ObjectSelections,
};
use mitos::mode::Mode;
use mitos::range::{Direction, Range};
use mitos::selection::Selection;
use mitos::text::Text;

fn text(s: &str) -> Text {
    Text::from_chars(s.chars().collect())
}

fn selection(ranges: &[(usize, usize)], primary: usize) -> Selection {
    Selection::new(ranges.iter().map(|&(a, h)| Range::new(a, h)).collect(), primary)
}

#[test]
fn overlapping_ranges_are_merged() {
    let s = selection(&[(6, 8), (0, 4), (2, 5)], 2);
    assert_eq!(s.ranges, [Range::new(0, 5), Range::new(6, 8)]);
    assert_eq!(s.primary_index, 0);
    let s = selection(&[(4, 0), (5, 2)], 0);
    assert_eq!(s.ranges, [Range::new(5, 0)]);
}

#[test]
fn ranges_are_made_to_fit_the_text() {
    let text = Text::new(vec!['e', '\u{301}', 'x'], vec![0, 2, 3]).unwrap();
    let s = Selection::single(1, 1).ensure_invariants(&text);
    assert_eq!(s.ranges, [Range::new(0, 2)]);
    assert!(Text::new(vec!['a', 'b'], vec![0, 1]).is_none());
    assert!(Text::new(vec!['a', 'b'], vec![0, 2, 2]).is_none());
}

#[test]
fn selections_are_trimmed() {
    let text = text("  ab  cd\n ");
    assert_eq!(trim_selections(&text, &Selection::single(0, 6)).ranges, [Range::new(2, 4)]);
    assert_eq!(
        trim_selections(&text, &selection(&[(0, 5), (5, 6)], 1)).ranges,
        [Range::new(2, 4)]
    );
    assert_eq!(trim_selections(&text, &Selection::single(4, 6)).ranges, [Range::point(5)]);
}

#[test]
fn selections_are_copied_to_other_lines() {
    let text = text("abc\nx\ndef\n");
    let place = |row, col| Place { row, col };
    let probe = |anchor, head, anchor_col, head_col| Probe { anchor, head, anchor_col, head_col };
    let probes = vec![vec![
        probe(5, 5, 1, 1),
        probe(8, 8, 2, 2),
        probe(10, 10, 0, 0),
    ]];
    let copied = copy_selection_on_line(
        &text,
        &Selection::single(2, 3),
        &vec![place(0, 2)],
        &vec![place(0, 2)],
        &probes,
        Direction::Forward,
        1,
    );
    assert_eq!(copied.ranges, [Range::new(2, 3), Range::new(8, 9)]);
    assert_eq!(copied.primary_index, 1);
    assert_eq!(copied_ends(&Range::new(2, 3)), (2, 2));
    assert_eq!(copied_ends(&Range::new(2, 5)), (4, 2));
    assert_eq!(copied_ends(&Range::new(5, 2)), (2, 4));
    assert_eq!(copied_ends(&Range::new(0, 0)), (0, 0));
}

#[test]
fn everything_is_selected() {
    assert_eq!(select_all(&text("abc")).ranges, [Range::new(0, 3)]);
}

#[test]
fn patterns_select_as_they_are_typed() {
    let found = || Some(Selection::point(1));
    assert!(select_by_pattern(PromptEvent::Abort, found(), "x").0.is_none());
    assert_eq!(select_by_pattern(PromptEvent::Update, None, "x").1, None);
    assert_eq!(select_by_pattern(PromptEvent::Validate, None, "x").1, Some("x"));
    assert!(select_by_pattern(PromptEvent::Validate, found(), "x").0.is_some());
    assert_ne!(keep_or_remove_prompt(true), keep_or_remove_prompt(false));
}

#[test]
fn lines_are_selected_and_extended() {
    let text = text("ab\ncd\nef\n");
    let inside = Selection::point(1);
    let line = extend_line_impl(&text, &inside, Extend::Below, 1);
    assert_eq!(line.ranges, [Range::new(0, 3)]);
    let two = extend_line_impl(&text, &line, Extend::Below, 1);
    assert_eq!(two.ranges, [Range::new(0, 6)]);
    let selected = select_line_impl(&text, &inside, Extend::Below, 1);
    assert_eq!(selected.ranges, [Range::new(0, 3)]);
    assert_eq!(extend_direction(&Range::new(4, 1)), Extend::Above);
    assert_eq!(extend_direction(&Range::new(1, 4)), Extend::Below);
}

#[test]
fn selections_reach_whole_lines() {
    let text = text("ab\ncd\nef\n");
    let part = Selection::single(1, 4);
    assert_eq!(extend_to_line_bounds(&text, &part).ranges, [Range::new(0, 6)]);
    let wide = Selection::single(1, 8);
    assert_eq!(shrink_to_line_bounds(&text, &wide).ranges, [Range::new(3, 6)]);
    let within = Selection::single(4, 5);
    assert_eq!(shrink_to_line_bounds(&text, &within).ranges, [Range::new(4, 5)]);
}

#[test]
fn selections_are_turned() {
    let text = text("abcdef");
    let two = selection(&[(0, 2), (5, 3)], 0);
    assert_eq!(flip_selections(&text, &two).ranges, [Range::new(2, 0), Range::new(3, 5)]);
    assert_eq!(
        ensure_selections_forward(&text, &two).ranges,
        [Range::new(0, 2), Range::new(3, 5)]
    );
    assert_eq!(collapse_selection(&text, &two).ranges, [Range::point(1), Range::point(3)]);
}

#[test]
fn the_primary_selection_moves_on() {
    let three = selection(&[(0, 1), (2, 3), (4, 5)], 2);
    assert_eq!(rotate_selections(&three, Direction::Forward, 1).primary_index, 0);
    assert_eq!(rotate_selections(&three, Direction::Backward, 1).primary_index, 1);
    let back = rotate_selections(
        &rotate_selections(&three, Direction::Forward, 2),
        Direction::Backward,
        2,
    );
    assert_eq!(back.primary_index, 2);
    assert_eq!(rotate_selections_first(&three).primary_index, 0);
    assert_eq!(rotate_selections_last(&three).primary_index, 2);
    assert_eq!(keep_primary_selection(&three).ranges, [Range::new(4, 5)]);
    let rest = remove_primary_selection(&three).ok().unwrap();
    assert_eq!(rest.len(), 2);
    assert_eq!(rest.primary_index, 1);
    assert_eq!(
        remove_primary_selection(&Selection::point(0)).err(),
        Some("no selections remaining")
    );
}

#[test]
fn shrinking_undoes_expanding() {
    let mut objects = ObjectSelections::new();
    let inner = Selection::single(2, 3);
    let outer = Selection::single(1, 5);
    let set = objects.expand_selection(&inner, Some(outer.clone())).unwrap();
    assert!(set.same(&outer));
    assert!(objects.expand_selection(&outer, Some(outer.clone())).is_none());
    assert!(objects.expand_selection(&outer, None).is_none());
    let back = objects.shrink_selection(&outer, None).unwrap();
    assert!(back.same(&inner));
    assert!(objects.shrink_selection(&inner, None).is_none());
    objects.expand_selection(&inner, Some(outer.clone()));
    let elsewhere = Selection::single(7, 9);
    let child = objects.shrink_selection(&elsewhere, Some(Selection::point(8))).unwrap();
    assert_eq!(child.ranges, [Range::point(8)]);
    assert!(objects.stack.is_empty());
    assert!(selection_contains(&outer, &inner) && !selection_contains(&inner, &outer));
}

#[test]
fn nodes_are_jumped_to() {
    let here = Selection::single(4, 5);
    let found = vec![Range::new(0, 3)];
    let go = |mode, direction| {
        goto_ts_object_impl(&here, Some(&found), mode, direction).ok().unwrap().ranges[0]
    };
    assert_eq!(go(Mode::Normal, Direction::Backward), Range::new(3, 0));
    assert_eq!(go(Mode::Normal, Direction::Forward), Range::new(0, 3));
    assert_eq!(go(Mode::Select, Direction::Backward), Range::new(4, 0));
    assert_eq!(
        goto_ts_object_impl(&here, None, Mode::Normal, Direction::Forward).err(),
        Some("Syntax-tree is not available in current buffer")
    );
}

#[test]
fn cursors_jump_to_matching_brackets() {
    let text = text("(ab)c");
    let two = selection(&[(0, 1), (4, 5)], 0);
    let moved = match_brackets(&text, &two, &vec![Some(3), None], Mode::Normal);
    assert_eq!(moved.ranges, [Range::point(3), Range::new(4, 5)]);
    let moved = match_brackets(&text, &Selection::single(0, 1), &vec![Some(3)], Mode::Select);
    assert_eq!(moved.ranges, [Range::new(0, 4)]);
}
