use mitos::commands::insert_text::KeyCode;
use mitos::commands::movement::{
    align_view_middle, effective_scrolloff, extend_word_impl, find_char,
    find_char_line_ending_motion, find_char_motion, find_nth_char, goto_first_nonwhitespace_impl,
    goto_line_end_impl, goto_line_end_newline_impl, goto_line_start_impl, goto_window,
    movement_in, scroll, scroll_edge, Align, FindKey,
};
use mitos::commands::navigation::{
    first_label_key, goto_buffer, goto_column_impl, goto_file_end_impl, goto_file_start_impl,
    goto_last_accessed_file, goto_last_line_impl, goto_last_modification, goto_last_modified_file,
    goto_line_without_jumplist, jump_to_label, jumplist_picker, last_line_index, second_label_key,
    step_around, LinePreview, NotANumber, WordJump, WordStep,
};
use mitos::commands::search::PromptEvent;
use mitos::mode::Mode;
use mitos::range::{Direction, Movement, Range};
use mitos::selection::Selection;
use mitos::text::Text;

fn chars(s: &str) -> Vec<char> {
    s.chars().collect()
}

fn text(s: &str) -> Text {
    Text::from_chars(chars(s))
}

#[test]
fn cursors_go_along_their_line() {
    let text = text("  ab\ncd\n");
    let at = Selection::point(3);
    let go = Movement::Move;
    assert_eq!(goto_line_start_impl(&text, &at, go).ranges, [Range::point(0)]);
    assert_eq!(goto_first_nonwhitespace_impl(&text, &at, go).ranges, [Range::point(2)]);
    assert_eq!(goto_line_end_impl(&text, &at, go).ranges, [Range::point(3)]);
    assert_eq!(goto_line_end_newline_impl(&text, &at, go).ranges, [Range::point(4)]);
    assert_eq!(movement_in(Mode::Select), Movement::Extend);
    assert_eq!(movement_in(Mode::Normal), Movement::Move);
}

#[test]
fn window_rows_keep_their_distance() {
    assert_eq!(effective_scrolloff(5, 40), 5);
    assert_eq!(effective_scrolloff(50, 11), 5);
    assert_eq!(goto_window(Align::Top, 10, 39, 5, 40, 1), 15);
    assert_eq!(goto_window(Align::Center, 10, 39, 5, 40, 1), 29);
    assert_eq!(goto_window(Align::Bottom, 10, 39, 5, 40, 1), 44);
    assert_eq!(scroll_edge(10, 40, 5, Direction::Forward), 15);
    assert_eq!(scroll_edge(10, 40, 5, Direction::Backward), 44);
    assert_eq!(align_view_middle(50, 80, false), Some(10));
    assert_eq!(align_view_middle(30, 80, false), Some(0));
    assert_eq!(align_view_middle(30, 80, true), None);
}

#[test]
fn scrolling_takes_the_cursor_along() {
    let text = text("a\nb\nc\nd\n");
    let at = Selection::single(0, 1);
    let moved = scroll(&text, &at, Mode::Normal, (4, 0), Direction::Forward).unwrap();
    assert_eq!(moved.ranges, [Range::point(4)]);
    let moved = scroll(&text, &at, Mode::Select, (4, 1), Direction::Forward).unwrap();
    assert_eq!(moved.ranges, [Range::new(0, 5)]);
    assert!(scroll(&text, &Selection::point(6), Mode::Normal, (4, 0), Direction::Forward).is_none());
    let back = scroll(&text, &Selection::point(6), Mode::Normal, (4, 0), Direction::Backward);
    assert_eq!(back.unwrap().ranges, [Range::point(4)]);
}

#[test]
fn characters_are_found() {
    let text = text("a.b.c.d");
    assert_eq!(find_nth_char(&text, '.', 0, 2, Direction::Forward), Some(3));
    assert_eq!(find_nth_char(&text, '.', 7, 2, Direction::Backward), Some(3));
    assert_eq!(find_nth_char(&text, '.', 0, 4, Direction::Forward), None);
    let find = |inclusive, extend| {
        find_char_motion(
            &text,
            &Selection::single(0, 1),
            '.',
            1,
            Direction::Forward,
            inclusive,
            extend,
        )
        .ranges[0]
    };
    assert_eq!(find(true, false), Range::new(0, 2));
    assert_eq!(find(true, true), Range::new(0, 2));
    assert_eq!(find_char(KeyCode::Enter), FindKey::LineEnding);
    assert_eq!(find_char(KeyCode::Tab), FindKey::Char('\t'));
    assert_eq!(find_char(KeyCode::Char('x')), FindKey::Char('x'));
    assert_eq!(find_char(KeyCode::Other), FindKey::Nothing);
}

#[test]
fn line_endings_are_found() {
    let text = text("ab\ncd\n");
    let moved = find_char_line_ending_motion(
        &text,
        &Selection::single(0, 1),
        1,
        Direction::Forward,
        true,
        true,
    );
    assert_eq!(moved.ranges, [Range::new(0, 3)]);
}

#[test]
fn words_extend_the_selection() {
    let text = text("one two");
    let moved = extend_word_impl(&text, &Selection::single(0, 1), &vec![Range::new(0, 4)]);
    assert_eq!(moved.ranges, [Range::new(0, 4)]);
}

#[test]
fn buffers_go_round() {
    let ids = vec![3, 5, 9];
    assert_eq!(goto_buffer(&ids, 9, Direction::Forward, 1), 3);
    assert_eq!(goto_buffer(&ids, 3, Direction::Backward, 1), 9);
    assert_eq!(goto_buffer(&ids, 3, Direction::Forward, 4), 5);
    assert_eq!(step_around(0, Direction::Backward, 5, 3), 1);
    assert_eq!(goto_last_modified_file((Some(4), Some(5)), 4), Ok(5));
    assert_eq!(
        goto_last_modified_file((Some(4), None), 4),
        Err("no last modified buffer")
    );
    let mut history = vec![1, 2];
    assert_eq!(goto_last_accessed_file(&mut history), Ok(2));
    assert_eq!(history, [1]);
    assert_eq!(
        goto_last_accessed_file(&mut Vec::new()),
        Err("no last accessed buffer")
    );
}

#[test]
fn lines_are_gone_to() {
    let text = text("a\nb\nc\n");
    let at = Selection::point(0);
    assert_eq!(last_line_index(&text), 2);
    let line = goto_line_without_jumplist(&text, &at, Some(2), Movement::Move).unwrap();
    assert_eq!(line.ranges, [Range::point(2)]);
    let far = goto_line_without_jumplist(&text, &at, Some(99), Movement::Move).unwrap();
    assert_eq!(far.ranges, [Range::point(4)]);
    assert!(goto_line_without_jumplist(&text, &at, None, Movement::Move).is_none());
    assert_eq!(goto_last_line_impl(&text, &at, Movement::Move).ranges, [Range::point(4)]);
    assert_eq!(goto_file_end_impl(&text, &at, Movement::Move).ranges, [Range::point(6)]);
    assert_eq!(
        goto_file_start_impl(&text, &Selection::point(4), None, Movement::Move).ranges,
        [Range::point(0)]
    );
    let columns = self::text("abc\n");
    assert_eq!(
        goto_column_impl(&columns, &at, 2, Movement::Move).ranges,
        [Range::point(1)]
    );
    assert_eq!(
        goto_last_modification(&text, &at, Some(2), false).unwrap().ranges,
        [Range::point(2)]
    );
    assert!(goto_last_modification(&text, &at, None, false).is_none());
}

#[test]
fn leaving_the_line_prompt_restores_the_selection() {
    let text = text("a\nb\nc\n");
    let mut preview = LinePreview {
        selection: Selection::point(4),
        last_selection: None,
        jumps: Vec::new(),
    };
    let typed = vec![chars("2")];
    assert_eq!(preview.goto_line_number(&text, &typed, PromptEvent::Update, false), Ok(()));
    assert_eq!(preview.selection.ranges, [Range::point(2)]);
    let bad = vec![chars("x")];
    assert_eq!(
        preview.goto_line_number(&text, &bad, PromptEvent::Update, false),
        Err(NotANumber)
    );
    assert_eq!(preview.goto_line_number(&text, &typed, PromptEvent::Abort, false), Ok(()));
    assert_eq!(preview.selection.ranges, [Range::point(4)]);
    assert!(preview.jumps.is_empty());
    assert_eq!(preview.goto_line_number(&text, &typed, PromptEvent::Validate, false), Ok(()));
    assert_eq!(preview.selection.ranges, [Range::point(2)]);
    assert_eq!(preview.jumps.len(), 1);
    assert_eq!(preview.jumps[0].ranges, [Range::point(4)]);
}

#[test]
fn jumps_are_listed() {
    let text = text("a\nbc\n");
    let entry = jumplist_picker(&text, &Selection::single(2, 4), true);
    assert_eq!(entry.line_start, 1);
    assert_eq!(entry.contents, chars("bc"));
    assert_eq!(entry.flags, " (*)");
    assert_eq!(jumplist_picker(&text, &Selection::single(2, 4), false).flags, "");
}

#[test]
fn labels_lead_to_their_words() {
    let text = text("one two six");
    let alphabet = chars("ab");
    let labels = vec![Range::new(0, 3), Range::new(4, 7), Range::new(8, 11)];
    let overlays = jump_to_label(&text, &alphabet, &labels).unwrap();
    let shown: Vec<(usize, char)> = overlays.iter().map(|o| (o.char_idx, o.grapheme)).collect();
    assert_eq!(shown, [(0, 'a'), (1, 'a'), (4, 'a'), (5, 'b'), (8, 'b'), (9, 'a')]);
    let row = first_label_key(&alphabet, labels.len(), Some('b')).unwrap();
    let primary = Range::point(0);
    let jump =
        second_label_key(&alphabet, &labels, row, Some('a'), &primary, Movement::Move).unwrap();
    assert_eq!(jump.ranges, [Range::new(8, 11)]);
    assert!(second_label_key(&alphabet, &labels, row, Some('b'), &primary, Movement::Move)
        .is_none());
    assert!(first_label_key(&alphabet, labels.len(), Some('x')).is_none());
    assert!(jump_to_label(&text, &alphabet, &Vec::new()).is_none());
}

#[test]
fn words_are_collected_on_both_sides() {
    let text = text("one two six");
    let mut jump = WordJump::jump_to_word(&text, &Range::point(3), 0, 11, 26).unwrap();
    let words = [(0, 3), (4, 7), (8, 11)];
    let mut steps = 0;
    loop {
        let (step, from) = jump.question();
        let answer = match step {
            WordStep::Done => break,
            WordStep::CursorWordEnd | WordStep::NextWordEnd => words
                .iter()
                .find(|w| w.1 > from.head)
                .map_or(Range::point(11), |w| Range::new(w.0, w.1)),
            _ => words
                .iter()
                .rev()
                .find(|w| w.0 < from.head)
                .map_or(Range::point(0), |w| Range::new(w.1, w.0)),
        };
        jump.answer(&text, answer);
        steps += 1;
        assert!(steps < 100);
    }
    let mut found: Vec<usize> = jump.words.iter().map(|w| w.from()).collect();
    found.sort();
    assert_eq!(found, [0, 4, 8]);
}
