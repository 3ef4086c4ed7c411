use mitos::commands::registers::{repeated_search_register, search_register};
use mitos::commands::search::{
    char_at_byte, complete_search, find_open_buffer, global_search, jump_to_match, locate_match,
    make_search_word_bounded, match_line_cols, matches_in, on_search_prompt, register_set_message,
    search_buffer, search_completions, search_config, search_impl, search_next_or_prev_impl,
    search_open_file, search_selection_impl, search_start, selection_for_global_search_match,
    GlobalSearchError, LineMatch, MatchSpan, PromptEvent, RepeatSearch, SearchStatus,
};
use mitos::range::{Direction, Movement, Range};
use mitos::selection::Selection;
use mitos::text::{LineEnding, Text};

fn chars(s: &str) -> Vec<char> {
    s.chars().collect()
}

fn text(s: &str) -> Text {
    Text::from_chars(chars(s))
}

fn span(line_start: usize, match_start_col: usize, line_end: usize, match_end_col: usize) -> MatchSpan {
    MatchSpan { line_start, match_start_col, line_end, match_end_col }
}

fn selected_word() -> String {
    let text = text("héllo search term world\n");
    let start_col = "héllo ".chars().count();
    let end_col = "héllo search".chars().count();
    let selection = selection_for_global_search_match(&text, 0, start_col, 0, end_col).unwrap();
    selection.primary().fragment(&text).into_iter().collect()
}

#[test]
fn commands_global_search_match_selection_uses_match_range() {
    assert_eq!(selected_word(), "search");
}

#[test]
fn search_global_search_match_selection_uses_match_range() {
    assert_eq!(selected_word(), "search");
}

#[test]
fn matches_that_are_gone_are_not_selected() {
    let text = text("ab\ncd\n");
    assert!(selection_for_global_search_match(&text, 1, 0, 0, 1).is_none());
    assert!(selection_for_global_search_match(&text, 0, 0, 9, 1).is_none());
    assert!(selection_for_global_search_match(&text, 0, 3, 1, 1).is_none());
    assert!(selection_for_global_search_match(&text, 0, 0, 1, 3).is_none());
    assert_eq!(
        jump_to_match(&text, span(0, 0, 9, 1)).err(),
        Some("The match you jumped to does not exist anymore.")
    );
    let selection = jump_to_match(&text, span(0, 1, 1, 1)).unwrap();
    assert_eq!(selection.ranges, [Range::new(1, 4)]);
}

#[test]
fn a_search_needs_a_query_and_a_directory() {
    assert!(matches!(global_search(None, "", false, true).1, Ok(None)));
    assert_eq!(
        global_search(None, "a", false, true).1.err().unwrap(),
        GlobalSearchError::NoWorkingDirectory
    );
    let error = global_search(None, "a(", true, true).1.err().unwrap();
    assert_eq!(error, GlobalSearchError::BadPattern);
    assert_eq!(error.message(), "Failed to compile regex");
    assert_eq!(
        GlobalSearchError::NoWorkingDirectory.message(),
        "Current working directory does not exist"
    );
}

#[test]
fn matches_become_lines_and_columns() {
    let matcher = global_search(None, "b\\nc", true, true).1.unwrap().unwrap();
    assert_eq!(
        match_line_cols(7, "äab\ncd\n", &matcher),
        LineMatch::Found(span(7, 2, 8, 1))
    );
    assert_eq!(match_line_cols(7, "abc\n", &matcher), LineMatch::Missing);
    assert_eq!(locate_match(0, "ä", Some((1, 2))), LineMatch::Split);
    assert_eq!(locate_match(0, "ä", Some((0, 2))), LineMatch::Found(span(0, 0, 0, 1)));
    assert_eq!(locate_match(0, "ä", None), LineMatch::Missing);
    assert_eq!(char_at_byte(&chars("äb"), 2), Some(1));
    assert_eq!(char_at_byte(&chars("äb"), 1), None);
    assert_eq!(char_at_byte(&chars("äb"), 3), Some(2));
    assert_eq!(char_at_byte(&chars("äb"), 4), None);
}

#[test]
fn smart_case_looks_at_the_pattern() {
    let small = global_search(None, "abc", true, true).1.unwrap().unwrap();
    assert_eq!(match_line_cols(0, "xABC", &small), LineMatch::Found(span(0, 1, 0, 4)));
    let large = global_search(None, "Abc", true, true).1.unwrap().unwrap();
    assert_eq!(match_line_cols(0, "xABC", &large), LineMatch::Missing);
    let exact = global_search(None, "abc", true, false).1.unwrap().unwrap();
    assert_eq!(match_line_cols(0, "xABC", &exact), LineMatch::Missing);
}

#[test]
fn buffers_are_searched_line_by_line() {
    let matcher = global_search(None, "b", true, true).1.unwrap().unwrap();
    assert_eq!(
        search_buffer(&matcher, "a\nab\n\nbb\n"),
        [span(1, 1, 1, 2), span(3, 0, 3, 1)]
    );
    let across = global_search(None, "b\\n+b", true, true).1.unwrap().unwrap();
    assert_eq!(search_buffer(&across, "a\nab\n\nbb\n"), [span(1, 1, 3, 1)]);
    assert!(search_buffer(&matcher, "").is_empty());
    let lines = vec![(4, "xb\n".to_string()), (9, "none\n".to_string())];
    assert_eq!(matches_in(&lines, &matcher), [span(3, 1, 3, 2)]);
}

#[test]
fn open_buffers_stand_in_for_their_files() {
    let paths = vec![None, Some("/a".to_string()), Some("/b".to_string()), Some("/a".to_string())];
    assert_eq!(find_open_buffer(&paths, "/a"), Some(1));
    assert_eq!(find_open_buffer(&paths, "/c"), None);
}

#[test]
fn searches_begin_beside_the_primary_range() {
    let text = text("one two three");
    let selection = Selection::single(4, 7);
    assert_eq!(search_start(&text, &selection, Direction::Forward), 7);
    assert_eq!(search_start(&text, &selection, Direction::Backward), 4);
}

#[test]
fn a_search_selects_the_match() {
    let selection = Selection::new(vec![Range::new(1, 0), Range::new(5, 4)], 1);
    let moved = search_impl(&selection, Movement::Move, true, true, Some((8, 9)), None);
    assert_eq!(moved.status, None);
    assert_eq!(moved.selection.unwrap().ranges, [Range::new(1, 0), Range::new(9, 8)]);
    let extended = search_impl(&selection, Movement::Extend, true, true, None, Some((2, 3)));
    assert_eq!(extended.status, Some(SearchStatus::Wrapped));
    let extended = extended.selection.unwrap();
    assert_eq!(
        extended.ranges,
        [Range::new(1, 0), Range::new(3, 2), Range::new(5, 4)]
    );
    assert_eq!(extended.primary_index, 1);
    let none = search_impl(&selection, Movement::Move, false, true, None, Some((2, 3)));
    assert_eq!(none.status, Some(SearchStatus::NoMoreMatches));
    assert!(none.selection.is_none());
    let empty = search_impl(&selection, Movement::Move, true, false, Some((0, 0)), None);
    assert!(empty.selection.is_none());
    assert_eq!(empty.status, None);
}

#[test]
fn repeated_searches_compile_anew() {
    assert!(search_config("abc", true, LineEnding::LF).case_insensitive);
    assert!(!search_config("aBc", true, LineEnding::LF).case_insensitive);
    assert!(!search_config("abc", false, LineEnding::LF).case_insensitive);
    assert!(search_config("abc", false, LineEnding::Crlf).crlf);
    match search_next_or_prev_impl(Some("x"), true, true, LineEnding::LF, 3) {
        RepeatSearch::Search(config, count) => {
            assert!(config.case_insensitive && config.multi_line && !config.crlf);
            assert_eq!(count, 3);
        }
        _ => panic!("the search is repeated"),
    }
    match search_next_or_prev_impl(Some("x("), false, true, LineEnding::LF, 3) {
        RepeatSearch::Invalid(m) => assert_eq!(m, "Invalid regex: x("),
        _ => panic!("the pattern is malformed"),
    }
    assert!(matches!(
        search_next_or_prev_impl(None, true, true, LineEnding::LF, 1),
        RepeatSearch::Nothing
    ));
}

#[test]
fn the_search_prompt_searches_until_it_is_left() {
    assert_eq!(on_search_prompt(PromptEvent::Update, '/'), (true, None));
    assert_eq!(on_search_prompt(PromptEvent::Validate, '/'), (true, Some('/')));
    assert_eq!(on_search_prompt(PromptEvent::Abort, '/'), (false, None));
}

#[test]
fn earlier_searches_are_offered_once_in_order() {
    let history = vec![chars("b"), chars("a"), chars("b"), chars("ab")];
    let items = search_completions(&history);
    assert_eq!(items, [chars("a"), chars("ab"), chars("b")]);
    assert_eq!(complete_search(&items, &chars("a")), [0, 1]);
    let many: Vec<Vec<char>> = (0..300).map(|n| chars(&format!("{n:03}"))).collect();
    assert_eq!(search_completions(&many).len(), 200);
}

#[test]
fn selections_become_patterns() {
    let text = text("foo a.b foo ");
    let selection =
        Selection::new(vec![Range::new(0, 3), Range::new(4, 7), Range::new(8, 11)], 0);
    assert_eq!(search_selection_impl(&text, &selection, false), "foo|a\\.b");
    assert_eq!(
        search_selection_impl(&text, &selection, true),
        "\\bfoo\\b|\\ba\\.b\\b"
    );
    let part = Selection::single(1, 3);
    assert_eq!(search_selection_impl(&text, &part, true), "oo\\b");
    let all = Selection::single(8, 11);
    let end = self::text("foo a.b foo");
    assert_eq!(search_selection_impl(&end, &all, true), "\\bfoo");
    assert_eq!(register_set_message('/', "foo"), "register '/' set to 'foo'");
}

#[test]
fn searches_are_bounded_to_words_once() {
    let bounded = make_search_word_bounded("foo").unwrap();
    assert_eq!(bounded, "\\bfoo\\b");
    assert_eq!(make_search_word_bounded(&bounded), None);
    assert_eq!(make_search_word_bounded("\\bfoo").unwrap(), "\\bfoo\\b");
}

#[test]
fn searches_of_the_workspace_use_a_register() {
    assert_eq!(global_search(None, "", false, true).0, '/');
    assert_eq!(global_search(Some('a'), "b(", true, true).0, 'a');
    assert_eq!(search_register(None), '/');
    assert_eq!(search_register(Some('x')), 'x');
    assert_eq!(repeated_search_register(None, 's'), 's');
    assert_eq!(repeated_search_register(Some('x'), 's'), 'x');
}

#[test]
fn open_files_are_searched_in_their_buffers() {
    let matcher = global_search(None, "new", true, true).1.unwrap().unwrap();
    let paths = vec![None, Some("/w/a".to_string()), Some("/w/b".to_string())];
    let texts = vec!["new".to_string(), "old\nnew".to_string(), "old".to_string()];
    let search = |path| search_open_file(&matcher, &paths, &texts, path);
    assert_eq!(search("/w/a").unwrap(), vec![span(1, 0, 1, 3)]);
    assert!(search("/w/b").unwrap().is_empty());
    assert!(search("/w/c").is_none());
}
