use mitos::commands::diagnostics::Diagnostic;
use mitos::commands::textobjects::{
    byte_to_char, report_selected, select_all_textobjects_help, select_all_textobjects_ranges,
    select_all_treesitter_textobject_ranges, select_contained, select_textobject,
    select_textobject_help, syntax_object, textobject_kind, ObjectSources, TextObjectKind,
};
use mitos::commands::vcs::Hunk;
use mitos::range::Range;
use mitos::selection::Selection;
use mitos::text::Text;

fn text(s: &str) -> Text {
    Text::from_chars(s.chars().collect())
}

fn sources(at: Vec<Range>) -> ObjectSources {
    ObjectSources { at, nodes: vec![Vec::new()], hunks: None, diagnostics: Vec::new() }
}

#[test]
fn keys_name_objects() {
    assert_eq!(syntax_object('f'), Some("function"));
    assert_eq!(syntax_object('w'), None);
    assert!(matches!(textobject_kind('w'), TextObjectKind::Word));
    assert!(matches!(textobject_kind('g'), TextObjectKind::Change));
    assert!(matches!(textobject_kind('('), TextObjectKind::Pair('(')));
    assert_eq!(select_textobject_help(true).0, "Match around");
    assert_eq!(select_textobject_help(false).1[0], ("w", "Word"));
    assert_eq!(select_all_textobjects_help(false).0, "Select all inside");
    assert_eq!(select_all_textobjects_help(false).1.len(), 13);
    assert_eq!(report_selected(false), Some("nothing selected"));
    assert_eq!(report_selected(true), None);
}

#[test]
fn objects_inside_a_range_are_selected() {
    let objects = vec![Range::new(0, 2), Range::new(2, 4), Range::new(3, 9)];
    assert_eq!(select_contained(&Range::new(1, 5), &objects), [Range::new(2, 4)]);
    let text = text("äb cd");
    assert_eq!(byte_to_char(&text, 2), Some(1));
    assert_eq!(
        select_all_treesitter_textobject_ranges(&text, &Range::new(0, 5), &vec![(2, 3), (4, 6)]),
        [Range::new(1, 2), Range::new(3, 5)]
    );
}

#[test]
fn all_words_are_selected() {
    let text = text("ab cd");
    let at = vec![
        Range::new(0, 2),
        Range::new(0, 2),
        Range::point(2),
        Range::new(3, 5),
        Range::new(3, 5),
    ];
    let found =
        select_all_textobjects_ranges(&text, &Selection::single(0, 5), 'w', &sources(at.clone()));
    assert_eq!(found.ok().unwrap().unwrap().ranges, [Range::new(0, 2), Range::new(3, 5)]);
    let none = select_all_textobjects_ranges(&text, &Selection::single(2, 3), 'w', &sources(at));
    assert!(none.ok().unwrap().is_none());
}

#[test]
fn changes_need_a_diff() {
    let text = text("ab\ncd\n");
    let all = Selection::single(0, 6);
    let at = vec![Range::point(0); 6];
    assert_eq!(
        select_all_textobjects_ranges(&text, &all, 'g', &sources(at)).err(),
        Some("Diff is not available in current buffer")
    );
    assert_eq!(
        select_textobject(&text, &all, 'g', &vec![Range::point(0)], &None, &Vec::new()).err(),
        Some("Diff is not available in current buffer")
    );
    let hunk = Hunk { before_start: 1, before_end: 2, after_start: 1, after_end: 2 };
    let selected = select_textobject(
        &text,
        &all,
        'g',
        &vec![Range::point(0)],
        &Some(vec![Some(hunk)]),
        &Vec::new(),
    );
    assert_eq!(selected.ok().unwrap().ranges, [Range::new(3, 6)]);
}

#[test]
fn found_objects_are_taken() {
    let text = text("ab cd");
    let selected = select_textobject(
        &text,
        &Selection::point(0),
        'w',
        &vec![Range::new(0, 2)],
        &None,
        &Vec::new(),
    );
    assert_eq!(selected.ok().unwrap().ranges, [Range::new(0, 2)]);
}

#[test]
fn diagnostics_are_objects_too() {
    let text = text("ab cd");
    let finding = |start, end, spelling| Diagnostic {
        start,
        end,
        severity: None,
        code: None,
        source: None,
        message: String::new(),
        spelling,
    };
    let mut sources = sources(vec![Range::point(0); 5]);
    sources.diagnostics = vec![finding(0, 2, true), finding(3, 5, false)];
    let all = Selection::single(0, 5);
    let spelling = select_all_textobjects_ranges(&text, &all, 's', &sources).ok().unwrap();
    assert_eq!(spelling.unwrap().ranges, [Range::new(0, 2)]);
    let found = select_all_textobjects_ranges(&text, &all, 'd', &sources).ok().unwrap();
    assert!(found.unwrap().len() >= 1);
}
