use mitos::commands::links::{
    char_width, fallback_paths, goto_file_impl, path_around_cursor, path_source, paths_of_ranges,
    pick_path, resolved_targets, search_window, selection_overlaps_document_link,
    should_open_url_externally, trim, DocumentLink, PathSource,
};
use mitos::range::Range;
use mitos::text::Text;

fn link(start: usize, end: usize, target: Option<&str>, resolvable: bool) -> DocumentLink {
    DocumentLink { start, end, server: 1, target: target.map(|t| t.to_string()), resolvable }
}

fn text(s: &str) -> Text {
    Text::from_chars(s.chars().collect())
}

#[test]
fn links_come_before_paths() {
    let links = vec![
        link(0, 4, Some("file:///a"), false),
        link(0, 4, Some("file:///a"), false),
        link(10, 14, None, true),
        link(20, 24, Some("file:///z"), false),
    ];
    let ranges = vec![Range::point(2), Range::new(11, 12), Range::new(16, 18)];
    let found = goto_file_impl(&ranges, &links);
    assert_eq!(found.targets, ["file:///a"]);
    assert_eq!(found.requests, [2]);
    assert_eq!(found.fallback, [Range::new(16, 18)]);
}

#[test]
fn ranges_touch_links() {
    let link = link(2, 4, None, false);
    assert!(selection_overlaps_document_link(&Range::point(2), &link));
    assert!(!selection_overlaps_document_link(&Range::new(4, 6), &link));
    assert!(selection_overlaps_document_link(&Range::new(6, 3), &link));
}

#[test]
fn resolved_targets_are_kept_once() {
    let found = vec![Some("a".to_string()), None, Some("a".to_string()), Some("b".to_string())];
    assert_eq!(resolved_targets(&found), ["a", "b"]);
}

#[test]
fn files_of_text_open_inside() {
    assert!(should_open_url_externally("https", None));
    assert!(!should_open_url_externally("file", None));
    assert!(!should_open_url_externally("file", Some(b"text")));
    assert!(should_open_url_externally("file", Some(b"%PDF-1.7")));
    assert!(should_open_url_externally("file", Some(b"a\0b")));
}

#[test]
fn paths_are_looked_for_around_the_cursor() {
    let text = text("see src/main.rs now\n");
    let window = search_window(&text, 6);
    assert!(window.0 <= 6 && 6 <= window.1);
    assert_eq!(pick_path(&vec![(0, 3), (4, 15)], 6), Some(1));
    assert_eq!(pick_path(&vec![(0, 3)], 6), None);
    assert_eq!(path_source(&vec![Range::new(6, 7)]), PathSource::AroundCursor);
    assert_eq!(path_source(&Vec::new()), PathSource::Nowhere);
    assert_eq!(path_source(&vec![Range::new(4, 15)]), PathSource::Ranges);
    let paths = paths_of_ranges(&text, &vec![Range::new(3, 16), Range::new(3, 4)]);
    assert_eq!(paths[0].iter().collect::<String>(), "src/main.rs");
    assert_eq!(paths.len(), 1);
    let found = path_around_cursor(&text, 6, &vec![(0, 3), (4, 15)]);
    let cursor = vec![Range::new(6, 7)];
    let shown = |paths: Vec<Vec<char>>| -> Vec<String> {
        paths.iter().map(|path| path.iter().collect()).collect()
    };
    assert_eq!(shown(fallback_paths(&text, &cursor, found)), ["src/main.rs"]);
    assert!(path_around_cursor(&text, 6, &vec![(0, 3)]).is_none());
    assert_eq!(shown(fallback_paths(&text, &cursor, None)), ["c"]);
    let ranges = vec![Range::new(3, 16), Range::new(3, 4)];
    assert_eq!(shown(fallback_paths(&text, &ranges, None)), ["src/main.rs"]);
    assert_eq!(trim(&vec![' ', 'a', '\t']), ['a']);
    assert_eq!(char_width('ä'), 2);
    assert_eq!(char_width('a'), 1);
    assert_eq!(char_width('€'), 3);
    assert_eq!(char_width('😀'), 4);
}
