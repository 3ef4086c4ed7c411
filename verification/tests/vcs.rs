use mitos::commands::vcs::{
    change_column, change_style, changed_file_picker_for_scope, check_scope, diff_status,
    display_path, display_root, goto_first_change_impl, goto_next_change_impl, hunk_range,
    open_failure, reset_diff_change, ChangedFile, ChangedFileScope, FileChange, Hunk,
};
use mitos::range::{Direction, Range};
use mitos::selection::Selection;
use mitos::text::Text;
use mitos::transaction::apply;

fn text(s: &str) -> Text {
    Text::from_chars(s.chars().collect())
}

fn hunk(before_start: u32, before_end: u32, after_start: u32, after_end: u32) -> Hunk {
    Hunk { before_start, before_end, after_start, after_end }
}

fn renamed() -> FileChange {
    FileChange::Renamed { from_path: "a".into(), to_path: "b".into() }
}

#[test]
fn changes_are_listed() {
    assert_eq!(display_path(&renamed()), "a -> b");
    assert_eq!(renamed().path(), "b");
    let deleted = FileChange::Deleted { path: "c".into() };
    assert_eq!(display_path(&deleted), "c");
    assert_eq!(change_column(&deleted, false, Some("X")), "- deleted");
    assert_eq!(change_column(&deleted, true, Some("X ")), "X deleted");
    assert_eq!(change_column(&deleted, true, None), "deleted");
    assert_eq!(change_style(&deleted), "diff.minus");
    assert_eq!(change_style(&renamed()), "diff.delta.moved");
    let untracked = FileChange::Untracked { path: "c".into() };
    assert_eq!(change_column(&untracked, false, None), "+ untracked");
    let conflict = FileChange::Conflict { path: "c".into() };
    assert_eq!(change_column(&conflict, false, None), "x conflict");
    let modified = FileChange::Modified { path: "c".into() };
    assert_eq!(change_column(&modified, false, None), "~ modified");
    assert_eq!(change_column(&renamed(), false, None), "> renamed");
}

#[test]
fn listing_goes_on_after_failures() {
    let found = || ChangedFile::Found {
        change: FileChange::Renamed { from_path: "/tree/a".into(), to_path: "/tree/b".into() },
        shown: renamed(),
    };
    let (entry, more) = changed_file_picker_for_scope(found(), true);
    let (listed, change) = entry.unwrap();
    assert_eq!(listed, "a -> b");
    assert_eq!(change.path(), "/tree/b");
    assert!(more);
    assert!(!changed_file_picker_for_scope(found(), false).1);
    let (entry, more) = changed_file_picker_for_scope(ChangedFile::Failed, false);
    assert!(entry.is_none() && more);
    assert_eq!(check_scope(false).err(), Some("Changed file scope does not exist"));
    assert!(check_scope(true).is_ok());
}

#[test]
fn paths_are_relative_to_the_scope() {
    let root = "/tree".to_string();
    let directory = ChangedFileScope::Directory("/tree/src".into());
    assert_eq!(display_root(&directory, &root), "/tree/src");
    let repository = ChangedFileScope::Repository("/tree/src".into());
    assert_eq!(display_root(&repository, &root), "/tree");
}

#[test]
fn failures_to_open_tell_the_cause() {
    assert_eq!(open_failure(Some("denied"), "/a"), "denied");
    assert_eq!(open_failure(None, "/a"), "unable to open \"/a\"");
}

#[test]
fn hunks_cover_their_lines() {
    let text = text("a\nbb\nc\n");
    assert_eq!(hunk_range(hunk(1, 2, 1, 2), &text), Range::new(2, 5));
    assert_eq!(hunk_range(hunk(1, 2, 1, 1), &text), Range::new(2, 3));
}

#[test]
fn the_first_and_the_last_change_are_selected() {
    let text = text("a\nbb\nc\n");
    let hunks = vec![hunk(0, 1, 0, 1), hunk(2, 3, 2, 3)];
    let first = goto_first_change_impl(&text, &hunks, false).unwrap();
    assert_eq!(first.ranges, [Range::new(0, 2)]);
    let last = goto_first_change_impl(&text, &hunks, true).unwrap();
    assert_eq!(last.ranges, [Range::new(5, 7)]);
    assert!(goto_first_change_impl(&text, &Vec::new(), false).is_none());
}

#[test]
fn changes_are_counted_from_the_cursor() {
    let text = text("a\nbb\nc\n");
    let hunks = vec![hunk(0, 1, 0, 1), hunk(1, 2, 1, 2), hunk(2, 3, 2, 3)];
    let selection = Selection::single(0, 1);
    let go = |found, direction, count, select| {
        goto_next_change_impl(&text, &selection, &hunks, &vec![found], direction, count, select)
            .ranges[0]
    };
    assert_eq!(go(Some(1), Direction::Forward, 1, false), Range::new(2, 5));
    assert_eq!(go(Some(1), Direction::Forward, 9, false), Range::new(5, 7));
    assert_eq!(go(Some(1), Direction::Backward, 9, false), Range::new(2, 0));
    assert_eq!(go(Some(1), Direction::Forward, 1, true), Range::new(0, 5));
    assert_eq!(go(None, Direction::Forward, 1, true), Range::new(0, 1));
}

#[test]
fn resetting_restores_the_base() {
    let base = text("one\ntwo\nthree\nfour\n");
    let changed = text("1\ntwo\nfour\nfive\n");
    let hunks = vec![hunk(0, 1, 0, 1), hunk(2, 3, 2, 2), hunk(4, 4, 3, 4)];
    let (t, status) = reset_diff_change(&changed, Some((&base, &hunks))).ok().unwrap();
    let after: String = apply(&changed.chars, &t.changes).into_iter().collect();
    assert_eq!(after, "one\ntwo\nthree\nfour\n");
    assert_eq!(status, "Reset 3 changes");
    let (_, status) = reset_diff_change(&changed, Some((&base, &vec![hunks[0]]))).ok().unwrap();
    assert_eq!(status, "Reset 1 change");
    assert_eq!(
        reset_diff_change(&changed, Some((&base, &Vec::new()))).err(),
        Some("There are no changes under any selection")
    );
}

#[test]
fn there_may_be_no_diff() {
    let text = Text::from_chars(vec!['a']);
    assert_eq!(
        reset_diff_change(&text, None).err(),
        Some("Diff is not available in the current buffer")
    );
    assert_eq!(diff_status(false), Some("Diff is not available in current buffer"));
    assert_eq!(diff_status(true), None);
}
