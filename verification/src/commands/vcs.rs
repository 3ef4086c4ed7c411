//! Moving between changes, listing changed files, and taking changes back.

use crate::range::{range, Direction, Range};
use crate::selection::Selection;
use crate::strings::{decimal, to_decimal};
use crate::text::{line_start, Text};
use crate::transaction::{
    applied, edits, lemma_edits_push, lemma_valid_push, valid_edits, Change, Edit, Transaction,
};
use vstd::prelude::*;

verus! {

/// How a file differs from what was committed.
pub enum FileChange {
    Untracked { path: String },
    Modified { path: String },
    Conflict { path: String },
    Deleted { path: String },
    Renamed { from_path: String, to_path: String },
}

impl FileChange {
    /// The path that the file has now.
    pub open spec fn current(&self) -> String {
        match self {
            FileChange::Untracked { path } => *path,
            FileChange::Modified { path } => *path,
            FileChange::Conflict { path } => *path,
            FileChange::Deleted { path } => *path,
            FileChange::Renamed { from_path, to_path } => *to_path,
        }
    }

    /// The path that the file has now.
    pub fn path(&self) -> (path: &String)
        ensures
            *path == self.current(),
    {
        match self {
            FileChange::Untracked { path } => path,
            FileChange::Modified { path } => path,
            FileChange::Conflict { path } => path,
            FileChange::Deleted { path } => path,
            FileChange::Renamed { from_path, to_path } => to_path,
        }
    }
}

/// Which changed files are listed: those below a directory, or those of a whole repository.
pub enum ChangedFileScope {
    Directory(String),
    Repository(String),
}

/// The directory to which the listed paths are relative: the scope's own, or the root of the
/// working tree that a file belongs to.
pub fn display_root<'a>(scope: &'a ChangedFileScope, worktree_root: &'a String) -> (root: &'a String)
    ensures
        *root == (match scope {
            ChangedFileScope::Directory(path) => *path,
            ChangedFileScope::Repository(_) => *worktree_root,
        }),
{
    match scope {
        ChangedFileScope::Directory(path) => path,
        ChangedFileScope::Repository(_) => worktree_root,
    }
}

/// How a change is listed, for paths that are given as they are to be shown.
pub open spec fn shown_path(change: FileChange) -> Seq<char> {
    match change {
        FileChange::Renamed { from_path, to_path } => from_path@ + " -> "@ + to_path@,
        _ => change.current()@,
    }
}

/// How a change is listed, for paths that are given as they are to be shown.
pub fn display_path(change: &FileChange) -> (shown: String)
    ensures
        shown@ == shown_path(*change),
{
    match change {
        FileChange::Renamed { from_path, to_path } => {
            let mut shown = from_path.clone();
            shown.append(" -> ");
            shown.append(to_path.as_str());
            shown
        },
        _ => change.path().clone(),
    }
}

/// The word for a change.
pub open spec fn change_label(change: FileChange) -> Seq<char> {
    match change {
        FileChange::Untracked { .. } => "untracked"@,
        FileChange::Modified { .. } => "modified"@,
        FileChange::Conflict { .. } => "conflict"@,
        FileChange::Deleted { .. } => "deleted"@,
        FileChange::Renamed { .. } => "renamed"@,
    }
}

/// The word for a change behind a sign for it.
pub open spec fn plain_label(change: FileChange) -> Seq<char> {
    match change {
        FileChange::Untracked { .. } => "+ untracked"@,
        FileChange::Modified { .. } => "~ modified"@,
        FileChange::Conflict { .. } => "x conflict"@,
        FileChange::Deleted { .. } => "- deleted"@,
        FileChange::Renamed { .. } => "> renamed"@,
    }
}

/// How the kind of a change is shown: with its icon, if icons are on and there is one.
pub fn change_column(change: &FileChange, icons: bool, icon: Option<&str>) -> (content: String)
    ensures
        content@ == (if icons {
            match icon {
                Some(icon) => icon@ + change_label(*change),
                None => change_label(*change),
            }
        } else {
            plain_label(*change)
        }),
{
    let (plain, label) = match change {
        FileChange::Untracked { .. } => ("+ untracked", "untracked"),
        FileChange::Modified { .. } => ("~ modified", "modified"),
        FileChange::Conflict { .. } => ("x conflict", "conflict"),
        FileChange::Deleted { .. } => ("- deleted", "deleted"),
        FileChange::Renamed { .. } => ("> renamed", "renamed"),
    };
    if icons {
        match icon {
            Some(icon) => {
                let mut content = String::from_str(icon);
                content.append(label);
                content
            },
            None => String::from_str(label),
        }
    } else {
        String::from_str(plain)
    }
}

/// The part of the theme that a change is shown with.
pub open spec fn style_of(change: FileChange) -> Seq<char> {
    match change {
        FileChange::Untracked { .. } => "diff.plus"@,
        FileChange::Modified { .. } => "diff.delta"@,
        FileChange::Conflict { .. } => "diff.delta.conflict"@,
        FileChange::Deleted { .. } => "diff.minus"@,
        FileChange::Renamed { .. } => "diff.delta.moved"@,
    }
}

/// The part of the theme that a change is shown with.
pub fn change_style(change: &FileChange) -> (style: &'static str)
    ensures
        style@ == style_of(*change),
{
    match change {
        FileChange::Untracked { .. } => "diff.plus",
        FileChange::Modified { .. } => "diff.delta",
        FileChange::Conflict { .. } => "diff.delta.conflict",
        FileChange::Deleted { .. } => "diff.minus",
        FileChange::Renamed { .. } => "diff.delta.moved",
    }
}

/// Whether the files of a scope can be listed.
pub fn check_scope(scope_exists: bool) -> (checked: Result<(), &'static str>)
    ensures
        checked is Ok <==> scope_exists,
        checked matches Err(m) ==> m@ == "Changed file scope does not exist"@,
{
    if scope_exists {
        Ok(())
    } else {
        Err("Changed file scope does not exist")
    }
}

/// What is told when a changed file cannot be opened: the cause, if it is known.
pub fn open_failure(cause: Option<&str>, path: &str) -> (message: String)
    ensures
        message@ == (match cause {
            Some(cause) => cause@,
            None => "unable to open \""@ + path@ + "\""@,
        }),
{
    match cause {
        Some(cause) => String::from_str(cause),
        None => {
            let mut message = String::from_str("unable to open \"");
            message.append(path);
            message.append("\"");
            message
        },
    }
}

/// What a provider of changed files reports.
pub enum ChangedFile {
    /// A file was found: `change` holds its full paths, `shown` the same change with paths relative
    /// to the directory that `display_root` gives.
    Found { change: FileChange, shown: FileChange },
    Failed,
}

/// One step of listing changed files: the entry to list, if a file was found, and whether to go
/// on. An entry is listed by its relative paths and opened by its full ones. Failures are reported
/// and passed over; the list being closed ends it.
pub fn changed_file_picker_for_scope(report: ChangedFile, list_open: bool) -> (step: (
    Option<(String, FileChange)>,
    bool,
))
    ensures
        report matches ChangedFile::Found { change, shown } ==> (step.0 matches Some(entry)
            && entry.0@ == shown_path(shown) && entry.1 == change) && step.1 == list_open,
        report is Failed ==> step.0 is None && step.1,
{
    match report {
        ChangedFile::Found { change, shown } => (Some((display_path(&shown), change)), list_open),
        ChangedFile::Failed => (None, true),
    }
}

/// Lines that differ: those of the base that were replaced, and those that stand in their place.
#[derive(Clone, Copy, Debug, PartialEq, Eq, Structural)]
pub struct Hunk {
    pub before_start: u32,
    pub before_end: u32,
    pub after_start: u32,
    pub after_end: u32,
}

/// The range of a hunk: the lines that were added or modified; for a deletion the character at the
/// place where it happened.
pub open spec fn range_of_hunk(hunk: Hunk, text: Text) -> Range {
    let anchor = line_start(text@, hunk.after_start as int);
    if hunk.after_start >= hunk.after_end {
        range(anchor, anchor + 1)
    } else {
        range(anchor, line_start(text@, hunk.after_end as int))
    }
}

/// The range of a hunk.
pub fn hunk_range(hunk: Hunk, text: &Text) -> (r: Range)
    requires
        text@.len() < usize::MAX,
    ensures
        r == range_of_hunk(hunk, *text),
{
    let anchor = text.line_to_char(hunk.after_start as usize);
    let head = if hunk.after_start >= hunk.after_end {
        anchor + 1
    } else {
        text.line_to_char(hunk.after_end as usize)
    };
    Range::new(anchor, head)
}

/// Selects the first change, or the last.
pub fn goto_first_change_impl(text: &Text, hunks: &Vec<Hunk>, reverse: bool) -> (selection: Option<
    Selection,
>)
    requires
        text@.len() < usize::MAX,
    ensures
        selection is Some <==> hunks@.len() > 0,
        selection matches Some(s) ==> s.wf() && s.primary_index == 0 && s.ranges@ == seq![
            range_of_hunk(
                if reverse {
                    hunks@[hunks@.len() - 1]
                } else {
                    hunks@[0]
                },
                *text,
            ),
        ],
{
    if hunks.len() == 0 {
        return None;
    }
    let k: usize = if reverse {
        hunks.len() - 1
    } else {
        0
    };
    let r = hunk_range(hunks[k], text);
    Some(Selection::single(r.anchor, r.head))
}

/// The hunk that a motion of `count` changes ends at, when the first change in its direction is
/// number `found`.
pub open spec fn target_hunk(found: Option<u32>, direction: Direction, count: int, hunks: int) -> Option<
    int,
> {
    match found {
        Some(k) => Some(
            match direction {
                Direction::Forward => if k + (count - 1) < hunks - 1 {
                    k + (count - 1)
                } else {
                    hunks - 1
                },
                Direction::Backward => if k >= count - 1 {
                    k - (count - 1)
                } else {
                    0
                },
            },
        ),
        None => None,
    }
}

/// Where a motion between changes takes a range.
pub open spec fn moved_to_change(
    text: Text,
    hunks: Seq<Hunk>,
    r: Range,
    found: Option<u32>,
    direction: Direction,
    count: int,
    select: bool,
) -> Range {
    match target_hunk(found, direction, count, hunks.len() as int) {
        Some(k) => {
            let new = range_of_hunk(hunks[k], text);
            if select {
                range(
                    r.anchor as int,
                    if new.head < r.anchor {
                        new.anchor as int
                    } else {
                        new.head as int
                    },
                )
            } else {
                new.facing(direction)
            }
        },
        None => r,
    }
}

/// What is told when changes are asked for and the document has no diff.
pub fn diff_status(has_diff: bool) -> (status: Option<&'static str>)
    ensures
        status is Some <==> !has_diff,
        status matches Some(m) ==> m@ == "Diff is not available in current buffer"@,
{
    if has_diff {
        None
    } else {
        Some("Diff is not available in current buffer")
    }
}

/// Moves every range by `count` changes. `found` holds the number of the first change that each
/// range has in the direction.
pub fn goto_next_change_impl(
    text: &Text,
    selection: &Selection,
    hunks: &Vec<Hunk>,
    found: &Vec<Option<u32>>,
    direction: Direction,
    count: u32,
    select: bool,
) -> (moved: Selection)
    requires
        text@.len() < usize::MAX,
        selection.wf(),
        found@.len() == selection.ranges@.len(),
        count >= 1,
        forall|i: int|
            0 <= i < found@.len() ==> ((#[trigger] found@[i]) matches Some(k) ==> k < hunks@.len()
                && k + count <= u32::MAX),
    ensures
        moved.wf(),
        moved.holds(
            Seq::new(
                selection.ranges@.len(),
                |i: int|
                    moved_to_change(
                        *text,
                        hunks@,
                        selection.ranges@[i],
                        found@[i],
                        direction,
                        count as int,
                        select,
                    ),
            ),
            selection.primary_index as int,
        ),
{
    let ghost all = Seq::new(
        selection.ranges@.len(),
        |i: int|
            moved_to_change(
                *text,
                hunks@,
                selection.ranges@[i],
                found@[i],
                direction,
                count as int,
                select,
            ),
    );
    let mut ranges: Vec<Range> = Vec::new();
    let mut i: usize = 0;
    while i < selection.ranges.len()
        invariant
            i <= selection.ranges@.len() == found@.len(),
            text@.len() < usize::MAX,
            count >= 1,
            forall|i: int|
                0 <= i < found@.len() ==> ((#[trigger] found@[i]) matches Some(k) ==> k
                    < hunks@.len() && k + count <= u32::MAX),
            ranges@.len() == i,
            forall|j: int|
                0 <= j < i ==> ranges@[j] == moved_to_change(
                    *text,
                    hunks@,
                    selection.ranges@[j],
                    found@[j],
                    direction,
                    count as int,
                    select,
                ),
        decreases selection.ranges.len() - i,
    {
        let r = selection.ranges[i];
        let moved = match found[i] {
            None => r,
            Some(k) => {
                assert(found@[i as int] == Some(k));
                let steps: u32 = count - 1;
                let at: usize = match direction {
                    Direction::Forward => if ((k + steps) as usize) < hunks.len() - 1 {
                        (k + steps) as usize
                    } else {
                        hunks.len() - 1
                    },
                    Direction::Backward => if k >= steps {
                        (k - steps) as usize
                    } else {
                        0
                    },
                };
                let new = hunk_range(hunks[at], text);
                if select {
                    let head = if new.head < r.anchor {
                        new.anchor
                    } else {
                        new.head
                    };
                    Range::new(r.anchor, head)
                } else {
                    new.with_direction(direction)
                }
            },
        };
        ranges.push(moved);
        i += 1;
    }
    assert(ranges@ =~= all);
    Selection::new(ranges, selection.primary_index)
}

/// What taking a hunk back does: its lines give way to those of the base.
pub open spec fn reset_edit(text: Text, base: Text, hunk: Hunk) -> Edit {
    Edit {
        from: line_start(text@, hunk.after_start as int),
        to: line_start(text@, hunk.after_end as int),
        text: base@.subrange(
            line_start(base@, hunk.before_start as int),
            line_start(base@, hunk.before_end as int),
        ),
    }
}

/// Hunks follow one another, and each ends no earlier than it begins.
pub open spec fn hunks_in_order(hunks: Seq<Hunk>) -> bool {
    &&& forall|i: int|
        0 <= i < hunks.len() ==> (#[trigger] hunks[i]).after_start <= hunks[i].after_end
            && hunks[i].before_start <= hunks[i].before_end
    &&& forall|i: int, j: int|
        0 <= i < j < hunks.len() ==> (#[trigger] hunks[i]).after_end <= (
        #[trigger] hunks[j]).after_start
}

/// What taking changes back tells.
pub open spec fn reset_message(n: nat) -> Seq<char> {
    "Reset "@ + decimal(n) + " change"@ + (if n == 1 {
        ""@
    } else {
        "s"@
    })
}

/// Takes changes back. It is an error when there are none.
fn reset_hunks(text: &Text, base: &Text, hunks: &Vec<Hunk>) -> (done: Result<
    (Transaction, String),
    &'static str,
>)
    requires
        hunks_in_order(hunks@),
    ensures
        done is Ok <==> hunks@.len() > 0,
        done matches Ok((t, status)) ==> {
            &&& t.edits() == hunks@.map_values(|h: Hunk| reset_edit(*text, *base, h))
            &&& valid_edits(t.edits(), text@.len() as int)
            &&& t.selection is None
            &&& status@ == reset_message(hunks@.len())
        },
        done matches Err(e) ==> e@ == "There are no changes under any selection"@,
{
    if hunks.len() == 0 {
        return Err("There are no changes under any selection");
    }
    let ghost f = |h: Hunk| reset_edit(*text, *base, h);
    let mut changes: Vec<Change> = Vec::new();
    let mut i: usize = 0;
    assert(edits(changes@) =~= hunks@.take(0).map_values(f));
    while i < hunks.len()
        invariant
            i <= hunks@.len(),
            hunks_in_order(hunks@),
            f == (|h: Hunk| reset_edit(*text, *base, h)),
            edits(changes@) == hunks@.take(i as int).map_values(f),
            valid_edits(edits(changes@), text@.len() as int),
        decreases hunks.len() - i,
    {
        let hunk = hunks[i];
        proof {
            assert(hunks@[i as int].after_start <= hunks@[i as int].after_end);
            crate::text::lemma_line_start_monotonic(
                text@,
                hunk.after_start as int,
                hunk.after_end as int,
            );
            crate::text::lemma_line_start_monotonic(
                base@,
                hunk.before_start as int,
                hunk.before_end as int,
            );
            if i > 0 {
                assert(hunks@[i - 1].after_end <= hunks@[i as int].after_start);
                crate::text::lemma_line_start_monotonic(
                    text@,
                    hunks@[i - 1].after_end as int,
                    hunk.after_start as int,
                );
            }
        }
        let start = base.line_to_char(hunk.before_start as usize);
        let end = base.line_to_char(hunk.before_end as usize);
        let change = Change {
            from: text.line_to_char(hunk.after_start as usize),
            to: text.line_to_char(hunk.after_end as usize),
            text: base.slice(start, end),
        };
        proof {
            assert(change@ =~= reset_edit(*text, *base, hunk));
            lemma_edits_push(changes@, change);
            lemma_valid_push(edits(changes@), change@, text@.len() as int);
            assert(hunks@.take(i + 1) =~= hunks@.take(i as int).push(hunk));
            assert(edits(changes@).push(change@) =~= hunks@.take(i + 1).map_values(f));
        }
        changes.push(change);
        i += 1;
    }
    assert(hunks@.take(i as int) =~= hunks@);
    let mut status = String::from_str("Reset ");
    status.append(to_decimal(i).as_str());
    status.append(" change");
    status.append(
        if i == 1 {
            ""
        } else {
            "s"
        },
    );
    Ok((Transaction { changes, selection: None }, status))
}

/// Takes the changes back that the selection touches. `diff` holds the base of the document and
/// those changes; it is an error when the document has no diff, and when there are no changes.
pub fn reset_diff_change(text: &Text, diff: Option<(&Text, &Vec<Hunk>)>) -> (done: Result<
    (Transaction, String),
    &'static str,
>)
    requires
        diff matches Some((base, hunks)) ==> hunks_in_order(hunks@),
    ensures
        match diff {
            None => done matches Err(e) && e@ == "Diff is not available in the current buffer"@,
            Some((base, hunks)) => if hunks@.len() == 0 {
                done matches Err(e) && e@ == "There are no changes under any selection"@
            } else {
                done matches Ok((t, status)) && t.edits() == hunks@.map_values(
                    |h: Hunk| reset_edit(*text, *base, h),
                ) && valid_edits(t.edits(), text@.len() as int) && t.selection is None && status@
                    == reset_message(hunks@.len())
            },
        },
{
    match diff {
        None => Err("Diff is not available in the current buffer"),
        Some((base, hunks)) => reset_hunks(text, base, hunks),
    }
}

/// The lines of the base that a hunk replaced, as positions in the base.
pub open spec fn replaced(base: Text, hunk: Hunk) -> (int, int) {
    (line_start(base@, hunk.before_start as int), line_start(base@, hunk.before_end as int))
}

/// Two texts are the same but for pieces of each: before the first, between them and behind the
/// last.
pub open spec fn same_outside(
    s: Seq<char>,
    pieces: Seq<(int, int)>,
    t: Seq<char>,
    others: Seq<(int, int)>,
) -> bool {
    if pieces.len() == 0 {
        s == t
    } else {
        &&& s.take(pieces[0].0) == t.take(others[0].0)
        &&& s.skip(pieces.last().1) == t.skip(others.last().1)
        &&& forall|i: int|
            0 < i < pieces.len() ==> s.subrange(pieces[i - 1].1, (#[trigger] pieces[i]).0)
                == t.subrange(others[i - 1].1, others[i].0)
    }
}

/// The places of edits.
pub open spec fn edited(es: Seq<Edit>) -> Seq<(int, int)> {
    es.map_values(|e: Edit| (e.from, e.to))
}

proof fn lemma_edits_restore(
    s: Seq<char>,
    es: Seq<Edit>,
    t: Seq<char>,
    others: Seq<(int, int)>,
)
    requires
        valid_edits(es, s.len() as int),
        es.len() == others.len(),
        forall|i: int|
            0 <= i < others.len() ==> 0 <= (#[trigger] others[i]).0 <= others[i].1 <= t.len(),
        forall|i: int, j: int|
            0 <= i < j < others.len() ==> (#[trigger] others[i]).1 <= (#[trigger] others[j]).0,
        forall|i: int|
            0 <= i < es.len() ==> (#[trigger] es[i]).text == t.subrange(others[i].0, others[i].1),
        same_outside(s, edited(es), t, others),
    ensures
        applied(s, es) == t,
    decreases es.len(),
{
    if es.len() > 0 {
        let n = es.len() - 1;
        let last = es[n];
        let other = others[n];
        let s2 = s.take(last.from);
        let t2 = t.take(other.0);
        let es2 = es.drop_last();
        let others2 = others.drop_last();
        assert(edited(es)[n] == (last.from, last.to));
        assert forall|i: int| 0 <= i < es2.len() implies 0 <= (#[trigger] es2[i]).from
            <= es2[i].to <= s2.len() by {
            assert(es[i].to <= es[n].from);
        }
        assert forall|i: int| 0 <= i < others2.len() implies 0 <= (#[trigger] others2[i]).0
            <= others2[i].1 <= t2.len() by {
            assert(others[i].1 <= others[n].0);
        }
        assert forall|i: int| 0 <= i < es2.len() implies (#[trigger] es2[i]).text == t2.subrange(
            others2[i].0,
            others2[i].1,
        ) by {
            assert(es[i].text == t.subrange(others[i].0, others[i].1));
            assert(others[i].1 <= others[n].0);
            assert(t2.subrange(others2[i].0, others2[i].1) =~= t.subrange(
                others[i].0,
                others[i].1,
            ));
        }
        if n == 0 {
            assert(edited(es)[0] == (last.from, last.to));
            assert(s2 == t2);
        } else {
            assert(edited(es)[0] == (es[0].from, es[0].to));
            assert(edited(es2)[0] == (es[0].from, es[0].to));
            assert(es[0].to <= es[n].from);
            assert(others[0].1 <= others[n].0);
            assert(s2.take(es[0].from) =~= s.take(es[0].from));
            assert(t2.take(others[0].0) =~= t.take(others[0].0));
            assert(edited(es)[n - 1] == (es[n - 1].from, es[n - 1].to));
            assert(edited(es2).last() == (es[n - 1].from, es[n - 1].to));
            assert(es[n - 1].to <= es[n].from);
            assert(others[n - 1].1 <= others[n].0);
            assert(s2.skip(es[n - 1].to) =~= s.subrange(es[n - 1].to, es[n].from));
            assert(t2.skip(others[n - 1].1) =~= t.subrange(others[n - 1].1, others[n].0));
            assert forall|i: int| 0 < i < edited(es2).len() implies s2.subrange(
                edited(es2)[i - 1].1,
                (#[trigger] edited(es2)[i]).0,
            ) == t2.subrange(others2[i - 1].1, others2[i].0) by {
                assert(edited(es)[i] == (es[i].from, es[i].to));
                assert(edited(es)[i - 1] == (es[i - 1].from, es[i - 1].to));
                assert(es[i].to <= es[n].from);
                assert(es[i - 1].to <= es[i].from);
                assert(others[i].1 <= others[n].0);
                assert(others[i - 1].1 <= others[i].0);
                assert(s2.subrange(es[i - 1].to, es[i].from) =~= s.subrange(
                    es[i - 1].to,
                    es[i].from,
                ));
                assert(t2.subrange(others[i - 1].1, others[i].0) =~= t.subrange(
                    others[i - 1].1,
                    others[i].0,
                ));
            }
        }
        lemma_edits_restore(s2, es2, t2, others2);
        assert(es.last() == last);
        assert(t2 + t.subrange(other.0, other.1) + t.skip(other.1) =~= t);
    }
}

/// Taking back all changes gives back the base: where the text differs from the base in some hunks
/// alone, the text after their reset is the base.
pub proof fn resetting_every_change_restores_the_base(text: Text, base: Text, hunks: Seq<Hunk>)
    requires
        hunks_in_order(hunks),
        forall|i: int, j: int|
            0 <= i < j < hunks.len() ==> (#[trigger] hunks[i]).before_end <= (
            #[trigger] hunks[j]).before_start,
        same_outside(
            text@,
            edited(hunks.map_values(|h: Hunk| reset_edit(text, base, h))),
            base@,
            hunks.map_values(|h: Hunk| replaced(base, h)),
        ),
    ensures
        applied(text@, hunks.map_values(|h: Hunk| reset_edit(text, base, h))) == base@,
{
    let es = hunks.map_values(|h: Hunk| reset_edit(text, base, h));
    let others = hunks.map_values(|h: Hunk| replaced(base, h));
    assert forall|i: int| 0 <= i < es.len() implies 0 <= (#[trigger] es[i]).from <= es[i].to
        <= text@.len() by {
        assert(hunks[i].after_start <= hunks[i].after_end);
        crate::text::lemma_line_start_monotonic(
            text@,
            hunks[i].after_start as int,
            hunks[i].after_end as int,
        );
    }
    assert forall|i: int, j: int| 0 <= i < j < es.len() implies (#[trigger] es[i]).to <= (
    #[trigger] es[j]).from by {
        assert(hunks[i].after_end <= hunks[j].after_start);
        crate::text::lemma_line_start_monotonic(
            text@,
            hunks[i].after_end as int,
            hunks[j].after_start as int,
        );
    }
    assert forall|i: int| 0 <= i < others.len() implies 0 <= (#[trigger] others[i]).0 <= others[i].1
        <= base@.len() by {
        assert(hunks[i].before_start <= hunks[i].before_end);
        crate::text::lemma_line_start_monotonic(
            base@,
            hunks[i].before_start as int,
            hunks[i].before_end as int,
        );
    }
    assert forall|i: int, j: int| 0 <= i < j < others.len() implies (#[trigger] others[i]).1 <= (
    #[trigger] others[j]).0 by {
        assert(hunks[i].before_end <= hunks[j].before_start);
        crate::text::lemma_line_start_monotonic(
            base@,
            hunks[i].before_end as int,
            hunks[j].before_start as int,
        );
    }
    lemma_edits_restore(text@, es, base@, others);
}

/// A renamed file is shown by both of its paths and found by the new one; every other file is shown
/// by the path it is found by.
pub proof fn renamed_files_are_shown_by_both_paths(change: FileChange)
    ensures
        match change {
            FileChange::Renamed { from_path, to_path } => change.current() == to_path && shown_path(
                change,
            ) == from_path@ + " -> "@ + to_path@,
            FileChange::Untracked { path } | FileChange::Modified { path }
            | FileChange::Conflict { path } | FileChange::Deleted { path } => change.current() == path
                && shown_path(change) == path@,
        },
{
}

/// The label without icons is the word for the change behind a sign and a space; no two kinds of
/// changes have the same sign.
pub proof fn labels_carry_a_sign(a: FileChange, b: FileChange)
    ensures
        plain_label(a).len() > 2,
        plain_label(a)[1] == ' ',
        plain_label(a).skip(2) == change_label(a),
        plain_label(a)[0] == plain_label(b)[0] ==> change_label(a) == change_label(b),
        a is Untracked ==> plain_label(a)[0] == '+',
        a is Deleted ==> plain_label(a)[0] == '-',
{
    reveal_strlit("untracked");
    reveal_strlit("modified");
    reveal_strlit("conflict");
    reveal_strlit("deleted");
    reveal_strlit("renamed");
    reveal_strlit("+ untracked");
    reveal_strlit("~ modified");
    reveal_strlit("x conflict");
    reveal_strlit("- deleted");
    reveal_strlit("> renamed");
    assert(plain_label(a).skip(2) =~= change_label(a));
}

/// The range of a change covers the lines that were added or modified, from the beginning of the
/// first to the end of the last; where lines were only taken away it is one character wide.
pub proof fn changes_cover_their_lines(hunk: Hunk, text: Text)
    requires
        text@.len() < usize::MAX,
        hunk.after_start <= crate::text::newlines(text@),
        hunk.after_end <= crate::text::newlines(text@),
    ensures
        ({
            let s = text@;
            let r = range_of_hunk(hunk, text);
            &&& r.anchor < r.head
            &&& crate::text::newlines(s.take(r.anchor as int)) == hunk.after_start
            &&& r.anchor == 0 || s[r.anchor - 1] == '\n'
            &&& hunk.after_start < hunk.after_end ==> crate::text::newlines(s.take(r.head as int))
                == hunk.after_end && s[r.head - 1] == '\n'
            &&& hunk.after_start >= hunk.after_end ==> r.head == r.anchor + 1
        }),
{
    let s = text@;
    crate::text::lines_lie_between_line_feeds(s, hunk.after_start as int);
    crate::text::lines_lie_between_line_feeds(s, hunk.after_end as int);
    if hunk.after_start < hunk.after_end {
        crate::text::lemma_line_start_monotonic(s, hunk.after_start + 1, hunk.after_end as int);
    }
}

/// One step goes to the change that was found, and each further one to the change next to it, until
/// the first or the last one is reached.
pub proof fn steps_go_from_change_to_change(
    found: u32,
    direction: Direction,
    count: int,
    hunks: int,
)
    requires
        0 <= found < hunks,
        count >= 1,
    ensures
        target_hunk(Some(found), direction, 1, hunks) == Some(found as int),
        target_hunk(None, direction, count, hunks) is None,
        ({
            let here = target_hunk(Some(found), direction, count, hunks)->0;
            let next = target_hunk(Some(found), direction, count + 1, hunks)->0;
            &&& 0 <= here < hunks
            &&& match direction {
                Direction::Forward => next == (if here + 1 < hunks {
                    here + 1
                } else {
                    here
                }),
                Direction::Backward => next == (if here > 0 {
                    here - 1
                } else {
                    0
                }),
            }
        }),
{
}

/// A motion selects the change it ends at, facing the way it went; while selecting, the anchor
/// stays and the range reaches over the change. Where there is no change the range stays.
pub proof fn changes_are_selected(
    text: Text,
    hunks: Seq<Hunk>,
    r: Range,
    found: Option<u32>,
    direction: Direction,
    count: int,
)
    requires
        text@.len() < usize::MAX,
        forall|i: int|
            0 <= i < hunks.len() ==> (#[trigger] hunks[i]).after_end <= crate::text::newlines(text@)
                && hunks[i].after_start <= crate::text::newlines(text@),
        found matches Some(k) ==> k < hunks.len(),
        count >= 1,
    ensures
        match target_hunk(found, direction, count, hunks.len() as int) {
            Some(k) => {
                let t = range_of_hunk(hunks[k], text);
                let moved = moved_to_change(text, hunks, r, found, direction, count, false);
                let selected = moved_to_change(text, hunks, r, found, direction, count, true);
                &&& moved.lo() == t.lo() && moved.hi() == t.hi() && moved.faces() == direction
                &&& selected.anchor == r.anchor
                &&& r.anchor <= t.lo() || t.hi() < r.anchor ==> selected.lo() <= t.lo() && t.hi()
                    <= selected.hi()
            },
            None => moved_to_change(text, hunks, r, found, direction, count, false) == r
                && moved_to_change(text, hunks, r, found, direction, count, true) == r,
        },
{
    if found is Some {
        steps_go_from_change_to_change(found->0, direction, count, hunks.len() as int);
        let k = target_hunk(found, direction, count, hunks.len() as int)->0;
        assert(hunks[k].after_end <= crate::text::newlines(text@));
        changes_cover_their_lines(hunks[k], text);
    }
}

} // verus!
