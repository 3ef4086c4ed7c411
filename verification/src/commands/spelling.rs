//! Moving between misspelled words, and the languages that spelling is checked in.

use crate::commands::catalog::same_text;
use crate::commands::diagnostics::Diagnostic;
use crate::commands::links::string_views;
use crate::range::{range, Direction, Range};
use crate::selection::Selection;
use crate::text::Text;
use vstd::prelude::*;

verus! {

/// The ranges of the misspelled words, among the first `n` diagnostics.
pub open spec fn misspelled(diagnostics: Seq<Diagnostic>, n: nat) -> Seq<Range>
    decreases n,
{
    if n == 0 {
        Seq::empty()
    } else {
        let before = misspelled(diagnostics, (n - 1) as nat);
        let d = diagnostics[n - 1];
        if d.spelling {
            before.push(Range { anchor: d.start, head: d.end })
        } else {
            before
        }
    }
}

/// The ranges of the misspelled words.
pub fn spelling_ranges(diagnostics: &Vec<Diagnostic>) -> (ranges: Vec<Range>)
    ensures
        ranges@ == misspelled(diagnostics@, diagnostics@.len()),
{
    let mut ranges: Vec<Range> = Vec::new();
    let mut i: usize = 0;
    while i < diagnostics.len()
        invariant
            i <= diagnostics@.len(),
            ranges@ == misspelled(diagnostics@, i as nat),
        decreases diagnostics.len() - i,
    {
        if diagnostics[i].spelling {
            ranges.push(Range::new(diagnostics[i].start, diagnostics[i].end));
        }
        i += 1;
    }
    ranges
}

/// The words that begin behind the cursor.
pub open spec fn ahead(targets: Seq<Range>, cursor: int) -> Seq<Range>
    decreases targets.len(),
{
    if targets.len() == 0 {
        Seq::empty()
    } else {
        let before = ahead(targets.drop_last(), cursor);
        if targets.last().lo() > cursor {
            before.push(targets.last())
        } else {
            before
        }
    }
}

/// The words that end at or before the cursor.
pub open spec fn behind(targets: Seq<Range>, cursor: int) -> Seq<Range>
    decreases targets.len(),
{
    if targets.len() == 0 {
        Seq::empty()
    } else {
        let before = behind(targets.drop_last(), cursor);
        if targets.last().hi() <= cursor {
            before.push(targets.last())
        } else {
            before
        }
    }
}

/// The word that a motion of `count` words ends at; one that would go too far ends at the last
/// word in its direction.
pub open spec fn spelling_target(
    targets: Seq<Range>,
    cursor: int,
    direction: Direction,
    count: int,
) -> Option<Range> {
    match direction {
        Direction::Forward => {
            let found = ahead(targets, cursor);
            if found.len() == 0 || count <= 0 {
                None
            } else if count <= found.len() {
                Some(found[count - 1])
            } else {
                Some(found.last())
            }
        },
        Direction::Backward => {
            let found = behind(targets, cursor);
            if found.len() == 0 || count <= 0 {
                None
            } else if count <= found.len() {
                Some(found[found.len() - count])
            } else {
                Some(found[0])
            }
        },
    }
}

fn find_target(targets: &Vec<Range>, cursor: usize, direction: Direction, count: usize) -> (target:
    Option<Range>)
    ensures
        target == spelling_target(targets@, cursor as int, direction, count as int),
{
    let mut found: Vec<Range> = Vec::new();
    let mut i: usize = 0;
    assert(targets@.take(0) =~= Seq::<Range>::empty());
    while i < targets.len()
        invariant
            i <= targets@.len(),
            found@ == (match direction {
                Direction::Forward => ahead(targets@.take(i as int), cursor as int),
                Direction::Backward => behind(targets@.take(i as int), cursor as int),
            }),
        decreases targets.len() - i,
    {
        assert(targets@.take(i + 1).drop_last() =~= targets@.take(i as int));
        let r = targets[i];
        let taken: bool = match direction {
            Direction::Forward => r.from() > cursor,
            Direction::Backward => r.to() <= cursor,
        };
        if taken {
            found.push(r);
        }
        i += 1;
    }
    assert(targets@.take(i as int) =~= targets@);
    let n = found.len();
    if n == 0 || count == 0 {
        return None;
    }
    match direction {
        Direction::Forward => if count <= n {
            Some(found[count - 1])
        } else {
            Some(found[n - 1])
        },
        Direction::Backward => if count <= n {
            Some(found[n - count])
        } else {
            Some(found[0])
        },
    }
}

/// Where a motion between misspelled words takes a range. While selecting, the anchor stays and
/// the word comes under the range.
pub open spec fn moved_to_word(
    text: Text,
    r: Range,
    targets: Seq<Range>,
    direction: Direction,
    count: int,
    select: bool,
) -> Range {
    match spelling_target(targets, r.cursor_in(text), direction, count) {
        Some(target) => if select {
            range(
                r.anchor as int,
                if target.hi() <= r.anchor {
                    target.lo()
                } else {
                    target.hi()
                },
            )
        } else {
            target.facing(direction)
        },
        None => r,
    }
}

/// Moves every range by `count` misspelled words. There is no selection to set when nothing
/// moved.
pub fn goto_spelling(
    text: &Text,
    selection: &Selection,
    diagnostics: &Vec<Diagnostic>,
    direction: Direction,
    count: usize,
    select: bool,
) -> (moved: Option<Selection>)
    requires
        text.wf(),
        selection.wf(),
    ensures
        ({
            let targets = misspelled(diagnostics@, diagnostics@.len());
            let ranges = selection.ranges@.map_values(
                |r: Range| moved_to_word(*text, r, targets, direction, count as int, select),
            );
            let primary = selection.primary_index as int;
            match moved {
                Some(s) => s.wf() && s.holds(ranges, primary) && (s.ranges@ != selection.ranges@
                    || s.primary_index != selection.primary_index),
                None => crate::selection::normal_ranges(ranges) == selection.ranges@
                    && crate::selection::normal_primary(ranges, primary) == primary,
            }
        }),
{
    let targets = spelling_ranges(diagnostics);
    let ghost f = |r: Range|
        moved_to_word(*text, r, targets@, direction, count as int, select);
    let mut ranges: Vec<Range> = Vec::new();
    let mut i: usize = 0;
    while i < selection.ranges.len()
        invariant
            i <= selection.ranges@.len(),
            text.wf(),
            ranges@.len() == i,
            forall|j: int|
                0 <= j < i ==> ranges@[j] == moved_to_word(
                    *text,
                    selection.ranges@[j],
                    targets@,
                    direction,
                    count as int,
                    select,
                ),
        decreases selection.ranges.len() - i,
    {
        let r = selection.ranges[i];
        let moved = match find_target(&targets, r.cursor(text), direction, count) {
            Some(target) => if select {
                let head = if target.to() <= r.anchor {
                    target.from()
                } else {
                    target.to()
                };
                Range::new(r.anchor, head)
            } else {
                target.with_direction(direction)
            },
            None => r,
        };
        ranges.push(moved);
        i += 1;
    }
    assert(ranges@ =~= selection.ranges@.map_values(f));
    let s = Selection::new(ranges, selection.primary_index);
    if s.same(selection) {
        None
    } else {
        Some(s)
    }
}

/// What the command for the spelling languages of a buffer does.
#[derive(Clone, Copy, Debug, PartialEq, Eq, Structural)]
pub enum SpellingAction {
    /// Reports the languages.
    Report,
    /// Turns checking off.
    Off,
    /// Checks in the languages that are named.
    Languages,
}

/// What the command for the spelling languages of a buffer does.
pub fn spelling_language(args: &Vec<String>) -> (action: SpellingAction)
    ensures
        action == (if args@.len() == 0 {
            SpellingAction::Report
        } else if args@.len() == 1 && args@[0]@ == "off"@ {
            SpellingAction::Off
        } else {
            SpellingAction::Languages
        }),
{
    if args.len() == 0 {
        SpellingAction::Report
    } else if args.len() == 1 && same_text(args[0].as_str(), "off") {
        SpellingAction::Off
    } else {
        SpellingAction::Languages
    }
}

/// Strings joined by a separator.
pub open spec fn joined_by(parts: Seq<Seq<char>>, separator: Seq<char>) -> Seq<char>
    decreases parts.len(),
{
    if parts.len() == 0 {
        Seq::empty()
    } else if parts.len() == 1 {
        parts[0]
    } else {
        joined_by(parts.drop_last(), separator) + separator + parts.last()
    }
}

/// Joins strings by a separator.
pub fn join(parts: &Vec<String>, separator: &str) -> (out: String)
    ensures
        out@ == joined_by(string_views(parts@), separator@),
{
    let ghost all = string_views(parts@);
    let mut out = String::new();
    let mut i: usize = 0;
    assert(all.take(0) =~= Seq::<Seq<char>>::empty());
    while i < parts.len()
        invariant
            i <= parts@.len(),
            all == string_views(parts@),
            out@ == joined_by(all.take(i as int), separator@),
        decreases parts.len() - i,
    {
        assert(all.take(i + 1).drop_last() =~= all.take(i as int));
        if i > 0 {
            out.append(separator);
        }
        out.append(parts[i].as_str());
        assert(out@ =~= joined_by(all.take(i + 1), separator@));
        i += 1;
    }
    assert(all.take(i as int) =~= all);
    out
}

/// Reports the spelling languages of a buffer.
pub fn report_spelling_languages(languages: &Vec<String>) -> (status: String)
    ensures
        status@ == (if languages@.len() == 0 {
            "off"@
        } else {
            joined_by(string_views(languages@), ", "@)
        }),
{
    if languages.len() == 0 {
        String::from_str("off")
    } else {
        join(languages, ", ")
    }
}

/// The misspelled words are the ranges of the diagnostics on spelling, and of no others.
pub proof fn misspelled_words_are_reported(diagnostics: Seq<Diagnostic>, n: nat, r: Range)
    requires
        n <= diagnostics.len(),
    ensures
        misspelled(diagnostics, n).contains(r) <==> exists|i: int|
            0 <= i < n && (#[trigger] diagnostics[i]).spelling && diagnostics[i].start == r.anchor
                && diagnostics[i].end == r.head,
    decreases n,
{
    if n > 0 {
        let m = (n - 1) as nat;
        misspelled_words_are_reported(diagnostics, m, r);
        let a = misspelled(diagnostics, m);
        let b = misspelled(diagnostics, n);
        if b.len() > a.len() {
            assert(b[a.len() as int] == b.last());
        }
        if a.contains(r) {
            let k = choose|k: int| 0 <= k < a.len() && a[k] == r;
            assert(b[k] == r);
        } else if b.contains(r) {
            let k = choose|k: int| 0 <= k < b.len() && b[k] == r;
            if k < a.len() {
                assert(a[k] == r);
            }
        }
        if exists|i: int|
            0 <= i < n && (#[trigger] diagnostics[i]).spelling && diagnostics[i].start == r.anchor
                && diagnostics[i].end == r.head {
            let i = choose|i: int|
                0 <= i < n && (#[trigger] diagnostics[i]).spelling && diagnostics[i].start
                    == r.anchor && diagnostics[i].end == r.head;
            if i == n - 1 {
                assert(b.last() == r);
            }
        }
    }
}

/// Words in the order of the text, none of which reaches into the next.
pub open spec fn words_in_order(targets: Seq<Range>) -> bool {
    forall|i: int, j: int|
        0 <= i < j < targets.len() ==> (#[trigger] targets[i]).lo() < (#[trigger] targets[j]).lo()
            && targets[i].hi() < targets[j].hi()
}

proof fn lemma_words_before(targets: Seq<Range>)
    requires
        words_in_order(targets),
        targets.len() > 0,
    ensures
        words_in_order(targets.drop_last()),
        forall|i: int|
            0 <= i < targets.len() - 1 ==> (#[trigger] targets.drop_last()[i]).lo()
                < targets.last().lo() && targets.drop_last()[i].hi() < targets.last().hi(),
{
    let front = targets.drop_last();
    assert forall|i: int, j: int| 0 <= i < j < front.len() implies (#[trigger] front[i]).lo() < (
    #[trigger] front[j]).lo() && front[i].hi() < front[j].hi() by {
        assert(targets[i].lo() < targets[j].lo());
    }
    assert forall|i: int| 0 <= i < front.len() implies (#[trigger] front[i]).lo()
        < targets.last().lo() && front[i].hi() < targets.last().hi() by {
        assert(targets[i].lo() < targets[targets.len() - 1].lo());
    }
}

proof fn lemma_ahead_members(targets: Seq<Range>, cursor: int)
    ensures
        forall|k: int|
            0 <= k < ahead(targets, cursor).len() ==> targets.contains(
                #[trigger] ahead(targets, cursor)[k],
            ) && ahead(targets, cursor)[k].lo() > cursor,
        forall|i: int|
            0 <= i < targets.len() && (#[trigger] targets[i]).lo() > cursor ==> ahead(
                targets,
                cursor,
            ).contains(targets[i]),
        forall|k: int|
            0 <= k < behind(targets, cursor).len() ==> targets.contains(
                #[trigger] behind(targets, cursor)[k],
            ) && behind(targets, cursor)[k].hi() <= cursor,
        forall|i: int|
            0 <= i < targets.len() && (#[trigger] targets[i]).hi() <= cursor ==> behind(
                targets,
                cursor,
            ).contains(targets[i]),
    decreases targets.len(),
{
    if targets.len() > 0 {
        let front = targets.drop_last();
        let last = targets.last();
        lemma_ahead_members(front, cursor);
        assert(targets[targets.len() - 1] == last);
        let (a, b) = (ahead(front, cursor), ahead(targets, cursor));
        assert forall|k: int| 0 <= k < b.len() implies targets.contains(#[trigger] b[k])
            && b[k].lo() > cursor by {
            if k < a.len() {
                assert(b[k] == a[k]);
                let i = choose|i: int| 0 <= i < front.len() && front[i] == a[k];
                assert(targets[i] == a[k]);
            }
        }
        assert forall|i: int| 0 <= i < targets.len() && (#[trigger] targets[i]).lo() > cursor implies
            b.contains(targets[i]) by {
            if i < front.len() {
                assert(front[i] == targets[i]);
                let k = choose|k: int| 0 <= k < a.len() && a[k] == front[i];
                assert(b[k] == targets[i]);
            } else {
                assert(b[a.len() as int] == last);
            }
        }
        let (c, d) = (behind(front, cursor), behind(targets, cursor));
        assert forall|k: int| 0 <= k < d.len() implies targets.contains(#[trigger] d[k])
            && d[k].hi() <= cursor by {
            if k < c.len() {
                assert(d[k] == c[k]);
                let i = choose|i: int| 0 <= i < front.len() && front[i] == c[k];
                assert(targets[i] == c[k]);
            }
        }
        assert forall|i: int| 0 <= i < targets.len() && (#[trigger] targets[i]).hi() <= cursor implies
            d.contains(targets[i]) by {
            if i < front.len() {
                assert(front[i] == targets[i]);
                let k = choose|k: int| 0 <= k < c.len() && c[k] == front[i];
                assert(d[k] == targets[i]);
            } else {
                assert(d[c.len() as int] == last);
            }
        }
    }
}

proof fn lemma_ahead_of(targets: Seq<Range>, cursor: int, n: int)
    requires
        words_in_order(targets),
        1 <= n <= ahead(targets, cursor).len(),
    ensures
        ahead(targets, ahead(targets, cursor)[n - 1].lo()) == ahead(targets, cursor).skip(n),
    decreases targets.len(),
{
    let front = targets.drop_last();
    let last = targets.last();
    lemma_words_before(targets);
    let (a, b) = (ahead(front, cursor), ahead(targets, cursor));
    lemma_ahead_members(front, cursor);
    if n <= a.len() {
        lemma_ahead_of(front, cursor, n);
        assert(b[n - 1] == a[n - 1]);
        let i = choose|i: int| 0 <= i < front.len() && front[i] == a[n - 1];
        assert(front[i].lo() < last.lo());
        assert(b.skip(n) =~= a.skip(n).push(last));
    } else {
        assert(b[n - 1] == last);
        lemma_ahead_members(front, last.lo());
        let rest = ahead(front, last.lo());
        if rest.len() > 0 {
            let i = choose|i: int| 0 <= i < front.len() && front[i] == rest[0];
            assert(front[i].lo() < last.lo());
        }
        assert(rest =~= Seq::<Range>::empty());
        assert(b.skip(n) =~= Seq::<Range>::empty());
    }
}

/// A motion forward ends at a misspelled word that begins behind the cursor, the nearest for one
/// step; a further step goes to the word after it, as long as there is one. There is no motion
/// where no word begins behind the cursor. Motions backward end at a word before the cursor, the
/// nearest for one step.
pub proof fn motions_end_at_the_nearest_words(targets: Seq<Range>, cursor: int, count: int)
    requires
        words_in_order(targets),
        count >= 1,
    ensures
        match spelling_target(targets, cursor, Direction::Forward, count) {
            Some(t) => targets.contains(t) && t.lo() > cursor && (count == 1 ==> forall|i: int|
                0 <= i < targets.len() && (#[trigger] targets[i]).lo() > cursor ==> t.lo()
                    <= targets[i].lo()) && match spelling_target(
                targets,
                t.lo(),
                Direction::Forward,
                1,
            ) {
                Some(next) => spelling_target(targets, cursor, Direction::Forward, count + 1)
                    == Some(next),
                None => spelling_target(targets, cursor, Direction::Forward, count + 1) == Some(t),
            },
            None => forall|i: int| 0 <= i < targets.len() ==> (#[trigger] targets[i]).lo() <= cursor,
        },
        match spelling_target(targets, cursor, Direction::Backward, count) {
            Some(t) => targets.contains(t) && t.hi() <= cursor && (count == 1 ==> forall|i: int|
                0 <= i < targets.len() && (#[trigger] targets[i]).hi() <= cursor ==> targets[i].hi()
                    <= t.hi()),
            None => forall|i: int| 0 <= i < targets.len() ==> (#[trigger] targets[i]).hi() > cursor,
        },
{
    lemma_ahead_members(targets, cursor);
    lemma_filters_rise(targets, cursor);
    let found = ahead(targets, cursor);
    if found.len() > 0 {
        let k = if count <= found.len() {
            count
        } else {
            found.len() as int
        };
        assert(targets.contains(found[k - 1]));
        lemma_ahead_of(targets, cursor, k);
        if count == 1 {
            assert forall|i: int| 0 <= i < targets.len() && (#[trigger] targets[i]).lo() > cursor implies
                found[0].lo() <= targets[i].lo() by {
                let j = choose|j: int| 0 <= j < found.len() && found[j] == targets[i];
                if j > 0 {
                    assert(found[0].lo() < found[j].lo());
                }
            }
        }
    }
    let back = behind(targets, cursor);
    if back.len() > 0 {
        let k = if count <= back.len() {
            back.len() - count
        } else {
            0
        };
        assert(targets.contains(back[k]));
        if count == 1 {
            assert forall|i: int| 0 <= i < targets.len() && (#[trigger] targets[i]).hi() <= cursor implies
                targets[i].hi() <= back[k].hi() by {
                let j = choose|j: int| 0 <= j < back.len() && back[j] == targets[i];
                if j < k {
                    assert(back[j].hi() < back[k].hi());
                }
            }
        }
    }
}

proof fn lemma_filters_rise(targets: Seq<Range>, cursor: int)
    requires
        words_in_order(targets),
    ensures
        words_in_order(ahead(targets, cursor)),
        words_in_order(behind(targets, cursor)),
    decreases targets.len(),
{
    if targets.len() > 0 {
        let front = targets.drop_last();
        let last = targets.last();
        lemma_words_before(targets);
        lemma_filters_rise(front, cursor);
        lemma_ahead_members(front, cursor);
        let (a, b) = (ahead(front, cursor), ahead(targets, cursor));
        assert forall|i: int, j: int| 0 <= i < j < b.len() implies (#[trigger] b[i]).lo() < (
        #[trigger] b[j]).lo() && b[i].hi() < b[j].hi() by {
            assert(b[i] == a[i]);
            if j < a.len() {
                assert(a[i].lo() < a[j].lo());
            } else {
                let k = choose|k: int| 0 <= k < front.len() && front[k] == a[i];
                assert(front[k].lo() < last.lo());
            }
        }
        let (c, d) = (behind(front, cursor), behind(targets, cursor));
        assert forall|i: int, j: int| 0 <= i < j < d.len() implies (#[trigger] d[i]).lo() < (
        #[trigger] d[j]).lo() && d[i].hi() < d[j].hi() by {
            assert(d[i] == c[i]);
            if j < c.len() {
                assert(c[i].lo() < c[j].lo());
            } else {
                let k = choose|k: int| 0 <= k < front.len() && front[k] == c[i];
                assert(front[k].lo() < last.lo());
            }
        }
    }
}

/// A motion selects the word it ends at, facing the way it went; while selecting, the anchor stays
/// and the range reaches over the word. Where there is no word the range stays.
pub proof fn words_are_selected(
    text: Text,
    r: Range,
    targets: Seq<Range>,
    direction: Direction,
    count: int,
)
    ensures
        match spelling_target(targets, r.cursor_in(text), direction, count) {
            Some(t) => {
                let moved = moved_to_word(text, r, targets, direction, count, false);
                let selected = moved_to_word(text, r, targets, direction, count, true);
                &&& moved.lo() == t.lo() && moved.hi() == t.hi()
                &&& t.lo() < t.hi() ==> moved.faces() == direction
                &&& selected.anchor == r.anchor
                &&& r.anchor <= t.lo() || t.hi() <= r.anchor ==> selected.lo() <= t.lo() && t.hi()
                    <= selected.hi()
            },
            None => moved_to_word(text, r, targets, direction, count, false) == r
                && moved_to_word(text, r, targets, direction, count, true) == r,
        },
{
}

/// Joined strings stand one after the other with the separator between each two.
pub proof fn strings_are_joined_by_the_separator(
    parts: Seq<Seq<char>>,
    last: Seq<char>,
    separator: Seq<char>,
)
    requires
        parts.len() > 0,
    ensures
        joined_by(seq![last], separator) == last,
        joined_by(parts.push(last), separator) == joined_by(parts, separator) + separator + last,
{
    assert(parts.push(last).drop_last() =~= parts);
}

} // verus!
