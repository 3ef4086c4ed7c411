//! Changing selected text: case, order, indentation, comments, replacement, deletion.

use crate::chars::{
    char_to_lowercase, char_to_uppercase, count_leading_whitespace, is_lowercase, is_uppercase,
    leading_whitespace, lower_of, lower_text, lowercase, text_to_lowercase, text_to_uppercase,
    upper_of, upper_text, uppercase, whitespace,
};
use crate::commands::insert::blank;
use crate::commands::insert_text::{IndentStyle, KeyCode};
use crate::commands::joining::is_blank;
use crate::commands::navigation::{around, buffers_go_round, step_around};
use crate::range::{max, min, range, Direction, Range};
use crate::selection::{all_within, ordered, Selection};
use crate::strings::{from_chars, to_chars, views};
use crate::text::{
    lemma_line_start_monotonic, lemma_newlines_prefix_le, line_at, line_count, line_of, line_start,
    newlines, LineEnding, Text,
};
use crate::transaction::{
    append, applied, changed_length, copy_chars, delete, deletion_edits, edits, growth, inserted,
    inserted_text_stands, lemma_edits_push, lemma_growth_bounds, lemma_valid_push, repeated,
    valid_edits, Change, Edit, Transaction,
};
use vstd::prelude::*;

verus! {

/// Puts a text in the place of each range.
pub open spec fn range_edits(ranges: Seq<Range>, texts: Seq<Seq<char>>) -> Seq<Edit> {
    Seq::new(
        ranges.len(),
        |i: int| Edit { from: ranges[i].lo(), to: ranges[i].hi(), text: texts[i] },
    )
}

pub proof fn lemma_range_edits(ranges: Seq<Range>, texts: Seq<Seq<char>>, len: int)
    requires
        ordered(ranges),
        all_within(ranges, len),
    ensures
        valid_edits(range_edits(ranges, texts), len),
{
    let es = range_edits(ranges, texts);
    assert forall|i: int| 0 <= i < es.len() implies 0 <= (#[trigger] es[i]).from <= es[i].to
        <= len by {
        assert(ranges[i].within(len));
    }
    assert forall|i: int, j: int| 0 <= i < j < es.len() implies (#[trigger] es[i]).to <= (
    #[trigger] es[j]).from by {
        assert(ranges[i].hi() <= ranges[j].lo());
    }
}

/// Puts a text in the place of each range.
pub fn replace_ranges(ranges: &Vec<Range>, texts: &Vec<Vec<char>>) -> (changes: Vec<Change>)
    requires
        ranges@.len() == texts@.len(),
    ensures
        edits(changes@) == range_edits(ranges@, views(texts@)),
{
    let ghost all = range_edits(ranges@, views(texts@));
    let mut changes: Vec<Change> = Vec::new();
    let mut i: usize = 0;
    assert(edits(changes@) =~= all.take(0));
    while i < ranges.len()
        invariant
            i <= ranges@.len() == texts@.len(),
            all == range_edits(ranges@, views(texts@)),
            edits(changes@) == all.take(i as int),
        decreases ranges.len() - i,
    {
        let change = Change {
            from: ranges[i].from(),
            to: ranges[i].to(),
            text: copy_chars(&texts[i]),
        };
        proof {
            lemma_edits_push(changes@, change);
            assert(views(texts@)[i as int] == texts@[i as int]@);
            assert(change@ == all[i as int]);
            assert(all.take(i + 1) =~= all.take(i as int).push(all[i as int]));
        }
        changes.push(change);
        i += 1;
    }
    assert(all.take(i as int) =~= all);
    changes
}

/// The texts of ranges.
pub open spec fn fragment_views(text: Seq<char>, ranges: Seq<Range>) -> Seq<Seq<char>> {
    ranges.map_values(|r: Range| text.subrange(r.lo(), r.hi()))
}

/// The texts of the selected ranges.
pub fn fragments(text: &Text, selection: &Selection) -> (parts: Vec<Vec<char>>)
    requires
        selection.within(text@.len() as int),
    ensures
        views(parts@) == fragment_views(text@, selection.ranges@),
{
    let mut parts: Vec<Vec<char>> = Vec::new();
    let mut i: usize = 0;
    while i < selection.ranges.len()
        invariant
            i <= selection.ranges@.len(),
            selection.within(text@.len() as int),
            parts@.len() == i,
            forall|j: int|
                0 <= j < i ==> (#[trigger] parts@[j])@ == text@.subrange(
                    selection.ranges@[j].lo(),
                    selection.ranges@[j].hi(),
                ),
        decreases selection.ranges.len() - i,
    {
        assert(selection.ranges@[i as int].within(text@.len() as int));
        parts.push(selection.ranges[i].fragment(text));
        i += 1;
    }
    assert(views(parts@) =~= fragment_views(text@, selection.ranges@));
    parts
}

/// How case is changed.
#[derive(Clone, Copy, Debug, PartialEq, Eq, Structural)]
pub enum Case {
    Switch,
    Upper,
    Lower,
}

/// A character with its case switched.
pub open spec fn switched(c: char) -> Seq<char> {
    if lowercase(c) {
        upper_of(c)
    } else if uppercase(c) {
        lower_of(c)
    } else {
        seq![c]
    }
}

/// A text with the case of every character switched.
pub open spec fn all_switched(s: Seq<char>) -> Seq<char>
    decreases s.len(),
{
    if s.len() == 0 {
        Seq::empty()
    } else {
        all_switched(s.drop_last()) + switched(s.last())
    }
}

/// A text in another case.
pub open spec fn in_case(s: Seq<char>, case: Case) -> Seq<char> {
    match case {
        Case::Switch => all_switched(s),
        Case::Upper => upper_text(s),
        Case::Lower => lower_text(s),
    }
}

/// Switches the case of every character: lowercase characters become uppercase, uppercase ones
/// lowercase, and others stay. One character can become several.
pub fn switch_text(s: &Vec<char>) -> (out: Vec<char>)
    ensures
        out@ == all_switched(s@),
{
    let mut out: Vec<char> = Vec::new();
    let mut i: usize = 0;
    while i < s.len()
        invariant
            i <= s@.len(),
            out@ == all_switched(s@.take(i as int)),
        decreases s.len() - i,
    {
        assert(s@.take(i + 1).drop_last() =~= s@.take(i as int));
        let c = s[i];
        if is_lowercase(c) {
            append(&mut out, &char_to_uppercase(c));
        } else if is_uppercase(c) {
            append(&mut out, &char_to_lowercase(c));
        } else {
            let ghost before = out@;
            out.push(c);
            assert(out@ =~= before + seq![c]);
        }
        i += 1;
    }
    assert(s@.take(i as int) =~= s@);
    out
}

/// Changes the case of the selected text.
pub fn switch_case_impl(text: &Text, selection: &Selection, case: Case) -> (t: Transaction)
    requires
        selection.wf(),
        selection.within(text@.len() as int),
    ensures
        t.edits() == range_edits(
            selection.ranges@,
            fragment_views(text@, selection.ranges@).map_values(|s: Seq<char>| in_case(s, case)),
        ),
        valid_edits(t.edits(), text@.len() as int),
        t.selection is None,
{
    let parts = fragments(text, selection);
    let ghost wanted = fragment_views(text@, selection.ranges@).map_values(
        |s: Seq<char>| in_case(s, case),
    );
    let mut texts: Vec<Vec<char>> = Vec::new();
    let mut i: usize = 0;
    assert(parts@.len() == views(parts@).len());
    while i < parts.len()
        invariant
            i <= parts@.len() == wanted.len(),
            views(parts@) == fragment_views(text@, selection.ranges@),
            wanted == fragment_views(text@, selection.ranges@).map_values(
                |s: Seq<char>| in_case(s, case),
            ),
            texts@.len() == i,
            forall|j: int| 0 <= j < i ==> (#[trigger] texts@[j])@ == wanted[j],
        decreases parts.len() - i,
    {
        assert(views(parts@)[i as int] == parts@[i as int]@);
        let changed = match case {
            Case::Switch => switch_text(&parts[i]),
            Case::Upper => to_chars(text_to_uppercase(from_chars(&parts[i]).as_str()).as_str()),
            Case::Lower => to_chars(text_to_lowercase(from_chars(&parts[i]).as_str()).as_str()),
        };
        texts.push(changed);
        i += 1;
    }
    assert(views(texts@) =~= wanted);
    proof {
        lemma_range_edits(selection.ranges@, wanted, text@.len() as int);
    }
    Transaction { changes: replace_ranges(&selection.ranges, &texts), selection: None }
}

/// How the contents of selections are reordered.
#[derive(Clone, Copy, Debug, PartialEq, Eq, Structural)]
pub enum ReorderStrategy {
    RotateForward,
    RotateBackward,
    Reverse,
}

/// How far contents are rotated: by the count, at most once round, or by one.
pub open spec fn rotation(count: Option<usize>, n: int) -> int {
    match count {
        Some(c) => min(c as int, n),
        None => 1,
    }
}

/// Where what stands at place `i` afterwards comes from.
pub open spec fn reordered_from(strategy: ReorderStrategy, i: int, by: int, n: int) -> int {
    match strategy {
        ReorderStrategy::RotateForward => around(i, Direction::Backward, by, n),
        ReorderStrategy::RotateBackward => around(i, Direction::Forward, by, n),
        ReorderStrategy::Reverse => n - 1 - i,
    }
}

/// Where what stood at place `i` goes.
pub open spec fn reordered_to(strategy: ReorderStrategy, i: int, by: int, n: int) -> int {
    match strategy {
        ReorderStrategy::RotateForward => around(i, Direction::Forward, by, n),
        ReorderStrategy::RotateBackward => around(i, Direction::Backward, by, n),
        ReorderStrategy::Reverse => n - 1 - i,
    }
}

/// Texts in another order.
pub open spec fn reordered(strategy: ReorderStrategy, parts: Seq<Seq<char>>, by: int) -> Seq<
    Seq<char>,
> {
    Seq::new(
        parts.len(),
        |i: int| parts[reordered_from(strategy, i, by, parts.len() as int)],
    )
}

/// Reorders the contents of the selected ranges; the primary selection follows its content.
/// Reversing an even number of times changes nothing.
pub fn reorder_selection_contents(
    text: &Text,
    selection: &Selection,
    strategy: ReorderStrategy,
    count: Option<usize>,
) -> (done: Option<(Selection, Transaction)>)
    requires
        selection.wf(),
        selection.within(text@.len() as int),
    ensures
        ({
            let n = selection.ranges@.len() as int;
            let by = rotation(count, n);
            match done {
                None => strategy == ReorderStrategy::Reverse && by % 2 == 0,
                Some((s, t)) => {
                    &&& !(strategy == ReorderStrategy::Reverse && by % 2 == 0)
                    &&& s.wf()
                    &&& s.holds(
                        selection.ranges@,
                        reordered_to(strategy, selection.primary_index as int, by, n),
                    )
                    &&& t.edits() == range_edits(
                        selection.ranges@,
                        reordered(strategy, fragment_views(text@, selection.ranges@), by),
                    )
                    &&& valid_edits(t.edits(), text@.len() as int)
                    &&& t.selection is None
                },
            }
        }),
{
    let parts = fragments(text, selection);
    let n: usize = selection.ranges.len();
    let by: usize = match count {
        Some(c) => if c <= n {
            c
        } else {
            n
        },
        None => 1,
    };
    if strategy == ReorderStrategy::Reverse && by % 2 == 0 {
        return None;
    }
    assert(views(parts@).len() == parts@.len());
    let p: usize = selection.primary_index;
    let primary: usize = match strategy {
        ReorderStrategy::RotateForward => step_around(p, Direction::Forward, by, n),
        ReorderStrategy::RotateBackward => step_around(p, Direction::Backward, by, n),
        ReorderStrategy::Reverse => n - 1 - p,
    };
    let ghost wanted = reordered(strategy, fragment_views(text@, selection.ranges@), by as int);
    let mut texts: Vec<Vec<char>> = Vec::new();
    let mut i: usize = 0;
    while i < n
        invariant
            i <= n == parts@.len(),
            n == wanted.len(),
            views(parts@) == fragment_views(text@, selection.ranges@),
            wanted == reordered(strategy, fragment_views(text@, selection.ranges@), by as int),
            texts@.len() == i,
            forall|j: int| 0 <= j < i ==> (#[trigger] texts@[j])@ == wanted[j],
        decreases n - i,
    {
        let from: usize = match strategy {
            ReorderStrategy::RotateForward => step_around(i, Direction::Backward, by, n),
            ReorderStrategy::RotateBackward => step_around(i, Direction::Forward, by, n),
            ReorderStrategy::Reverse => n - 1 - i,
        };
        assert(views(parts@)[from as int] == parts@[from as int]@);
        texts.push(copy_chars(&parts[from]));
        i += 1;
    }
    assert(views(texts@) =~= wanted);
    proof {
        lemma_range_edits(selection.ranges@, wanted, text@.len() as int);
    }
    let changes = replace_ranges(&selection.ranges, &texts);
    let ranges = selection.ranges.clone();
    assert(ranges@ =~= selection.ranges@);
    let reselected = Selection::new(ranges, primary);
    Some((reselected, Transaction { changes, selection: None }))
}

/// Rotating contents and rotating them back changes nothing, nor does reversing them twice.
pub proof fn reordering_is_undone(parts: Seq<Seq<char>>, by: int)
    requires
        parts.len() > 0,
        by >= 0,
    ensures
        reordered(
            ReorderStrategy::RotateBackward,
            reordered(ReorderStrategy::RotateForward, parts, by),
            by,
        ) == parts,
        reordered(
            ReorderStrategy::RotateForward,
            reordered(ReorderStrategy::RotateBackward, parts, by),
            by,
        ) == parts,
        reordered(
            ReorderStrategy::Reverse,
            reordered(ReorderStrategy::Reverse, parts, by),
            by,
        ) == parts,
{
    let n = parts.len() as int;
    assert forall|i: int| 0 <= i < n implies around(
        around(i, Direction::Forward, by, n),
        Direction::Backward,
        by,
        n,
    ) == i && around(around(i, Direction::Backward, by, n), Direction::Forward, by, n) == i && 0
        <= #[trigger] around(i, Direction::Forward, by, n) < n && 0 <= around(
        i,
        Direction::Backward,
        by,
        n,
    ) < n by {
        buffers_go_round(i, by, n);
    }
    let forward = reordered(ReorderStrategy::RotateForward, parts, by);
    let backward = reordered(ReorderStrategy::RotateBackward, parts, by);
    assert forall|i: int| 0 <= i < n implies #[trigger] forward[around(i, Direction::Forward, by, n)]
        == parts[i] by {
        buffers_go_round(i, by, n);
    }
    assert forall|i: int| 0 <= i < n implies #[trigger] backward[around(
        i,
        Direction::Backward,
        by,
        n,
    )] == parts[i] by {
        buffers_go_round(i, by, n);
    }
    assert(reordered(ReorderStrategy::RotateBackward, forward, by) =~= parts);
    assert(reordered(ReorderStrategy::RotateForward, backward, by) =~= parts);
    assert(reordered(
        ReorderStrategy::Reverse,
        reordered(ReorderStrategy::Reverse, parts, by),
        by,
    ) =~= parts);
}

/// The primary selection is the one that holds what the primary selection held.
pub proof fn primary_follows_its_content(
    strategy: ReorderStrategy,
    parts: Seq<Seq<char>>,
    by: int,
    primary: int,
)
    requires
        0 <= primary < parts.len(),
        by >= 0,
    ensures
        ({
            let to = reordered_to(strategy, primary, by, parts.len() as int);
            &&& 0 <= to < parts.len()
            &&& reordered(strategy, parts, by)[to] == parts[primary]
        }),
{
    buffers_go_round(primary, by, parts.len() as int);
}

/// The lines from `from` up to `to`.
pub open spec fn line_numbers(from: int, to: int) -> Seq<int>
    decreases to - from,
{
    if to <= from {
        Seq::empty()
    } else {
        line_numbers(from, to - 1).push(to - 1)
    }
}

/// The lines that the first `n` ranges touch, each once, in order.
pub open spec fn touched_lines(text: Text, ranges: Seq<Range>, n: nat) -> Seq<int>
    decreases n,
{
    if n == 0 {
        Seq::empty()
    } else {
        let before = touched_lines(text, ranges, (n - 1) as nat);
        let (first, last) = ranges[n - 1].lines(text);
        let from = if before.len() > 0 {
            max(first, before.last() + 1)
        } else {
            first
        };
        before + line_numbers(from, last + 1)
    }
}

/// Numbers that fit a machine word, as integers.
pub open spec fn as_ints(s: Seq<usize>) -> Seq<int> {
    s.map_values(|n: usize| n as int)
}

proof fn lemma_as_ints_push(s: Seq<usize>, n: usize)
    ensures
        as_ints(s.push(n)) == as_ints(s).push(n as int),
{
    assert(as_ints(s.push(n)) =~= as_ints(s).push(n as int));
}

/// The lines that the selection touches, each once, in order.
pub fn get_lines(text: &Text, selection: &Selection) -> (lines: Vec<usize>)
    requires
        text.wf(),
        text@.len() < usize::MAX,
        selection.wf(),
        selection.within(text@.len() as int),
    ensures
        as_ints(lines@) == touched_lines(*text, selection.ranges@, selection.ranges@.len()),
{
    let ghost ranges = selection.ranges@;
    let mut lines: Vec<usize> = Vec::new();
    let mut i: usize = 0;
    assert(as_ints(lines@) =~= Seq::<int>::empty());
    while i < selection.ranges.len()
        invariant
            i <= ranges.len(),
            ranges == selection.ranges@,
            text.wf(),
            text@.len() < usize::MAX,
            selection.within(text@.len() as int),
            as_ints(lines@) == touched_lines(*text, ranges, i as nat),
            forall|k: int| 0 <= k < lines@.len() ==> lines@[k] <= text@.len(),
        decreases selection.ranges.len() - i,
    {
        assert(ranges[i as int].within(text@.len() as int));
        let r = selection.ranges[i];
        let (first, last) = r.line_range(text);
        proof {
            crate::text::lemma_prev_boundary(*text, r.hi());
            lemma_newlines_prefix_le(text@, 0, r.last_position(*text));
            assert(text@.take(0) =~= Seq::<char>::empty());
        }
        let from = if lines.len() > 0 && lines[lines.len() - 1] >= first {
            lines[lines.len() - 1] + 1
        } else {
            first
        };
        let ghost before = as_ints(lines@);
        proof {
            if lines@.len() > 0 {
                assert(before.last() == lines@.last());
            }
        }
        let mut line: usize = from;
        assert(before + line_numbers(from as int, from as int) =~= before);
        while line <= last
            invariant
                from <= line,
                line <= last + 1 || line == from,
                last <= text@.len() < usize::MAX,
                as_ints(lines@) == before + line_numbers(from as int, line as int),
                forall|k: int| 0 <= k < lines@.len() ==> lines@[k] <= text@.len(),
            decreases last + 1 - line,
        {
            proof {
                lemma_as_ints_push(lines@, line);
                assert((before + line_numbers(from as int, line as int)).push(line as int)
                    =~= before + line_numbers(from as int, line + 1));
            }
            lines.push(line);
            line += 1;
        }
        assert(line_numbers(from as int, line as int) == line_numbers(from as int, last + 1));
        i += 1;
    }
    lines
}

proof fn lemma_line_numbers(from: int, to: int, k: int)
    requires
        0 <= k < line_numbers(from, to).len(),
    ensures
        line_numbers(from, to)[k] == from + k,
        from + k < to,
        line_numbers(from, to).len() == to - from,
    decreases to - from,
{
    lemma_line_numbers_len(from, to);
    if k < line_numbers(from, to).len() - 1 {
        lemma_line_numbers(from, to - 1, k);
    } else {
        lemma_line_numbers_len(from, to - 1);
    }
}

proof fn lemma_line_numbers_len(from: int, to: int)
    ensures
        line_numbers(from, to).len() == if to > from {
            to - from
        } else {
            0
        },
    decreases to - from,
{
    if from < to {
        lemma_line_numbers_len(from, to - 1);
    }
}

/// Line `line` is touched by one of the first `n` ranges.
pub open spec fn touches(text: Text, ranges: Seq<Range>, n: int, line: int) -> bool {
    exists|i: int|
        0 <= i < n && (#[trigger] ranges[i]).lines(text).0 <= line <= ranges[i].lines(text).1
}

/// Numbers rise.
pub open spec fn rising(lines: Seq<int>) -> bool {
    forall|a: int, b: int| 0 <= a < b < lines.len() ==> (#[trigger] lines[a]) < (#[trigger] lines[b])
}

/// The lines of a selection come in order, each once, and are those that some range of it touches.
pub proof fn touched_lines_are_complete(text: Text, ranges: Seq<Range>, n: nat)
    requires
        text.wf(),
        ordered(ranges),
        all_within(ranges, text@.len() as int),
        n <= ranges.len(),
    ensures
        rising(touched_lines(text, ranges, n)),
        forall|line: int|
            #[trigger] touched_lines(text, ranges, n).contains(line) <==> touches(
                text,
                ranges,
                n as int,
                line,
            ),
        forall|k: int|
            0 <= k < touched_lines(text, ranges, n).len() ==> 0 <= (#[trigger] touched_lines(
                text,
                ranges,
                n,
            )[k]) <= newlines(text@),
        n > 0 ==> touched_lines(text, ranges, n).len() > 0 && touched_lines(text, ranges, n).last()
            == ranges[n - 1].lines(text).1,
    decreases n,
{
    if n > 0 {
        let m = (n - 1) as nat;
        touched_lines_are_complete(text, ranges, m);
        let before = touched_lines(text, ranges, m);
        let r = ranges[n - 1];
        assert(r.within(text@.len() as int));
        lemma_range_lines(text, r);
        let (first, last) = r.lines(text);
        if m > 0 {
            assert(ranges[m - 1].within(text@.len() as int));
            lemma_range_lines(text, ranges[m - 1]);
            assert(ranges[m - 1].hi() <= ranges[n - 1].lo());
            lemma_newlines_prefix_le(text@, ranges[m - 1].last_position(text), r.lo());
            assert(before.last() <= first);
        }
        let from = if before.len() > 0 {
            max(first, before.last() + 1)
        } else {
            first
        };
        let more = line_numbers(from, last + 1);
        let all = touched_lines(text, ranges, n);
        assert(all == before + more);
        lemma_line_numbers_len(from, last + 1);
        assert forall|k: int| 0 <= k < more.len() implies #[trigger] more[k] == from + k by {
            lemma_line_numbers(from, last + 1, k);
        }
        assert forall|a: int, b: int| 0 <= a < b < all.len() implies (#[trigger] all[a]) < (
        #[trigger] all[b]) by {
            if b >= before.len() {
                assert(all[b] == more[b - before.len()]);
                if a < before.len() {
                    assert(before[a] <= before[before.len() - 1]);
                } else {
                    assert(all[a] == more[a - before.len()]);
                }
            }
        }
        assert forall|line: int| #[trigger] all.contains(line) <==> touches(
            text,
            ranges,
            n as int,
            line,
        ) by {
            if all.contains(line) {
                let k = choose|k: int| 0 <= k < all.len() && all[k] == line;
                if k < before.len() {
                    assert(before[k] == line);
                    assert(before.contains(line));
                    let i = choose|i: int|
                        0 <= i < m && (#[trigger] ranges[i]).lines(text).0 <= line
                            <= ranges[i].lines(text).1;
                    assert(touches(text, ranges, n as int, line));
                } else {
                    assert(all[k] == more[k - before.len()]);
                    assert(ranges[n - 1].lines(text).0 <= line <= ranges[n - 1].lines(text).1);
                }
            }
            if touches(text, ranges, n as int, line) {
                let i = choose|i: int|
                    0 <= i < n && (#[trigger] ranges[i]).lines(text).0 <= line
                        <= ranges[i].lines(text).1;
                if i < m {
                    assert(touches(text, ranges, m as int, line));
                    assert(before.contains(line));
                    let k = choose|k: int| 0 <= k < before.len() && before[k] == line;
                    assert(all[k] == line);
                } else if line >= from {
                    assert(all[before.len() + (line - from)] == more[line - from]);
                } else {
                    assert(line == before.last());
                    assert(all[before.len() - 1] == line);
                }
            }
        }
        assert forall|k: int| 0 <= k < all.len() implies 0 <= (#[trigger] all[k]) <= newlines(
            text@,
        ) by {
            if k < before.len() {
                assert(before[k] == all[k]);
            } else {
                assert(all[k] == more[k - before.len()]);
            }
        }
        if more.len() > 0 {
            assert(all.last() == more[more.len() - 1]);
        } else {
            assert(all.last() == before.last());
        }
    }
}

proof fn lemma_range_lines(text: Text, r: Range)
    requires
        text.wf(),
        r.within(text@.len() as int),
    ensures
        0 <= r.lines(text).0 <= r.lines(text).1 <= newlines(text@),
        r.lo() <= r.last_position(text) <= r.hi(),
{
    crate::text::lemma_prev_boundary(text, r.hi());
    lemma_newlines_prefix_le(text@, r.lo(), r.last_position(text));
    lemma_newlines_prefix_le(text@, r.last_position(text), text@.len() as int);
    assert(text@.take(text@.len() as int) =~= text@);
}

/// What is put before a line by indenting: nothing before a blank one; spaces only fill up to the
/// next level.
pub open spec fn indentation_of(line: Seq<char>, style: IndentStyle, count: nat) -> Seq<char> {
    let indent = repeated(style.unit(), count);
    match style {
        IndentStyle::Tabs => indent,
        IndentStyle::Spaces(n) => indent.skip(leading_whitespace(line) % (n as int)),
    }
}

/// What indenting the lines does.
pub open spec fn indent_edits(
    text: Seq<char>,
    lines: Seq<int>,
    style: IndentStyle,
    count: nat,
) -> Seq<Edit>
    decreases lines.len(),
{
    if lines.len() == 0 {
        Seq::empty()
    } else {
        let before = indent_edits(text, lines.drop_last(), style, count);
        let line = line_at(text, lines.last());
        if blank(line) {
            before
        } else {
            let at = line_start(text, lines.last());
            before.push(Edit { from: at, to: at, text: indentation_of(line, style, count) })
        }
    }
}

/// Indents the selected lines by `count` levels.
pub fn indent(text: &Text, selection: &Selection, style: IndentStyle, count: usize) -> (t:
    Transaction)
    requires
        text.wf(),
        text@.len() < usize::MAX,
        selection.wf(),
        selection.within(text@.len() as int),
        style.wf(),
        count >= 1,
    ensures
        t.edits() == indent_edits(
            text@,
            touched_lines(*text, selection.ranges@, selection.ranges@.len()),
            style,
            count as nat,
        ),
        valid_edits(t.edits(), text@.len() as int),
        t.selection is None,
{
    let lines = get_lines(text, selection);
    let ghost all = as_ints(lines@);
    let unit = style.as_chars();
    let indent = crate::transaction::repeat(&unit, count);
    proof {
        touched_lines_are_complete(*text, selection.ranges@, selection.ranges@.len());
        lemma_indent_len(style, count as nat);
    }
    let mut changes: Vec<Change> = Vec::new();
    let mut i: usize = 0;
    assert(edits(changes@) =~= Seq::<Edit>::empty());
    assert(all.take(0) =~= Seq::<int>::empty());
    while i < lines.len()
        invariant
            i <= lines@.len(),
            text@.len() < usize::MAX,
            style.wf(),
            count >= 1,
            all == as_ints(lines@),
            rising(all),
            forall|k: int| 0 <= k < all.len() ==> 0 <= (#[trigger] all[k]) <= newlines(text@),
            indent@ == repeated(style.unit(), count as nat),
            style matches IndentStyle::Spaces(n) ==> indent@.len() >= n,
            edits(changes@) == indent_edits(text@, all.take(i as int), style, count as nat),
            valid_edits(edits(changes@), text@.len() as int),
            edits(changes@).len() > 0 ==> i > 0 && edits(changes@).last().to <= line_start(
                text@,
                all[i - 1],
            ),
        decreases lines.len() - i,
    {
        assert(all.take(i + 1).drop_last() =~= all.take(i as int));
        assert(all[i as int] == lines@[i as int]);
        proof {
            lemma_newlines_prefix_le(text@, 0, text@.len() as int);
            assert(text@.take(0) =~= Seq::<char>::empty());
            assert(text@.take(text@.len() as int) =~= text@);
            lemma_line_start_monotonic(text@, all[i as int], all[i as int] + 1);
            if i > 0 {
                assert(all[i - 1] < all[i as int]);
                lemma_line_start_monotonic(text@, all[i - 1], all[i as int]);
            }
        }
        let start = text.line_to_char(lines[i]);
        let next = text.line_to_char(lines[i] + 1);
        let leading = count_leading_whitespace(&text.chars, start, next);
        let ghost line = line_at(text@, all[i as int]);
        assert(line == text@.subrange(start as int, next as int));
        if leading < next - start {
            assert(!whitespace(line[leading as int]));
            let offset: usize = match style {
                IndentStyle::Tabs => 0,
                IndentStyle::Spaces(n) => leading % (n as usize),
            };
            let part = copy_from(&indent, offset);
            let change = Change { from: start, to: start, text: part };
            proof {
                assert(indent@.skip(0) =~= indent@);
                assert(change@.text == indentation_of(line, style, count as nat));
                lemma_edits_push(changes@, change);
                lemma_valid_push(edits(changes@), change@, text@.len() as int);
            }
            changes.push(change);
        } else {
            assert forall|k: int| 0 <= k < line.len() implies whitespace(#[trigger] line[k]) by {
                assert(line[k] == text@[start + k]);
            }
            assert(blank(line));
        }
        i += 1;
    }
    assert(all.take(i as int) =~= all);
    Transaction { changes, selection: None }
}

proof fn lemma_indent_len(style: IndentStyle, count: nat)
    requires
        count >= 1,
    ensures
        style matches IndentStyle::Spaces(n) ==> repeated(style.unit(), count).len() >= n,
{
    crate::transaction::lemma_repeated_len(style.unit(), count);
    match style {
        IndentStyle::Spaces(n) => {
            let one = seq![' '];
            crate::transaction::lemma_repeated_len(one, n as nat);
            assert(one.len() * (n as nat) == n) by (nonlinear_arith)
                requires
                    one.len() == 1,
            ;
            assert(style.unit().len() == n);
            assert(n * count >= n) by (nonlinear_arith)
                requires
                    count >= 1,
            ;
        },
        _ => {},
    }
}

/// The characters from `from` on.
fn copy_from(chars: &Vec<char>, from: usize) -> (part: Vec<char>)
    requires
        from <= chars@.len(),
    ensures
        part@ == chars@.skip(from as int),
{
    let mut part: Vec<char> = Vec::new();
    let mut i: usize = from;
    while i < chars.len()
        invariant
            from <= i <= chars@.len(),
            part@ == chars@.subrange(from as int, i as int),
        decreases chars.len() - i,
    {
        part.push(chars[i]);
        i += 1;
    }
    assert(chars@.subrange(from as int, i as int) =~= chars@.skip(from as int));
    part
}

/// How many of a line's leading blanks, from `pos` on, make up an indentation that is `target`
/// columns wide, when those before `pos` are `width` wide. A tab reaches to the next tab stop.
pub open spec fn indent_part(line: Seq<char>, pos: int, width: int, tab: int, target: int) -> int
    decreases line.len() - pos,
{
    if 0 <= pos < line.len() && is_blank(line[pos]) {
        let wider = if line[pos] == ' ' {
            width + 1
        } else {
            (width / tab + 1) * tab
        };
        if wider >= target {
            pos + 1
        } else {
            indent_part(line, pos + 1, wider, tab, target)
        }
    } else {
        pos
    }
}

/// What unindenting the lines does.
pub open spec fn unindent_edits(text: Seq<char>, lines: Seq<int>, tab: int, target: int) -> Seq<Edit>
    decreases lines.len(),
{
    if lines.len() == 0 {
        Seq::empty()
    } else {
        let before = unindent_edits(text, lines.drop_last(), tab, target);
        let n = indent_part(line_at(text, lines.last()), 0, 0, tab, target);
        let at = line_start(text, lines.last());
        if n > 0 {
            before.push(Edit { from: at, to: at + n, text: Seq::empty() })
        } else {
            before
        }
    }
}

proof fn lemma_repeated_char(part: Seq<char>, count: nat, c: char)
    requires
        forall|i: int| 0 <= i < part.len() ==> #[trigger] part[i] == c,
    ensures
        forall|i: int|
            0 <= i < repeated(part, count).len() ==> #[trigger] repeated(part, count)[i] == c,
    decreases count,
{
    if count > 0 {
        lemma_repeated_char(part, (count - 1) as nat, c);
        let before = repeated(part, (count - 1) as nat);
        assert forall|i: int| 0 <= i < repeated(part, count).len() implies #[trigger] repeated(
            part,
            count,
        )[i] == c by {
            if i < before.len() {
                assert(before[i] == c);
            } else {
                assert(part[i - before.len()] == c);
            }
        }
    }
}

proof fn lemma_spaces_part(line: Seq<char>, pos: int, tab: int, m: int)
    requires
        0 <= pos < m <= line.len(),
        forall|i: int| 0 <= i < m ==> #[trigger] line[i] == ' ',
    ensures
        indent_part(line, pos, pos, tab, m) == m,
    decreases m - pos,
{
    assert(line[pos] == ' ');
    if pos + 1 < m {
        lemma_spaces_part(line, pos + 1, tab, m);
    }
}

proof fn lemma_tabs_part(line: Seq<char>, pos: int, tab: int, m: int)
    requires
        0 <= pos < m <= line.len(),
        tab > 0,
        forall|i: int| 0 <= i < m ==> #[trigger] line[i] == '\t',
    ensures
        indent_part(line, pos, pos * tab, tab, m * tab) == m,
    decreases m - pos,
{
    assert(line[pos] == '\t');
    assert((pos * tab) / tab == pos) by (nonlinear_arith)
        requires
            tab > 0,
    ;
    if pos + 1 < m {
        assert((pos + 1) * tab < m * tab) by (nonlinear_arith)
            requires
                tab > 0,
                pos + 1 < m,
        ;
        lemma_tabs_part(line, pos + 1, tab, m);
    }
}

/// Unindenting a line takes away what indenting it put before it, unless the line began between
/// two levels, to the next of which spaces fill up.
pub proof fn unindenting_undoes_indenting(
    line: Seq<char>,
    style: IndentStyle,
    count: nat,
    tab: int,
)
    requires
        count >= 1,
        tab > 0,
        style matches IndentStyle::Spaces(n) ==> n > 0 && leading_whitespace(line) % (n as int)
            == 0,
    ensures
        ({
            let put = indentation_of(line, style, count);
            let width = match style {
                IndentStyle::Tabs => tab,
                IndentStyle::Spaces(n) => n as int,
            };
            indent_part(put + line, 0, 0, tab, count * width) == put.len()
        }),
{
    let put = indentation_of(line, style, count);
    let unit = style.unit();
    crate::transaction::lemma_repeated_len(unit, count);
    match style {
        IndentStyle::Tabs => {
            lemma_repeated_char(unit, count, '\t');
            assert(unit.len() * count == count) by (nonlinear_arith)
                requires
                    unit.len() == 1,
            ;
            lemma_tabs_part(put + line, 0, tab, count as int);
        },
        IndentStyle::Spaces(n) => {
            let one = seq![' '];
            lemma_repeated_char(one, n as nat, ' ');
            lemma_repeated_char(unit, count, ' ');
            crate::transaction::lemma_repeated_len(one, n as nat);
            assert(unit.len() == n);
            assert(put =~= repeated(unit, count));
            assert(count * n == n * count && count * n > 0) by (nonlinear_arith)
                requires
                    count >= 1,
                    n > 0,
            ;
            lemma_spaces_part(put + line, 0, tab, count * n);
        },
    }
}

fn count_indent(text: &Text, start: usize, next: usize, tab: usize, target: usize) -> (n: usize)
    requires
        start <= next <= text@.len(),
        tab > 0,
        tab + target <= usize::MAX,
    ensures
        n == indent_part(text@.subrange(start as int, next as int), 0, 0, tab as int, target as int),
        n <= next - start,
{
    let ghost line = text@.subrange(start as int, next as int);
    let mut pos: usize = 0;
    let mut width: usize = 0;
    while pos < next - start && (text.chars[start + pos] == ' ' || text.chars[start + pos] == '\t')
        invariant
            start <= next <= text@.len(),
            tab > 0,
            tab + target <= usize::MAX,
            pos <= next - start,
            pos > 0 ==> width < target,
            pos == 0 ==> width == 0,
            line == text@.subrange(start as int, next as int),
            indent_part(line, 0, 0, tab as int, target as int) == indent_part(
                line,
                pos as int,
                width as int,
                tab as int,
                target as int,
            ),
        decreases next - start - pos,
    {
        assert(line[pos as int] == text@[start + pos]);
        if text.chars[start + pos] == ' ' {
            width += 1;
        } else {
            proof {
                assert((width / tab + 1) * tab <= width + tab) by (nonlinear_arith)
                    requires
                        tab > 0,
                ;
                assert(width / tab + 1 <= (width / tab + 1) * tab) by (nonlinear_arith)
                    requires
                        tab > 0,
                        width >= 0,
                ;
            }
            width = (width / tab + 1) * tab;
        }
        pos += 1;
        if width >= target {
            return pos;
        }
    }
    proof {
        if pos < next - start {
            assert(line[pos as int] == text@[start + pos]);
        }
    }
    pos
}

/// Takes `count` levels of indentation from the selected lines.
pub fn unindent(
    text: &Text,
    selection: &Selection,
    tab_width: usize,
    indent_width: usize,
    count: usize,
) -> (t: Transaction)
    requires
        text.wf(),
        text@.len() < usize::MAX,
        selection.wf(),
        selection.within(text@.len() as int),
        tab_width > 0,
        tab_width + count * indent_width <= usize::MAX,
    ensures
        t.edits() == unindent_edits(
            text@,
            touched_lines(*text, selection.ranges@, selection.ranges@.len()),
            tab_width as int,
            count * indent_width,
        ),
        valid_edits(t.edits(), text@.len() as int),
        t.selection is None,
{
    let lines = get_lines(text, selection);
    let ghost all = as_ints(lines@);
    assert(count * indent_width >= 0) by (nonlinear_arith)
        requires
            count >= 0,
            indent_width >= 0,
    ;
    let target = count * indent_width;
    proof {
        touched_lines_are_complete(*text, selection.ranges@, selection.ranges@.len());
    }
    let mut changes: Vec<Change> = Vec::new();
    let mut i: usize = 0;
    assert(edits(changes@) =~= Seq::<Edit>::empty());
    assert(all.take(0) =~= Seq::<int>::empty());
    while i < lines.len()
        invariant
            i <= lines@.len(),
            text@.len() < usize::MAX,
            all == as_ints(lines@),
            rising(all),
            tab_width > 0,
            tab_width + target <= usize::MAX,
            forall|k: int| 0 <= k < all.len() ==> 0 <= (#[trigger] all[k]) <= newlines(text@),
            edits(changes@) == unindent_edits(
                text@,
                all.take(i as int),
                tab_width as int,
                target as int,
            ),
            valid_edits(edits(changes@), text@.len() as int),
            edits(changes@).len() > 0 ==> i > 0 && edits(changes@).last().to <= line_start(
                text@,
                all[i - 1] + 1,
            ),
        decreases lines.len() - i,
    {
        assert(all.take(i + 1).drop_last() =~= all.take(i as int));
        assert(all[i as int] == lines@[i as int]);
        proof {
            lemma_newlines_prefix_le(text@, 0, text@.len() as int);
            assert(text@.take(0) =~= Seq::<char>::empty());
            assert(text@.take(text@.len() as int) =~= text@);
            lemma_line_start_monotonic(text@, all[i as int], all[i as int] + 1);
            if i > 0 {
                assert(all[i - 1] < all[i as int]);
                lemma_line_start_monotonic(text@, all[i - 1] + 1, all[i as int]);
            }
        }
        let start = text.line_to_char(lines[i]);
        let next = text.line_to_char(lines[i] + 1);
        let n = count_indent(text, start, next, tab_width, target);
        if n > 0 {
            let change = Change { from: start, to: start + n, text: Vec::new() };
            proof {
                assert(change@.text =~= Seq::<char>::empty());
                lemma_edits_push(changes@, change);
                lemma_valid_push(edits(changes@), change@, text@.len() as int);
            }
            changes.push(change);
        }
        i += 1;
    }
    assert(all.take(i as int) =~= all);
    Transaction { changes, selection: None }
}

/// A language layer at the cursor: whether it knows tokens of line comments, and of block
/// comments.
#[derive(Clone, Copy, Debug, PartialEq, Eq, Structural)]
pub struct CommentLayer {
    pub line: bool,
    pub block: bool,
}

/// The last of the layers that has line tokens.
pub open spec fn last_line_layer(layers: Seq<CommentLayer>) -> Option<int>
    decreases layers.len(),
{
    if layers.len() == 0 {
        None
    } else if layers.last().line {
        Some(layers.len() - 1)
    } else {
        last_line_layer(layers.drop_last())
    }
}

/// The last of the layers that has block tokens.
pub open spec fn last_block_layer(layers: Seq<CommentLayer>) -> Option<int>
    decreases layers.len(),
{
    if layers.len() == 0 {
        None
    } else if layers.last().block {
        Some(layers.len() - 1)
    } else {
        last_block_layer(layers.drop_last())
    }
}

/// The layer whose comment tokens are used: the innermost one with line tokens, else the innermost
/// one with block tokens; without one, those of the document's language are.
pub fn comment_layer(layers: &Vec<CommentLayer>) -> (layer: Option<usize>)
    ensures
        (match layer {
            Some(k) => Some(k as int),
            None => None,
        }) == (match last_line_layer(layers@) {
            Some(k) => Some(k),
            None => last_block_layer(layers@),
        }),
{
    let mut line: Option<usize> = None;
    let mut block: Option<usize> = None;
    let mut i: usize = 0;
    assert(layers@.take(0) =~= Seq::<CommentLayer>::empty());
    while i < layers.len()
        invariant
            i <= layers@.len(),
            (match line {
                Some(k) => Some(k as int),
                None => None,
            }) == last_line_layer(layers@.take(i as int)),
            (match block {
                Some(k) => Some(k as int),
                None => None,
            }) == last_block_layer(layers@.take(i as int)),
        decreases layers.len() - i,
    {
        assert(layers@.take(i + 1).drop_last() =~= layers@.take(i as int));
        if layers[i].line {
            line = Some(i);
        }
        if layers[i].block {
            block = Some(i);
        }
        i += 1;
    }
    assert(layers@.take(i as int) =~= layers@);
    match line {
        Some(k) => Some(k),
        None => block,
    }
}

/// The token of line comments: the one that the cursor's line begins with, else the first that the
/// language has.
pub fn line_comment_token(tokens: &Option<Vec<String>>, at_cursor: Option<String>) -> (token: Option<
    String,
>)
    ensures
        match tokens {
            None => token is None,
            Some(known) => match at_cursor {
                Some(t) => token == Some(t),
                None => {
                    &&& token is Some <==> known@.len() > 0
                    &&& token matches Some(t) ==> t@ == known@[0]@
                },
            },
        },
{
    match tokens {
        None => None,
        Some(known) => match at_cursor {
            Some(t) => Some(t),
            None => if known.len() > 0 {
                Some(known[0].clone())
            } else {
                None
            },
        },
    }
}

/// What toggling comments does: to the lines with line tokens, or to the split lines or the whole
/// selection with block tokens.
#[derive(Clone, Copy, Debug, PartialEq, Eq, Structural)]
pub enum CommentAction {
    ToggleLines,
    UncommentSplitLines,
    UncommentSelection,
    CommentSplitLines,
    ToggleBlocksOfSplitLines,
    ToggleBlocks,
}

/// How comments are toggled in a language with or without tokens for lines and blocks, where all
/// lines, or the selection, are block commented or not.
pub open spec fn comment_action(
    line_token: bool,
    block_tokens: bool,
    lines_commented: bool,
    selection_commented: bool,
) -> CommentAction {
    if line_token && !block_tokens {
        CommentAction::ToggleLines
    } else if lines_commented {
        CommentAction::UncommentSplitLines
    } else if selection_commented {
        CommentAction::UncommentSelection
    } else if !line_token && block_tokens {
        CommentAction::CommentSplitLines
    } else {
        CommentAction::ToggleLines
    }
}

/// How line comments are toggled.
pub open spec fn line_comment_action(line_token: bool, block_tokens: bool) -> CommentAction {
    if !line_token && block_tokens {
        CommentAction::ToggleBlocksOfSplitLines
    } else {
        CommentAction::ToggleLines
    }
}

/// How block comments are toggled.
pub open spec fn block_comment_action(line_token: bool, block_tokens: bool) -> CommentAction {
    if line_token && !block_tokens {
        CommentAction::ToggleLines
    } else {
        CommentAction::ToggleBlocks
    }
}

/// Toggles comments. With line tokens alone, line comments are toggled. Else, lines that are all
/// block commented are uncommented, then a selection that is block commented; lines that are not
/// are commented with block tokens where there are no line tokens; and else line comments are
/// toggled.
pub fn toggle_comments(
    line_token: bool,
    block_tokens: bool,
    lines_commented: bool,
    selection_commented: bool,
) -> (action: CommentAction)
    ensures
        action == comment_action(line_token, block_tokens, lines_commented, selection_commented),
{
    if line_token && !block_tokens {
        return CommentAction::ToggleLines;
    }
    if lines_commented {
        return CommentAction::UncommentSplitLines;
    }
    if selection_commented {
        return CommentAction::UncommentSelection;
    }
    if !line_token && block_tokens {
        return CommentAction::CommentSplitLines;
    }
    CommentAction::ToggleLines
}

/// Toggles line comments; a language that has only block comments comments each line with those.
pub fn toggle_line_comments(line_token: bool, block_tokens: bool) -> (action: CommentAction)
    ensures
        action == line_comment_action(line_token, block_tokens),
{
    if !line_token && block_tokens {
        CommentAction::ToggleBlocksOfSplitLines
    } else {
        CommentAction::ToggleLines
    }
}

/// Toggles block comments; a language that has only line comments toggles those.
pub fn toggle_block_comments(line_token: bool, block_tokens: bool) -> (action: CommentAction)
    ensures
        action == block_comment_action(line_token, block_tokens),
{
    if line_token && !block_tokens {
        CommentAction::ToggleLines
    } else {
        CommentAction::ToggleBlocks
    }
}

/// How many boundaries lie strictly between `lo` and `hi`.
pub open spec fn boundaries_between(breaks: Seq<usize>, lo: int, hi: int) -> nat
    decreases breaks.len(),
{
    if breaks.len() == 0 {
        0
    } else {
        boundaries_between(breaks.drop_last(), lo, hi) + if lo < breaks.last() < hi {
            1nat
        } else {
            0nat
        }
    }
}

/// How many grapheme clusters the text from `lo` up to `hi` has.
pub open spec fn clusters(text: Text, lo: int, hi: int) -> nat {
    if lo < hi {
        boundaries_between(text.breaks@, lo, hi) + 1
    } else {
        0
    }
}

fn count_clusters(text: &Text, lo: usize, hi: usize) -> (n: usize)
    requires
        text.wf(),
        hi <= text@.len(),
    ensures
        n == clusters(*text, lo as int, hi as int),
{
    if lo >= hi {
        return 0;
    }
    let mut n: usize = 0;
    let mut i: usize = 0;
    assert(text.breaks@.take(0) =~= Seq::<usize>::empty());
    while i < text.breaks.len()
        invariant
            i <= text.breaks@.len(),
            n <= i,
            n == boundaries_between(text.breaks@.take(i as int), lo as int, hi as int),
            i > 0 && lo >= 0 ==> n < i,
            text.wf(),
        decreases text.breaks.len() - i,
    {
        assert(text.breaks@.take(i + 1).drop_last() =~= text.breaks@.take(i as int));
        let b = text.breaks[i];
        if lo < b && b < hi {
            n += 1;
        }
        i += 1;
    }
    assert(text.breaks@.take(i as int) =~= text.breaks@);
    n + 1
}

/// The text that a key puts in the place of each selected grapheme cluster.
pub open spec fn replacement(code: KeyCode, ending: LineEnding) -> Option<Seq<char>> {
    match code {
        KeyCode::Char(c) => Some(seq![c]),
        KeyCode::Enter => Some(ending.chars()),
        KeyCode::Tab => Some(seq!['\t']),
        KeyCode::Other => None,
    }
}

/// Puts what a key stands for in the place of every selected grapheme cluster.
pub fn replace_char(text: &Text, selection: &Selection, code: KeyCode, ending: LineEnding) -> (t: Option<
    Transaction,
>)
    requires
        text.wf(),
        selection.wf(),
        selection.within(text@.len() as int),
    ensures
        match replacement(code, ending) {
            None => t is None,
            Some(part) => {
                &&& t is Some
                &&& t->0.edits() == range_edits(
                    selection.ranges@,
                    selection.ranges@.map_values(
                        |r: Range| repeated(part, clusters(*text, r.lo(), r.hi())),
                    ),
                )
                &&& valid_edits(t->0.edits(), text@.len() as int)
                &&& t->0.selection is None
            },
        },
{
    let mut part: Vec<char> = Vec::new();
    match code {
        KeyCode::Char(c) => {
            part.push(c);
            assert(part@ =~= seq![c]);
        },
        KeyCode::Enter => {
            part = ending.as_chars();
        },
        KeyCode::Tab => {
            part.push('\t');
            assert(part@ =~= seq!['\t']);
        },
        KeyCode::Other => {
            return None;
        },
    }
    let ghost wanted = selection.ranges@.map_values(
        |r: Range| repeated(part@, clusters(*text, r.lo(), r.hi())),
    );
    let mut texts: Vec<Vec<char>> = Vec::new();
    let mut i: usize = 0;
    while i < selection.ranges.len()
        invariant
            i <= selection.ranges@.len(),
            text.wf(),
            selection.within(text@.len() as int),
            wanted == selection.ranges@.map_values(
                |r: Range| repeated(part@, clusters(*text, r.lo(), r.hi())),
            ),
            texts@.len() == i,
            forall|j: int| 0 <= j < i ==> (#[trigger] texts@[j])@ == wanted[j],
        decreases selection.ranges.len() - i,
    {
        let r = selection.ranges[i];
        assert(selection.ranges@[i as int].within(text@.len() as int));
        texts.push(crate::transaction::repeat(&part, count_clusters(text, r.from(), r.to())));
        i += 1;
    }
    assert(views(texts@) =~= wanted);
    proof {
        lemma_range_edits(selection.ranges@, wanted, text@.len() as int);
    }
    Some(Transaction { changes: replace_ranges(&selection.ranges, &texts), selection: None })
}

/// A text in which every line ending, of whatever kind, is `ending`.
pub open spec fn with_endings(s: Seq<char>, ending: Seq<char>) -> Seq<char>
    decreases s.len(),
{
    if s.len() == 0 {
        Seq::empty()
    } else if s[0] == '\r' && s.len() > 1 && s[1] == '\n' {
        ending + with_endings(s.skip(2), ending)
    } else if s[0] == '\r' || s[0] == '\n' {
        ending + with_endings(s.skip(1), ending)
    } else {
        seq![s[0]] + with_endings(s.skip(1), ending)
    }
}

/// Every line ending is exchanged, whatever stands around it, and everything else stays as it is.
pub proof fn line_endings_are_exchanged(a: Seq<char>, b: Seq<char>, ending: Seq<char>)
    ensures
        (forall|i: int| 0 <= i < a.len() ==> a[i] != '\r' && a[i] != '\n') ==> with_endings(a, ending)
            == a,
        a.len() == 0 || a.last() != '\r' ==> with_endings(a + seq!['\n'] + b, ending)
            == with_endings(a, ending) + ending + with_endings(b, ending),
        with_endings(a + seq!['\r', '\n'] + b, ending) == with_endings(a, ending) + ending
            + with_endings(b, ending),
        b.len() == 0 || b[0] != '\n' ==> with_endings(a + seq!['\r'] + b, ending) == with_endings(
            a,
            ending,
        ) + ending + with_endings(b, ending),
    decreases a.len(),
{
    let feed = a + seq!['\n'] + b;
    let both = a + seq!['\r', '\n'] + b;
    let carriage = a + seq!['\r'] + b;
    if a.len() == 0 {
        assert(feed.skip(1) =~= b);
        assert(both.skip(2) =~= b);
        assert(carriage.skip(1) =~= b);
        assert(with_endings(a, ending) =~= Seq::<char>::empty());
        assert(with_endings(a, ending) =~= a);
        assert(with_endings(feed, ending) =~= with_endings(a, ending) + ending + with_endings(
            b,
            ending,
        ));
        assert(with_endings(both, ending) =~= with_endings(a, ending) + ending + with_endings(
            b,
            ending,
        ));
        if b.len() == 0 || b[0] != '\n' {
            if b.len() > 0 {
                assert(carriage[1] == b[0]);
            }
            assert(with_endings(carriage, ending) =~= with_endings(a, ending) + ending
                + with_endings(b, ending));
        }
    } else {
        let n: int = if a[0] == '\r' && a.len() > 1 && a[1] == '\n' {
            2
        } else {
            1
        };
        let rest = a.skip(n);
        line_endings_are_exchanged(rest, b, ending);
        assert(feed.skip(n) =~= rest + seq!['\n'] + b);
        assert(both.skip(n) =~= rest + seq!['\r', '\n'] + b);
        assert(carriage.skip(n) =~= rest + seq!['\r'] + b);
        if rest.len() > 0 {
            assert(rest.last() == a.last());
        }
        let first = if a[0] == '\r' || a[0] == '\n' {
            ending
        } else {
            seq![a[0]]
        };
        assert(with_endings(a, ending) == first + with_endings(rest, ending));
        if forall|i: int| 0 <= i < a.len() ==> a[i] != '\r' && a[i] != '\n' {
            assert(a[0] != '\r' && a[0] != '\n');
            assert(forall|i: int| 0 <= i < rest.len() ==> rest[i] == a[i + n]);
            assert(with_endings(a, ending) =~= a);
        }
        if a.last() != '\r' {
            assert(with_endings(feed, ending) == first + with_endings(feed.skip(n), ending));
            assert(with_endings(feed, ending) =~= with_endings(a, ending) + ending + with_endings(
                b,
                ending,
            ));
        }
        assert(with_endings(both, ending) == first + with_endings(both.skip(n), ending));
        assert(with_endings(both, ending) =~= with_endings(a, ending) + ending + with_endings(
            b,
            ending,
        ));
        if b.len() == 0 || b[0] != '\n' {
            assert(with_endings(carriage, ending) == first + with_endings(carriage.skip(n), ending));
            assert(with_endings(carriage, ending) =~= with_endings(a, ending) + ending
                + with_endings(b, ending));
        }
    }
}

/// Makes every line ending of a text `ending`.
pub fn replace_line_endings(s: &Vec<char>, ending: &Vec<char>) -> (out: Vec<char>)
    ensures
        out@ == with_endings(s@, ending@),
{
    let mut out: Vec<char> = Vec::new();
    let mut i: usize = 0;
    assert(s@.skip(0) =~= s@);
    assert(out@ + with_endings(s@, ending@) =~= with_endings(s@, ending@));
    while i < s.len()
        invariant
            i <= s@.len(),
            out@ + with_endings(s@.skip(i as int), ending@) == with_endings(s@, ending@),
        decreases s.len() - i,
    {
        let ghost rest = s@.skip(i as int);
        let ghost before = out@;
        assert(rest[0] == s@[i as int]);
        assert(rest.skip(1) =~= s@.skip(i + 1));
        if s[i] == '\r' && i + 1 < s.len() && s[i + 1] == '\n' {
            assert(rest[1] == s@[i + 1]);
            assert(rest.skip(2) =~= s@.skip(i + 2));
            append(&mut out, ending);
            assert(before + with_endings(rest, ending@) =~= out@ + with_endings(
                rest.skip(2),
                ending@,
            ));
            i += 2;
        } else if s[i] == '\r' || s[i] == '\n' {
            if i + 1 < s.len() {
                assert(rest[1] == s@[i + 1]);
            }
            append(&mut out, ending);
            assert(before + with_endings(rest, ending@) =~= out@ + with_endings(
                rest.skip(1),
                ending@,
            ));
            i += 1;
        } else {
            out.push(s[i]);
            assert(before + with_endings(rest, ending@) =~= out@ + with_endings(
                rest.skip(1),
                ending@,
            ));
            i += 1;
        }
    }
    assert(with_endings(s@.skip(i as int), ending@) =~= Seq::<char>::empty());
    assert(out@ + Seq::<char>::empty() =~= out@);
    out
}

/// The same text in the place of each range.
pub open spec fn replacement_edits(ranges: Seq<Range>, part: Seq<char>) -> Seq<Edit> {
    range_edits(ranges, Seq::new(ranges.len(), |i: int| part))
}

/// The ranges of the replacements: each where its own edit put the text, facing as the replaced
/// one did.
pub open spec fn replaced_ranges(ranges: Seq<Range>, part: Seq<char>) -> Seq<Range> {
    let es = replacement_edits(ranges, part);
    Seq::new(
        ranges.len(),
        |i: int|
            {
                let at = ranges[i].lo() + growth(es.take(i));
                range(at, at + part.len()).facing(ranges[i].faces())
            },
    )
}

/// Puts a text, with the document's line endings, in the place of every selected range, and
/// selects what was put in.
pub fn replace_selections(
    text: &Text,
    selection: &Selection,
    replacement: &Vec<char>,
    ending: LineEnding,
) -> (t: Transaction)
    requires
        selection.wf(),
        selection.within(text@.len() as int),
        text@.len() + 2 * replacement@.len() * selection.ranges@.len() <= usize::MAX,
    ensures
        ({
            let part = with_endings(replacement@, ending.chars());
            &&& t.edits() == replacement_edits(selection.ranges@, part)
            &&& valid_edits(t.edits(), text@.len() as int)
            &&& t.selection matches Some(s) && s.wf() && s.holds(
                replaced_ranges(selection.ranges@, part),
                selection.primary_index as int,
            )
        }),
{
    let part = replace_line_endings(replacement, &ending.as_chars());
    let ghost ranges = selection.ranges@;
    let ghost es = replacement_edits(ranges, part@);
    proof {
        lemma_with_endings_len(replacement@, ending.chars());
        lemma_range_edits(ranges, Seq::new(ranges.len(), |i: int| part@), text@.len() as int);
        assert(part@.len() * ranges.len() <= 2 * replacement@.len() * ranges.len())
            by (nonlinear_arith)
            requires
                part@.len() <= 2 * replacement@.len(),
        ;
    }
    let mut texts: Vec<Vec<char>> = Vec::new();
    let mut reselected: Vec<Range> = Vec::new();
    let mut removed: usize = 0;
    let mut added: usize = 0;
    let mut i: usize = 0;
    assert(es.take(0) =~= Seq::<Edit>::empty());
    assert(part@.len() * 0 == 0) by (nonlinear_arith);
    while i < selection.ranges.len()
        invariant
            i <= ranges.len(),
            ranges == selection.ranges@,
            ordered(ranges),
            selection.within(text@.len() as int),
            es == replacement_edits(ranges, part@),
            valid_edits(es, text@.len() as int),
            text@.len() + part@.len() * ranges.len() <= usize::MAX,
            added == part@.len() * i,
            growth(es.take(i as int)) == added - removed,
            i > 0 ==> removed <= ranges[i - 1].hi(),
            i == 0 ==> removed == 0,
            texts@.len() == i,
            forall|j: int| 0 <= j < i ==> (#[trigger] texts@[j])@ == part@,
            reselected@.len() == i,
            forall|j: int|
                0 <= j < i ==> reselected@[j] == replaced_ranges(ranges, part@)[j],
        decreases selection.ranges.len() - i,
    {
        let r = selection.ranges[i];
        proof {
            assert(r.within(text@.len() as int));
            if i > 0 {
                assert(ranges[i - 1].hi() <= ranges[i as int].lo());
            }
            assert(es.take(i + 1).drop_last() =~= es.take(i as int));
            assert(es.take(i + 1).last() == es[i as int]);
            assert(part@.len() * (i + 1) == part@.len() * i + part@.len()) by (nonlinear_arith);
            assert(part@.len() * (i + 1) <= part@.len() * ranges.len()) by (nonlinear_arith)
                requires
                    i + 1 <= ranges.len(),
            ;
        }
        let at = r.from() - removed + added;
        reselected.push(Range::new(at, at + part.len()).with_direction(r.direction()));
        texts.push(copy_chars(&part));
        added += part.len();
        removed += r.len();
        i += 1;
    }
    assert(views(texts@) =~= Seq::new(ranges.len(), |i: int| part@));
    assert(reselected@ =~= replaced_ranges(ranges, part@));
    let changes = replace_ranges(&selection.ranges, &texts);
    let after = Selection::new(reselected, selection.primary_index);
    Transaction { changes, selection: Some(after) }
}

proof fn lemma_with_endings_len(s: Seq<char>, ending: Seq<char>)
    requires
        ending.len() <= 2,
    ensures
        with_endings(s, ending).len() <= 2 * s.len(),
    decreases s.len(),
{
    if s.len() == 0 {
    } else if s[0] == '\r' && s.len() > 1 && s[1] == '\n' {
        lemma_with_endings_len(s.skip(2), ending);
    } else {
        lemma_with_endings_len(s.skip(1), ending);
    }
}

/// A range made of whole lines: it holds a line feed, begins where a line begins and ends where
/// one ends.
pub open spec fn linewise(text: Text, r: Range) -> bool {
    let (first, last) = r.lines(text);
    &&& line_count(text@.subrange(r.lo(), r.hi())) >= 2
    &&& line_start(text@, first) == r.lo()
    &&& line_start(text@, min(last + 1, line_count(text@))) == r.hi()
}

/// Whether every selected range is made of whole lines.
pub fn selection_is_linewise(text: &Text, selection: &Selection) -> (b: bool)
    requires
        text.wf(),
        text@.len() < usize::MAX,
        selection.within(text@.len() as int),
    ensures
        b == (forall|i: int|
            0 <= i < selection.ranges@.len() ==> linewise(*text, #[trigger] selection.ranges@[i])),
{
    let mut i: usize = 0;
    while i < selection.ranges.len()
        invariant
            i <= selection.ranges@.len(),
            text.wf(),
            text@.len() < usize::MAX,
            selection.within(text@.len() as int),
            forall|j: int| 0 <= j < i ==> linewise(*text, #[trigger] selection.ranges@[j]),
        decreases selection.ranges.len() - i,
    {
        let r = selection.ranges[i];
        assert(selection.ranges@[i as int].within(text@.len() as int));
        let part = Text::from_chars(r.fragment(text));
        if part.len_lines() < 2 {
            assert(!linewise(*text, selection.ranges@[i as int]));
            return false;
        }
        let (first, last) = r.line_range(text);
        let count = text.len_lines();
        proof {
            lemma_range_lines(*text, r);
        }
        let end_line = if last + 1 <= count {
            last + 1
        } else {
            count
        };
        let start = text.line_to_char(first);
        let end = text.line_to_char(end_line);
        if !(start == r.from() && end == r.to()) {
            assert(!linewise(*text, selection.ranges@[i as int]));
            return false;
        }
        i += 1;
    }
    true
}

/// What happens to a selection besides its deletion.
#[derive(Clone, Copy, Debug, PartialEq, Eq, Structural)]
pub enum Operation {
    Delete,
    Change,
}

#[derive(Clone, Copy, Debug, PartialEq, Eq, Structural)]
pub enum YankAction {
    Yank,
    NoYank,
}

/// What follows a deletion.
#[derive(Clone, Copy, Debug, PartialEq, Eq, Structural)]
pub enum AfterDeletion {
    ExitSelectMode,
    OpenLineAbove,
    EnterInsertMode,
}

/// A deletion: what is written to a register before it, the changes, and what follows.
pub struct Deletion {
    pub yank: Option<(char, Vec<Vec<char>>)>,
    pub changes: Vec<Change>,
    pub after: AfterDeletion,
}

/// The places of ranges.
pub open spec fn range_spans(ranges: Seq<Range>) -> Seq<(usize, usize)> {
    ranges.map_values(|r: Range| (r.lo() as usize, r.hi() as usize))
}

/// Deletes the selected text. It is kept in a register, unless that is the black hole or nothing
/// is to be kept. To change whole lines is to open a line in their place; to change other text is
/// to type in its place.
pub fn delete_selection_impl(
    text: &Text,
    selection: &Selection,
    op: Operation,
    yank: YankAction,
    register: Option<char>,
    default_register: char,
) -> (d: Deletion)
    requires
        text.wf(),
        text@.len() < usize::MAX,
        selection.wf(),
        selection.within(text@.len() as int),
    ensures
        d.yank is Some <==> register != Some('_') && yank == YankAction::Yank,
        d.yank matches Some((name, values)) ==> {
            &&& name == match register {
                Some(c) => c,
                None => default_register,
            }
            &&& views(values@) == fragment_views(text@, selection.ranges@)
        },
        edits(d.changes@) == deletion_edits(range_spans(selection.ranges@)).0,
        valid_edits(edits(d.changes@), text@.len() as int),
        d.after == match op {
            Operation::Delete => AfterDeletion::ExitSelectMode,
            Operation::Change => if forall|i: int|
                0 <= i < selection.ranges@.len() ==> linewise(
                    *text,
                    #[trigger] selection.ranges@[i],
                ) {
                AfterDeletion::OpenLineAbove
            } else {
                AfterDeletion::EnterInsertMode
            },
        },
{
    let only_whole_lines = selection_is_linewise(text, selection);
    let black_hole: bool = match register {
        Some(c) => c == '_',
        None => false,
    };
    let kept = if !black_hole && yank == YankAction::Yank {
        let name = match register {
            Some(c) => c,
            None => default_register,
        };
        Some((name, fragments(text, selection)))
    } else {
        None
    };
    let mut spans: Vec<(usize, usize)> = Vec::new();
    let mut i: usize = 0;
    while i < selection.ranges.len()
        invariant
            i <= selection.ranges@.len(),
            selection.within(text@.len() as int),
            spans@.len() == i,
            forall|j: int|
                0 <= j < i ==> (#[trigger] spans@[j]).0 == selection.ranges@[j].lo() && spans@[j].1
                    == selection.ranges@[j].hi() && spans@[j].1 <= text@.len(),
        decreases selection.ranges.len() - i,
    {
        assert(selection.ranges@[i as int].within(text@.len() as int));
        spans.push((selection.ranges[i].from(), selection.ranges[i].to()));
        i += 1;
    }
    assert(spans@ =~= range_spans(selection.ranges@));
    let changes = delete(&spans, text.len_chars());
    let after = match op {
        Operation::Delete => AfterDeletion::ExitSelectMode,
        Operation::Change => if only_whole_lines {
            AfterDeletion::OpenLineAbove
        } else {
            AfterDeletion::EnterInsertMode
        },
    };
    Deletion { yank: kept, changes, after }
}

/// After a replacement the selected ranges hold the replacement.
pub proof fn replacements_are_selected(s: Seq<char>, ranges: Seq<Range>, part: Seq<char>, i: int)
    requires
        ordered(ranges),
        all_within(ranges, s.len() as int),
        0 <= i < ranges.len(),
        s.len() + part.len() * ranges.len() <= usize::MAX,
    ensures
        ({
            let after = applied(s, replacement_edits(ranges, part));
            let r = replaced_ranges(ranges, part)[i];
            &&& r.within(after.len() as int)
            &&& after.subrange(r.lo(), r.hi()) == part
        }),
{
    let es = replacement_edits(ranges, part);
    lemma_range_edits(ranges, Seq::new(ranges.len(), |i: int| part), s.len() as int);
    inserted_text_stands(s, es, i);
    changed_length(s, es);
    lemma_growth_bounds(es, s.len() as int);
    lemma_inserted_same(es, part.len());
    assert(part.len() * es.len() <= usize::MAX);
}

proof fn lemma_inserted_same(es: Seq<Edit>, n: nat)
    requires
        forall|i: int| 0 <= i < es.len() ==> (#[trigger] es[i]).text.len() == n,
    ensures
        inserted(es) == n * es.len(),
    decreases es.len(),
{
    if es.len() > 0 {
        let rest = es.drop_last();
        assert forall|i: int| 0 <= i < rest.len() implies (#[trigger] rest[i]).text.len() == n by {
            assert(es[i].text.len() == n);
        }
        assert(es[es.len() - 1].text.len() == n);
        lemma_inserted_same(rest, n);
        assert(n * es.len() == n * rest.len() + n) by (nonlinear_arith)
            requires
                es.len() == rest.len() + 1,
        ;
    } else {
        assert(n * es.len() == 0) by (nonlinear_arith)
            requires
                es.len() == 0,
        ;
    }
}

/// A text that takes the place of a range stands between what stood before the range and what
/// stood behind it.
pub proof fn replaced_ranges_hold_the_text(s: Seq<char>, r: Range, part: Seq<char>)
    requires
        r.within(s.len() as int),
    ensures
        applied(s, range_edits(seq![r], seq![part])) == s.take(r.lo()) + part + s.skip(r.hi()),
{
    let es = range_edits(seq![r], seq![part]);
    let e = es[0];
    assert(es.drop_last() =~= Seq::<Edit>::empty());
    assert(es.last() == e);
    assert(applied(s.take(e.from), es.drop_last()) == s.take(e.from));
}

/// The texts of ranges are what stands in them, as long as they are.
pub proof fn fragments_are_what_is_selected(s: Seq<char>, ranges: Seq<Range>, i: int, k: int)
    requires
        0 <= i < ranges.len(),
        ranges[i].within(s.len() as int),
        0 <= k < ranges[i].hi() - ranges[i].lo(),
    ensures
        fragment_views(s, ranges).len() == ranges.len(),
        fragment_views(s, ranges)[i].len() == ranges[i].hi() - ranges[i].lo(),
        fragment_views(s, ranges)[i][k] == s[ranges[i].lo() + k],
{
}

/// Case is switched character by character: one that is lowercase becomes uppercase, another that
/// is uppercase becomes lowercase, and every other one stays as it is.
pub proof fn case_is_switched_by_character(a: Seq<char>, b: Seq<char>, c: char)
    ensures
        all_switched(a + b) == all_switched(a) + all_switched(b),
        lowercase(c) ==> in_case(seq![c], Case::Switch) == upper_of(c),
        !lowercase(c) && uppercase(c) ==> in_case(seq![c], Case::Switch) == lower_of(c),
        !lowercase(c) && !uppercase(c) ==> in_case(seq![c], Case::Switch) == seq![c],
        in_case(a, Case::Upper) == upper_text(a),
        in_case(a, Case::Lower) == lower_text(a),
    decreases b.len(),
{
    assert(seq![c].drop_last() =~= Seq::<char>::empty());
    reveal_with_fuel(all_switched, 2);
    assert(all_switched(seq![c]) =~= switched(c));
    if b.len() == 0 {
        assert(a + b =~= a);
        assert(all_switched(a) + all_switched(b) =~= all_switched(a));
    } else {
        case_is_switched_by_character(a, b.drop_last(), c);
        assert((a + b).drop_last() =~= a + b.drop_last());
        assert((a + b).last() == b.last());
        assert(all_switched(a + b) =~= all_switched(a) + all_switched(b));
    }
}

/// Rotating contents forward moves each to the next selection and the last to the first; rotating
/// backward moves each to the one before and the first to the last; reversing gives the first
/// selection what the last one held. Without a count contents move by one place, and never further
/// than once round.
pub proof fn contents_move_to_their_neighbours(parts: Seq<Seq<char>>, i: int, count: Option<usize>)
    requires
        0 <= i < parts.len(),
    ensures
        ({
            let n = parts.len();
            let forward = reordered(ReorderStrategy::RotateForward, parts, 1);
            let backward = reordered(ReorderStrategy::RotateBackward, parts, 1);
            let reverse = reordered(ReorderStrategy::Reverse, parts, 1);
            &&& i + 1 < n ==> forward[i + 1] == parts[i] && backward[i] == parts[i + 1]
            &&& forward[0] == parts.last() && backward[n - 1] == parts[0]
            &&& reverse[i] == parts[n - 1 - i]
            &&& count is None ==> rotation(count, n as int) == 1
            &&& count matches Some(c) ==> rotation(count, n as int) <= n && (c <= n ==> rotation(
                count,
                n as int,
            ) == c)
        }),
{
    let n = parts.len() as int;
    crate::commands::navigation::steps_lead_to_neighbours(i, n);
    if i + 1 < n {
        crate::commands::navigation::steps_lead_to_neighbours(i + 1, n);
    }
    crate::commands::navigation::steps_lead_to_neighbours(0, n);
    crate::commands::navigation::steps_lead_to_neighbours(n - 1, n);
}

/// Indenting puts tabs, as many as the count says, before a line; or spaces that bring its text to
/// a multiple of a level, the first level filled up and each further one whole.
pub proof fn indentation_reaches_a_level(line: Seq<char>, style: IndentStyle, count: nat)
    requires
        style.wf(),
        count >= 1,
    ensures
        ({
            let put_in = indentation_of(line, style, count);
            match style {
                IndentStyle::Tabs => put_in.len() == count && forall|k: int|
                    0 <= k < count ==> put_in[k] == '\t',
                IndentStyle::Spaces(n) => {
                    &&& forall|k: int| 0 <= k < put_in.len() ==> put_in[k] == ' '
                    &&& (leading_whitespace(line) + put_in.len()) % (n as int) == 0
                    &&& (count - 1) * n < put_in.len() <= count * n
                },
            }
        }),
{
    crate::commands::insert_text::levels_are_tabs_or_spaces(style);
    let unit = style.unit();
    let whole = repeated(unit, count);
    crate::transaction::lemma_repeated_len(unit, count);
    match style {
        IndentStyle::Tabs => {
            lemma_repeated_char(unit, count, '\t');
            assert(unit.len() * count == count) by (nonlinear_arith)
                requires
                    unit.len() == 1,
            ;
        },
        IndentStyle::Spaces(n) => {
            lemma_repeated_char(unit, count, ' ');
            crate::chars::whitespace_at_the_ends_is_counted(line);
            let width = leading_whitespace(line);
            crate::commands::insert_text::lemma_fills_level(
                width,
                n as int,
                count as int,
                whole.len() as int,
            );
            let put_in = indentation_of(line, style, count);
            assert(forall|k: int| 0 <= k < put_in.len() ==> put_in[k] == whole[k + width % (n as int)]);
        },
    }
}

/// Indenting changes every line that is not blank, at its beginning, and no blank line.
pub proof fn blank_lines_are_not_indented(
    text: Seq<char>,
    lines: Seq<int>,
    style: IndentStyle,
    count: nat,
)
    ensures
        ({
            let es = indent_edits(text, lines, style, count);
            &&& forall|i: int|
                0 <= i < lines.len() && (exists|k: int|
                    0 <= k < line_at(text, #[trigger] lines[i]).len() && !whitespace(
                        #[trigger] line_at(text, lines[i])[k],
                    )) ==> es.contains(
                    Edit {
                        from: line_start(text, lines[i]),
                        to: line_start(text, lines[i]),
                        text: indentation_of(line_at(text, lines[i]), style, count),
                    },
                )
            &&& forall|j: int|
                0 <= j < es.len() ==> (#[trigger] es[j]).from == es[j].to && exists|i: int|
                    0 <= i < lines.len() && es[j].from == line_start(text, #[trigger] lines[i])
                        && exists|k: int|
                        0 <= k < line_at(text, lines[i]).len() && !whitespace(
                            #[trigger] line_at(text, lines[i])[k],
                        )
        }),
    decreases lines.len(),
{
    if lines.len() > 0 {
        let front = lines.drop_last();
        blank_lines_are_not_indented(text, front, style, count);
        let before = indent_edits(text, front, style, count);
        let es = indent_edits(text, lines, style, count);
        assert(lines[lines.len() - 1] == lines.last());
        let whole = line_at(text, lines.last());
        assert(blank(whole) <==> !(exists|k: int|
            0 <= k < whole.len() && !whitespace(#[trigger] whole[k])));
        assert forall|i: int|
            0 <= i < lines.len() && (exists|k: int|
                0 <= k < line_at(text, #[trigger] lines[i]).len() && !whitespace(
                    #[trigger] line_at(text, lines[i])[k],
                )) implies es.contains(
            Edit {
                from: line_start(text, lines[i]),
                to: line_start(text, lines[i]),
                text: indentation_of(line_at(text, lines[i]), style, count),
            },
        ) by {
            let e = Edit {
                from: line_start(text, lines[i]),
                to: line_start(text, lines[i]),
                text: indentation_of(line_at(text, lines[i]), style, count),
            };
            if i < front.len() {
                assert(front[i] == lines[i]);
                assert(before.contains(e));
                let j = choose|j: int| 0 <= j < before.len() && before[j] == e;
                assert(es[j] == e);
            } else {
                assert(es[before.len() as int] == e);
            }
        }
        assert forall|j: int| 0 <= j < es.len() implies (#[trigger] es[j]).from == es[j].to
            && exists|i: int|
            0 <= i < lines.len() && es[j].from == line_start(text, #[trigger] lines[i]) && exists|
                k: int,
            |
                0 <= k < line_at(text, lines[i]).len() && !whitespace(
                    #[trigger] line_at(text, lines[i])[k],
                ) by {
            if j < before.len() {
                assert(es[j] == before[j]);
                let i = choose|i: int|
                    0 <= i < front.len() && before[j].from == line_start(text, #[trigger] front[i])
                        && exists|k: int|
                        0 <= k < line_at(text, front[i]).len() && !whitespace(
                            #[trigger] line_at(text, front[i])[k],
                        );
                assert(lines[i] == front[i]);
            } else {
                assert(es[j].from == line_start(text, lines[lines.len() - 1]));
            }
        }
    }
}

/// The columns that blanks take: a tab reaches to the next tab stop.
pub open spec fn blank_width(s: Seq<char>, tab: int) -> int
    decreases s.len(),
{
    if s.len() == 0 {
        0
    } else {
        let before = blank_width(s.drop_last(), tab);
        if s.last() == ' ' {
            before + 1
        } else {
            before - before % tab + tab
        }
    }
}

proof fn lemma_indent_part(line: Seq<char>, pos: int, tab: int, target: int)
    requires
        0 <= pos <= line.len(),
        tab > 0,
        forall|k: int| 0 <= k < pos ==> is_blank(#[trigger] line[k]),
        pos > 0 ==> blank_width(line.take(pos), tab) < target,
    ensures
        ({
            let n = indent_part(line, pos, blank_width(line.take(pos), tab), tab, target);
            &&& pos <= n <= line.len()
            &&& forall|k: int| 0 <= k < n ==> is_blank(#[trigger] line[k])
            &&& n > pos ==> (n == 1 || blank_width(line.take(n - 1), tab) < target)
            &&& (n > pos && blank_width(line.take(n), tab) >= target) || n == line.len() || !is_blank(
                line[n],
            )
        }),
    decreases line.len() - pos,
{
    if pos < line.len() && is_blank(line[pos]) {
        let width = blank_width(line.take(pos), tab);
        assert(line.take(pos + 1).drop_last() =~= line.take(pos));
        assert(line.take(pos + 1).last() == line[pos]);
        assert((width / tab + 1) * tab == width - width % tab + tab) by (nonlinear_arith)
            requires
                tab > 0,
        ;
        let wider = blank_width(line.take(pos + 1), tab);
        if wider < target {
            lemma_indent_part(line, pos + 1, tab, target);
            let n = indent_part(line, pos + 1, wider, tab, target);
            if n == pos + 1 {
                assert(line.take(n - 1) =~= line.take(pos));
            }
        }
    }
}

/// Unindenting takes blanks from the beginning of a line: no more than are needed for the width
/// that is asked for, and as many as there are where they are too few.
pub proof fn unindenting_takes_leading_blanks(line: Seq<char>, tab: int, target: int)
    requires
        tab > 0,
    ensures
        ({
            let n = indent_part(line, 0, 0, tab, target);
            &&& 0 <= n <= line.len()
            &&& forall|k: int| 0 <= k < n ==> (#[trigger] line[k]) == ' ' || line[k] == '\t'
            &&& n > 1 ==> blank_width(line.take(n - 1), tab) < target
            &&& (n > 0 && blank_width(line.take(n), tab) >= target) || n == line.len() || (line[n] != ' '
                && line[n] != '\t')
        }),
{
    assert(line.take(0) =~= Seq::<char>::empty());
    assert(blank_width(line.take(0), tab) == 0);
    lemma_indent_part(line, 0, tab, target);
    let n = indent_part(line, 0, 0, tab, target);
    assert forall|k: int| 0 <= k < n implies (#[trigger] line[k]) == ' ' || line[k] == '\t' by {
        assert(is_blank(line[k]));
    }
}

/// Unindenting puts nothing in, and takes from each line only what it begins with.
pub proof fn unindented_lines_lose_their_beginning(
    text: Seq<char>,
    lines: Seq<int>,
    tab: int,
    target: int,
)
    ensures
        ({
            let es = unindent_edits(text, lines, tab, target);
            &&& forall|j: int|
                0 <= j < es.len() ==> (#[trigger] es[j]).text.len() == 0 && exists|i: int|
                    0 <= i < lines.len() && es[j].from == line_start(text, #[trigger] lines[i])
                        && es[j].to == es[j].from + indent_part(
                        line_at(text, lines[i]),
                        0,
                        0,
                        tab,
                        target,
                    )
            &&& forall|i: int|
                0 <= i < lines.len() && indent_part(line_at(text, #[trigger] lines[i]), 0, 0, tab, target)
                    > 0 ==> exists|j: int|
                    0 <= j < es.len() && (#[trigger] es[j]).from == line_start(text, lines[i])
        }),
    decreases lines.len(),
{
    if lines.len() > 0 {
        let front = lines.drop_last();
        unindented_lines_lose_their_beginning(text, front, tab, target);
        let before = unindent_edits(text, front, tab, target);
        let es = unindent_edits(text, lines, tab, target);
        assert(lines[lines.len() - 1] == lines.last());
        assert forall|j: int| 0 <= j < es.len() implies (#[trigger] es[j]).text.len() == 0 && exists|
            i: int,
        |
            0 <= i < lines.len() && es[j].from == line_start(text, #[trigger] lines[i]) && es[j].to
                == es[j].from + indent_part(line_at(text, lines[i]), 0, 0, tab, target) by {
            if j < before.len() {
                assert(es[j] == before[j]);
                let i = choose|i: int|
                    0 <= i < front.len() && before[j].from == line_start(text, #[trigger] front[i])
                        && before[j].to == before[j].from + indent_part(
                        line_at(text, front[i]),
                        0,
                        0,
                        tab,
                        target,
                    );
                assert(lines[i] == front[i]);
            } else {
                assert(es[j].from == line_start(text, lines[lines.len() - 1]));
            }
        }
        assert forall|i: int|
            0 <= i < lines.len() && indent_part(line_at(text, #[trigger] lines[i]), 0, 0, tab, target)
                > 0 implies exists|j: int|
            0 <= j < es.len() && (#[trigger] es[j]).from == line_start(text, lines[i]) by {
            if i < front.len() {
                assert(front[i] == lines[i]);
                let j = choose|j: int|
                    0 <= j < before.len() && (#[trigger] before[j]).from == line_start(text, front[i]);
                assert(es[j] == before[j]);
            } else {
                assert(es[before.len() as int].from == line_start(text, lines[i]));
            }
        }
    }
}

/// The innermost layers with line tokens and with block tokens are the last that have them.
pub proof fn innermost_comment_layers_are_last(layers: Seq<CommentLayer>)
    ensures
        match last_line_layer(layers) {
            Some(k) => 0 <= k < layers.len() && layers[k].line && forall|j: int|
                k < j < layers.len() ==> !(#[trigger] layers[j]).line,
            None => forall|j: int| 0 <= j < layers.len() ==> !(#[trigger] layers[j]).line,
        },
        match last_block_layer(layers) {
            Some(k) => 0 <= k < layers.len() && layers[k].block && forall|j: int|
                k < j < layers.len() ==> !(#[trigger] layers[j]).block,
            None => forall|j: int| 0 <= j < layers.len() ==> !(#[trigger] layers[j]).block,
        },
    decreases layers.len(),
{
    if layers.len() > 0 {
        let front = layers.drop_last();
        innermost_comment_layers_are_last(front);
        assert(forall|j: int| 0 <= j < front.len() ==> front[j] == #[trigger] layers[j]);
        assert(layers[layers.len() - 1] == layers.last());
    }
}

proof fn lemma_boundaries_of_prefix(breaks: Seq<usize>, n: int, lo: int, hi: int)
    requires
        0 <= n <= breaks.len(),
        forall|k: int| n <= k < breaks.len() ==> (#[trigger] breaks[k]) >= hi,
    ensures
        boundaries_between(breaks, lo, hi) == boundaries_between(breaks.take(n), lo, hi),
    decreases breaks.len(),
{
    if n == breaks.len() {
        assert(breaks.take(n) =~= breaks);
    } else {
        assert(breaks[breaks.len() - 1] >= hi);
        lemma_boundaries_of_prefix(breaks.drop_last(), n, lo, hi);
        assert(breaks.drop_last().take(n) =~= breaks.take(n));
    }
}

/// A piece of text between two boundaries has as many clusters as there are steps from one to the
/// other.
pub proof fn clusters_are_counted(text: Text, i: int, j: int)
    requires
        text.wf(),
        0 <= i <= j < text.breaks@.len(),
    ensures
        clusters(text, text.breaks@[i] as int, text.breaks@[j] as int) == j - i,
    decreases j - i,
{
    let b = text.breaks@;
    let (lo, hi) = (b[i] as int, b[j] as int);
    if i < j {
        assert(b[i] < b[j]);
        lemma_boundaries_of_prefix(b, j, lo, hi);
        lemma_boundaries_above(b.take(j), i, lo, hi);
    }
}

proof fn lemma_boundaries_above(breaks: Seq<usize>, i: int, lo: int, hi: int)
    requires
        0 <= i < breaks.len(),
        breaks[i] == lo,
        forall|a: int, b: int| 0 <= a < b < breaks.len() ==> breaks[a] < breaks[b],
        forall|k: int| 0 <= k < breaks.len() ==> (#[trigger] breaks[k]) < hi,
    ensures
        boundaries_between(breaks, lo, hi) == breaks.len() - 1 - i,
    decreases breaks.len(),
{
    let front = breaks.drop_last();
    assert(breaks[breaks.len() - 1] == breaks.last());
    if i < front.len() {
        assert(breaks[i] < breaks[breaks.len() - 1]);
        lemma_boundaries_above(front, i, lo, hi);
    } else {
        assert forall|k: int| 0 <= k < front.len() implies (#[trigger] front[k]) < lo by {
            assert(breaks[k] < breaks[i]);
        }
        lemma_no_boundaries(front, lo, hi);
    }
}

proof fn lemma_no_boundaries(breaks: Seq<usize>, lo: int, hi: int)
    requires
        forall|k: int| 0 <= k < breaks.len() ==> (#[trigger] breaks[k]) < lo,
    ensures
        boundaries_between(breaks, lo, hi) == 0,
    decreases breaks.len(),
{
    if breaks.len() > 0 {
        assert(breaks[breaks.len() - 1] < lo);
        lemma_no_boundaries(breaks.drop_last(), lo, hi);
    }
}

/// Whole lines begin where a line begins, end behind a line feed or with the text, and hold a line
/// feed; and a range of which this holds is made of whole lines, when its last character ends with
/// that line feed.
pub proof fn whole_lines_lie_between_line_feeds(text: Text, r: Range)
    requires
        text.wf(),
        r.within(text@.len() as int),
    ensures
        ({
            let s = text@;
            let between = (r.lo() == 0 || s[r.lo() - 1] == '\n') && (r.hi() == s.len() || s[r.hi() - 1]
                == '\n');
            &&& linewise(text, r) ==> between && newlines(s.subrange(r.lo(), r.hi())) >= 1
            &&& between && r.anchor != r.head && s[r.hi() - 1] == '\n' && line_of(
                s,
                r.last_position(text),
            ) == line_of(s, r.hi() - 1) ==> linewise(text, r)
        }),
{
    let s = text@;
    lemma_range_lines(text, r);
    let (first, last) = r.lines(text);
    crate::text::lines_lie_between_line_feeds(s, first);
    crate::text::lines_lie_between_line_feeds(s, last);
    crate::text::positions_lie_in_their_line(s, r.lo());
    if r.lo() == 0 || s[r.lo() - 1] == '\n' {
        if line_start(s, first) < r.lo() {
            assert(s[r.lo() - 1] != '\n');
        }
    }
    if r.anchor != r.head && s[r.hi() - 1] == '\n' && line_of(s, r.last_position(text)) == line_of(
        s,
        r.hi() - 1,
    ) {
        crate::text::positions_lie_in_their_line(s, r.hi() - 1);
        let b = line_start(s, last + 1);
        if r.hi() < b {
            crate::text::lemma_line_has_no_inner_feed(s, last, r.hi() - 1);
        }
        assert(r.hi() == b);
        let part = s.subrange(r.lo(), r.hi());
        assert(part.last() == '\n');
    }
}

/// Deleting the selection takes the selected text away, and nothing else.
pub proof fn selected_text_is_deleted(ranges: Seq<Range>, i: int)
    requires
        ordered(ranges),
        0 <= i < ranges.len(),
    ensures
        ({
            let es = deletion_edits(range_spans(ranges)).0;
            &&& es.len() == ranges.len()
            &&& es[i].from == ranges[i].lo()
            &&& es[i].to == ranges[i].hi()
            &&& es[i].text.len() == 0
        }),
{
    let spans = range_spans(ranges);
    assert forall|a: int, b: int| 0 <= a < b < spans.len() implies (#[trigger] spans[a]).1 <= (
    #[trigger] spans[b]).0 by {
        assert(ranges[a].hi() <= ranges[b].lo());
    }
    crate::transaction::separate_deletions_are_made(spans);
    let es = deletion_edits(spans).0;
    assert(es[i].from == spans[i].0);
}

/// A character or a tab that replaces a cluster stands for itself, and the enter key for one line
/// ending.
pub proof fn keys_replace_by_what_they_type(c: char, ending: LineEnding)
    ensures
        replacement(KeyCode::Char(c), ending) == Some(seq![c]),
        replacement(KeyCode::Tab, ending) == replacement(KeyCode::Char('\t'), ending),
        replacement(KeyCode::Enter, ending) matches Some(part) && part.last() == '\n' && newlines(part)
            == 1,
        replacement(KeyCode::Other, ending) is None,
{
    crate::commands::insert::line_endings_hold_one_feed(ending);
}

/// A language that has one kind of tokens is commented with that kind, whichever is asked for. What
/// is block commented is uncommented, all lines before the selection, and is not commented again.
pub proof fn comments_use_the_tokens_there_are(lines_commented: bool, selection_commented: bool)
    ensures
        comment_action(true, false, lines_commented, selection_commented) is ToggleLines,
        line_comment_action(true, false) is ToggleLines,
        block_comment_action(true, false) is ToggleLines,
        line_comment_action(false, true) is ToggleBlocksOfSplitLines,
        block_comment_action(false, true) is ToggleBlocks,
        line_comment_action(true, true) is ToggleLines,
        block_comment_action(true, true) is ToggleBlocks,
        comment_action(false, true, lines_commented, selection_commented) is CommentSplitLines
            <==> !lines_commented && !selection_commented,
        comment_action(true, true, lines_commented, selection_commented) is ToggleLines
            <==> !lines_commented && !selection_commented,
        forall|line_token: bool|
            #[trigger] comment_action(
                line_token,
                true,
                lines_commented,
                selection_commented,
            ) is UncommentSplitLines <==> lines_commented,
        forall|line_token: bool|
            #[trigger] comment_action(
                line_token,
                true,
                lines_commented,
                selection_commented,
            ) is UncommentSelection <==> selection_commented && !lines_commented,
{
}

} // verus!
