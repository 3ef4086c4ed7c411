//! Making selections: trimming, copying, extending and shrinking them, and choosing among them.

use crate::chars::{
    count_leading_whitespace, count_trailing_whitespace, leading_whitespace, trailing_whitespace,
};
use crate::commands::align::Place;
use crate::commands::insert::{blank, lemma_trailing_whitespace};
use crate::commands::search::PromptEvent;
use crate::range::{max, min, range, Direction, Range};
use crate::selection::Selection;
use crate::text::{line_count, line_start, newlines, Text};
use vstd::prelude::*;

verus! {

/// A range without the whitespace at its ends.
pub open spec fn trimmed(s: Seq<char>, r: Range) -> Range {
    let part = s.subrange(r.lo(), r.hi());
    range(r.lo() + leading_whitespace(part), r.hi() - trailing_whitespace(part)).facing(r.faces())
}

/// The ranges that hold more than whitespace, without the whitespace at their ends.
pub open spec fn all_trimmed(s: Seq<char>, ranges: Seq<Range>) -> Seq<Range>
    decreases ranges.len(),
{
    if ranges.len() == 0 {
        Seq::empty()
    } else {
        let before = all_trimmed(s, ranges.drop_last());
        let r = ranges.last();
        if blank(s.subrange(r.lo(), r.hi())) {
            before
        } else {
            before.push(trimmed(s, r))
        }
    }
}

/// The first range that overlaps `primary`, or the last range.
pub open spec fn overlapping_index(ranges: Seq<Range>, primary: Range) -> int
    decreases ranges.len(),
{
    if ranges.len() <= 1 || ranges[0].overlapping(primary) {
        0
    } else {
        1 + overlapping_index(ranges.skip(1), primary)
    }
}

proof fn lemma_overlapping_index(ranges: Seq<Range>, primary: Range)
    requires
        ranges.len() > 0,
    ensures
        0 <= overlapping_index(ranges, primary) < ranges.len(),
    decreases ranges.len(),
{
    if ranges.len() > 1 && !ranges[0].overlapping(primary) {
        lemma_overlapping_index(ranges.skip(1), primary);
    }
}

/// Takes the whitespace at the ends from every range, and drops ranges of nothing else. When none
/// is left, the primary cursor stays.
pub fn trim_selections(text: &Text, selection: &Selection) -> (s: Selection)
    requires
        text.wf(),
        selection.wf(),
        selection.within(text@.len() as int),
    ensures
        s.wf(),
        ({
            let left = all_trimmed(text@, selection.ranges@);
            let primary = selection.ranges@[selection.primary_index as int];
            if left.len() > 0 {
                s.holds(left, overlapping_index(left, primary))
            } else {
                s.primary_index == 0 && s.ranges@ == seq![
                    range(primary.cursor_in(*text), primary.cursor_in(*text)),
                ]
            }
        }),
{
    let ghost all = selection.ranges@;
    let mut ranges: Vec<Range> = Vec::new();
    let mut i: usize = 0;
    assert(all.take(0) =~= Seq::<Range>::empty());
    while i < selection.ranges.len()
        invariant
            i <= all.len(),
            all == selection.ranges@,
            selection.within(text@.len() as int),
            ranges@ == all_trimmed(text@, all.take(i as int)),
        decreases selection.ranges.len() - i,
    {
        let r = selection.ranges[i];
        assert(all.take(i + 1).drop_last() =~= all.take(i as int));
        assert(all[i as int].within(text@.len() as int));
        let trailing = count_trailing_whitespace(&text.chars, r.from(), r.to());
        let ghost part = text@.subrange(r.lo(), r.hi());
        proof {
            lemma_trailing_whitespace(part);
        }
        if trailing < r.len() {
            let leading = count_leading_whitespace(&text.chars, r.from(), r.to());
            ranges.push(
                Range::new(r.from() + leading, r.to() - trailing).with_direction(r.direction()),
            );
        }
        i += 1;
    }
    assert(all.take(i as int) =~= all);
    let primary = selection.primary();
    if ranges.len() == 0 {
        return Selection::point(primary.cursor(text));
    }
    let mut k: usize = 0;
    assert(ranges@.skip(0) =~= ranges@);
    while k < ranges.len() - 1 && !ranges[k].overlaps(&primary)
        invariant
            k < ranges@.len(),
            overlapping_index(ranges@, primary) == k + overlapping_index(
                ranges@.skip(k as int),
                primary,
            ),
        decreases ranges.len() - k,
    {
        assert(ranges@.skip(k as int).skip(1) =~= ranges@.skip(k + 1));
        assert(ranges@.skip(k as int)[0] == ranges@[k as int]);
        k += 1;
    }
    proof {
        assert(ranges@.skip(k as int)[0] == ranges@[k as int]);
    }
    Selection::new(ranges, k)
}

/// What stands a few rows away from a range: the positions shown in the columns of its two ends,
/// and the columns where those positions are shown.
#[derive(Clone, Copy, Debug, PartialEq, Eq, Structural)]
pub struct Probe {
    pub anchor: usize,
    pub head: usize,
    pub anchor_col: usize,
    pub head_col: usize,
}

/// The row that is `n` range heights away.
pub open spec fn row_away(row: int, direction: Direction, height: int, n: int) -> int {
    match direction {
        Direction::Forward => row + n * height,
        Direction::Backward => max(row - n * height, 0),
    }
}

/// How many rows a range covers.
pub open spec fn rows_covered(anchor: Place, head: Place) -> int {
    max(anchor.row as int, head.row as int) - min(anchor.row as int, head.row as int) + 1
}

/// The copies of a range, from the one `i + 1` heights away on, when `found` have been made.
/// `probes` tells what stands where they would be; rows that are too short are passed over.
pub open spec fn copies(
    text: Text,
    anchor: Place,
    head: Place,
    direction: Direction,
    probes: Seq<Probe>,
    count: int,
    i: int,
    found: int,
) -> Seq<Range>
    decreases probes.len() - i,
{
    let height = rows_covered(anchor, head);
    let anchor_row = row_away(anchor.row as int, direction, height, i + 1);
    let head_row = row_away(head.row as int, direction, height, i + 1);
    if found >= count || i < 0 || i >= probes.len() || anchor_row >= line_count(text@) || head_row
        >= line_count(text@) {
        Seq::empty()
    } else {
        let p = probes[i];
        let fits = p.anchor_col == anchor.col && p.head_col == head.col;
        let here = if fits {
            seq![Range { anchor: p.anchor, head: p.anchor }.with_cursor(text, p.head as int, true)]
        } else {
            Seq::empty()
        };
        if anchor_row == 0 && head_row == 0 {
            here
        } else {
            here + copies(
                text,
                anchor,
                head,
                direction,
                probes,
                count,
                i + 1,
                found + here.len(),
            )
        }
    }
}

/// There is a probe for every copy that lies in the text.
pub open spec fn probed(
    text: Text,
    anchor: Place,
    head: Place,
    direction: Direction,
    probes: Seq<Probe>,
) -> bool {
    let height = rows_covered(anchor, head);
    &&& anchor.row < line_count(text@) && head.row < line_count(text@)
    &&& match direction {
        Direction::Forward => max(anchor.row as int, head.row as int) + (probes.len() + 1) * height
            >= line_count(text@),
        Direction::Backward => (probes.len() + 1) * height > max(
            anchor.row as int,
            head.row as int,
        ) && probes.len() > 0,
    }
}

fn copies_of(
    text: &Text,
    anchor: Place,
    head: Place,
    direction: Direction,
    probes: &Vec<Probe>,
    count: usize,
) -> (made: Vec<Range>)
    requires
        text.wf(),
        3 * line_count(text@) <= usize::MAX,
        text@.len() < usize::MAX,
        anchor.row < line_count(text@),
        head.row < line_count(text@),
    ensures
        made@ == copies(*text, anchor, head, direction, probes@, count as int, 0, 0),
{
    let lines = text.len_lines();
    let height: usize = if head.row >= anchor.row {
        head.row - anchor.row + 1
    } else {
        anchor.row - head.row + 1
    };
    let mut made: Vec<Range> = Vec::new();
    let mut offset: usize = 0;
    let mut i: usize = 0;
    let ghost whole = copies(*text, anchor, head, direction, probes@, count as int, 0, 0);
    assert(made@ + whole =~= whole);
    while made.len() < count && i < probes.len()
        invariant
            text.wf(),
            lines == line_count(text@),
            3 * lines <= usize::MAX,
            anchor.row < lines,
            head.row < lines,
            height == rows_covered(anchor, head),
            height <= lines,
            i <= probes@.len(),
            offset == i * height,
            offset < lines,
            whole == copies(*text, anchor, head, direction, probes@, count as int, 0, 0),
            made@ + copies(
                *text,
                anchor,
                head,
                direction,
                probes@,
                count as int,
                i as int,
                made@.len() as int,
            ) == whole,
        decreases probes.len() - i,
    {
        assert((i + 1) * height == i * height + height) by (nonlinear_arith);
        offset += height;
        let anchor_row: usize = match direction {
            Direction::Forward => anchor.row + offset,
            Direction::Backward => if anchor.row >= offset {
                anchor.row - offset
            } else {
                0
            },
        };
        let head_row: usize = match direction {
            Direction::Forward => head.row + offset,
            Direction::Backward => if head.row >= offset {
                head.row - offset
            } else {
                0
            },
        };
        assert(anchor_row == row_away(anchor.row as int, direction, height as int, i + 1));
        assert(head_row == row_away(head.row as int, direction, height as int, i + 1));
        let ghost before = made@;
        if anchor_row >= lines || head_row >= lines {
            assert(made@ + Seq::<Range>::empty() =~= made@);
            return made;
        }
        let p = probes[i];
        let ghost mut here: Seq<Range> = Seq::empty();
        if p.anchor_col == anchor.col && p.head_col == head.col {
            let r = Range::point(p.anchor).put_cursor(text, p.head, true);
            made.push(r);
            proof {
                here = seq![r];
            }
        }
        assert(made@ =~= before + here);
        if anchor_row == 0 && head_row == 0 {
            return made;
        }
        proof {
            let rest = copies(
                *text,
                anchor,
                head,
                direction,
                probes@,
                count as int,
                i + 1,
                made@.len() as int,
            );
            assert(before + (here + rest) =~= made@ + rest);
        }
        i += 1;
    }
    assert(made@ + Seq::<Range>::empty() =~= made@);
    made
}

/// The ranges, each followed by its copies, for the first `n` ranges.
pub open spec fn with_copies(
    text: Text,
    ranges: Seq<Range>,
    anchors: Seq<Place>,
    heads: Seq<Place>,
    direction: Direction,
    probes: Seq<Vec<Probe>>,
    count: int,
    n: nat,
) -> Seq<Range>
    decreases n,
{
    if n == 0 {
        Seq::empty()
    } else {
        with_copies(text, ranges, anchors, heads, direction, probes, count, (n - 1) as nat).push(
            ranges[n - 1],
        ) + copies(
            text,
            anchors[n - 1],
            heads[n - 1],
            direction,
            probes[n - 1]@,
            count,
            0,
            0,
        )
    }
}

/// The characters whose places a range is copied by, that of its head and that of its anchor: the
/// end that a range does not cover stands for the character before it.
pub fn copied_ends(r: &Range) -> (ends: (usize, usize))
    ensures
        (ends.0 as int, ends.1 as int) == (if r.anchor < r.head {
            (r.head - 1, r.anchor as int)
        } else {
            (
                r.head as int,
                if r.anchor > 0 {
                    r.anchor - 1
                } else {
                    0
                },
            )
        }),
{
    if r.anchor < r.head {
        (r.head - 1, r.anchor)
    } else if r.anchor > 0 {
        (r.head, r.anchor - 1)
    } else {
        (r.head, 0)
    }
}

/// Copies every range `count` times to the rows after it, or before it. `heads` and `anchors` are
/// the places where the characters are shown that `copied_ends` gives for each range. The last copy of the
/// primary range becomes primary.
pub fn copy_selection_on_line(
    text: &Text,
    selection: &Selection,
    anchors: &Vec<Place>,
    heads: &Vec<Place>,
    probes: &Vec<Vec<Probe>>,
    direction: Direction,
    count: usize,
) -> (s: Selection)
    requires
        text.wf(),
        text@.len() < usize::MAX,
        3 * line_count(text@) <= usize::MAX,
        selection.wf(),
        anchors@.len() == selection.ranges@.len(),
        heads@.len() == selection.ranges@.len(),
        probes@.len() == selection.ranges@.len(),
        forall|i: int|
            0 <= i < anchors@.len() ==> probed(
                *text,
                #[trigger] anchors@[i],
                heads@[i],
                direction,
                probes@[i]@,
            ),
    ensures
        s.wf(),
        ({
            let made = |n: nat|
                with_copies(
                    *text,
                    selection.ranges@,
                    anchors@,
                    heads@,
                    direction,
                    probes@,
                    count as int,
                    n,
                );
            s.holds(
                selection.ranges@ + made(selection.ranges@.len()),
                selection.ranges@.len() + made((selection.primary_index + 1) as nat).len() - 1,
            )
        }),
{
    let ghost rs = selection.ranges@;
    let ghost made = |n: nat|
        with_copies(*text, rs, anchors@, heads@, direction, probes@, count as int, n);
    let mut ranges = selection.ranges.clone();
    assert(ranges@ =~= rs);
    let mut primary: usize = 0;
    let mut i: usize = 0;
    assert(rs + made(0) =~= rs);
    while i < selection.ranges.len()
        invariant
            i <= rs.len(),
            rs == selection.ranges@,
            selection.primary_index < rs.len(),
            text.wf(),
            text@.len() < usize::MAX,
            3 * line_count(text@) <= usize::MAX,
            anchors@.len() == rs.len(),
            heads@.len() == rs.len(),
            probes@.len() == rs.len(),
            forall|i: int|
                0 <= i < anchors@.len() ==> probed(
                    *text,
                    #[trigger] anchors@[i],
                    heads@[i],
                    direction,
                    probes@[i]@,
                ),
            made == (|n: nat|
                with_copies(*text, rs, anchors@, heads@, direction, probes@, count as int, n)),
            ranges@ == rs + made(i as nat),
            i > selection.primary_index ==> primary == rs.len() + made(
                (selection.primary_index + 1) as nat,
            ).len() - 1 && primary < ranges@.len(),
        decreases selection.ranges.len() - i,
    {
        assert(probed(*text, anchors@[i as int], heads@[i as int], direction, probes@[i as int]@));
        let ghost before = ranges@;
        ranges.push(selection.ranges[i]);
        let mut more = copies_of(text, anchors[i], heads[i], direction, &probes[i], count);
        ranges.append(&mut more);
        proof {
            let here = copies(
                *text,
                anchors@[i as int],
                heads@[i as int],
                direction,
                probes@[i as int]@,
                count as int,
                0,
                0,
            );
            assert(ranges@ =~= before.push(rs[i as int]) + here);
            assert(made((i + 1) as nat) == made(i as nat).push(rs[i as int]) + here);
            assert(ranges@ =~= rs + made((i + 1) as nat));
        }
        if i == selection.primary_index {
            primary = ranges.len() - 1;
        }
        i += 1;
    }
    Selection::new(ranges, primary)
}

/// Selects the whole text.
pub fn select_all(text: &Text) -> (s: Selection)
    ensures
        s.wf(),
        s.primary_index == 0,
        s.ranges@ == seq![Range { anchor: 0, head: text@.len() as usize }],
{
    Selection::single(0, text.len_chars())
}

/// What a prompt that selects by a pattern does on an event: the selection it sets, and the error
/// it reports. `found` is what the pattern selects.
pub fn select_by_pattern(event: PromptEvent, found: Option<Selection>, failure: &'static str) -> (done: (
    Option<Selection>,
    Option<&'static str>,
))
    ensures
        match event {
            PromptEvent::Abort => done.0 is None && done.1 is None,
            PromptEvent::Update => done.0 == found && done.1 is None,
            PromptEvent::Validate => done.0 == found && (done.1 is Some <==> found is None) && (
            done.1 matches Some(m) ==> m@ == failure@),
        },
{
    match event {
        PromptEvent::Abort => (None, None),
        PromptEvent::Update => (found, None),
        PromptEvent::Validate => {
            let message = if found.is_none() {
                Some(failure)
            } else {
                None
            };
            (found, message)
        },
    }
}

/// The prompt for keeping or removing selections that match a pattern.
pub fn keep_or_remove_prompt(remove: bool) -> (prompt: &'static str)
    ensures
        prompt@ == (if remove {
            "remove:"@
        } else {
            "keep:"@
        }),
{
    if remove {
        "remove:"
    } else {
        "keep:"
    }
}

/// Where extending by lines goes.
#[derive(Clone, Copy, Debug, PartialEq, Eq, Structural)]
pub enum Extend {
    Above,
    Below,
}

/// Where line `line` begins; the end of the text for lines past the last.
pub open spec fn clamped_start(s: Seq<char>, line: int) -> int {
    line_start(s, min(line, line_count(s)))
}

fn clamped_line(text: &Text, line: usize) -> (pos: usize)
    requires
        text@.len() < usize::MAX,
    ensures
        pos == clamped_start(text@, line as int),
        pos <= text@.len(),
{
    let count = text.len_lines();
    text.line_to_char(
        if line <= count {
            line
        } else {
            count
        },
    )
}

/// The lines that a range touches are the lines it covers.
pub open spec fn covers_lines(text: Text, r: Range) -> bool {
    let (first, last) = r.lines(text);
    r.lo() == line_start(text@, first) && r.hi() == clamped_start(text@, last + 1)
}

/// A range extended to whole lines; one that covers whole lines goes on by `count` lines, others by
/// one less.
pub open spec fn extended_lines(text: Text, r: Range, extend: Extend, count: int) -> Range {
    let (first, last) = r.lines(text);
    let start = line_start(text@, first);
    let end = clamped_start(text@, last + 1);
    let more = if covers_lines(text, r) {
        count
    } else {
        count - 1
    };
    match extend {
        Extend::Above => range(end, line_start(text@, max(first - more, 0))),
        Extend::Below => range(start, clamped_start(text@, last + more + 1)),
    }
}

fn extend_lines_of(text: &Text, r: &Range, extend: Extend, count: usize) -> (out: Range)
    requires
        text.wf(),
        text@.len() + count < usize::MAX,
        count >= 1,
        r.within(text@.len() as int),
    ensures
        out == extended_lines(*text, *r, extend, count as int),
{
    let (first, last) = r.line_range(text);
    proof {
        lemma_last_line(*text, *r);
    }
    let start = text.line_to_char(first);
    let end = clamped_line(text, last + 1);
    let more: usize = if r.from() == start && r.to() == end {
        count
    } else {
        count - 1
    };
    match extend {
        Extend::Above => Range::new(
            end,
            text.line_to_char(
                if first >= more {
                    first - more
                } else {
                    0
                },
            ),
        ),
        Extend::Below => Range::new(start, clamped_line(text, last + more + 1)),
    }
}

proof fn lemma_last_line(text: Text, r: Range)
    requires
        text.wf(),
        r.within(text@.len() as int),
    ensures
        0 <= r.lines(text).0 <= r.lines(text).1 <= newlines(text@) <= text@.len(),
{
    let s = text@;
    let at = r.last_position(text);
    crate::text::lemma_prev_boundary(text, r.hi());
    crate::text::lemma_newlines_prefix_le(s, r.lo(), at);
    crate::text::lemma_newlines_prefix_le(s, at, s.len() as int);
    crate::text::lemma_newlines_prefix_le(s, 0, s.len() as int);
    assert(s.take(0) =~= Seq::<char>::empty());
    assert(s.take(s.len() as int) =~= s);
}

/// The direction in which extending by lines goes: that of the primary range.
pub fn extend_direction(primary: &Range) -> (extend: Extend)
    ensures
        extend == match primary.faces() {
            Direction::Forward => Extend::Below,
            Direction::Backward => Extend::Above,
        },
{
    match primary.direction() {
        Direction::Forward => Extend::Below,
        Direction::Backward => Extend::Above,
    }
}

/// Extends every range to whole lines, and on by lines above or below.
pub fn extend_line_impl(
    text: &Text,
    selection: &Selection,
    extend: Extend,
    count: usize,
) -> (moved: Selection)
    requires
        text.wf(),
        selection.wf(),
        selection.within(text@.len() as int),
        text@.len() + count < usize::MAX,
        count >= 1,
    ensures
        moved.wf(),
        moved.holds(
            selection.ranges@.map_values(|r: Range| extended_lines(*text, r, extend, count as int)),
            selection.primary_index as int,
        ),
{
    let ghost f = |r: Range| extended_lines(*text, r, extend, count as int);
    let mut ranges: Vec<Range> = Vec::new();
    let mut i: usize = 0;
    while i < selection.ranges.len()
        invariant
            i <= selection.ranges@.len(),
            text.wf(),
            selection.within(text@.len() as int),
            text@.len() + count < usize::MAX,
            count >= 1,
            f == (|r: Range| extended_lines(*text, r, extend, count as int)),
            ranges@.len() == i,
            forall|j: int| 0 <= j < i ==> ranges@[j] == f(selection.ranges@[j]),
        decreases selection.ranges.len() - i,
    {
        let r = selection.ranges[i];
        assert(selection.ranges@[i as int].within(text@.len() as int));
        ranges.push(extend_lines_of(text, &r, extend, count));
        i += 1;
    }
    assert(ranges@ =~= selection.ranges@.map_values(f));
    Selection::new(ranges, selection.primary_index)
}

/// A range whose head moves by `count` lines, made of whole lines.
pub open spec fn line_selected(text: Text, r: Range, extend: Extend, count: int) -> Range {
    let s = text@;
    let lines = line_count(s);
    let (first, last) = r.lines(text);
    let anchor_line = if r.faces() == Direction::Forward {
        first
    } else {
        last
    };
    let from = if r.faces() == Direction::Forward {
        last
    } else {
        first
    };
    let head_line = match extend {
        Extend::Above => max(from - count, 0),
        Extend::Below => min(from + count, lines),
    };
    if anchor_line < head_line || (anchor_line == head_line && extend == Extend::Below) {
        range(line_start(s, min(anchor_line, head_line)), clamped_start(s, max(anchor_line, head_line) + 1))
    } else {
        range(clamped_start(s, anchor_line + 1), line_start(s, head_line))
    }
}

/// How many steps are left after a range has been brought to the bounds of its lines: that counts
/// as one.
pub open spec fn steps_left(text: Text, r: Range, count: int) -> int {
    if covers_lines(text, r) {
        count
    } else {
        max(count - 1, 0)
    }
}

/// The first `n` ranges with their heads moved by lines, and the steps left for those that follow.
pub open spec fn lines_selected(
    text: Text,
    ranges: Seq<Range>,
    extend: Extend,
    count: int,
    n: nat,
) -> (Seq<Range>, int)
    decreases n,
{
    if n == 0 {
        (Seq::empty(), count)
    } else {
        let (before, left) = lines_selected(text, ranges, extend, count, (n - 1) as nat);
        let r = ranges[n - 1];
        let steps = steps_left(text, r, left);
        (before.push(line_selected(text, r, extend, steps)), steps)
    }
}

fn select_lines_of(text: &Text, r: &Range, extend: Extend, count: usize) -> (out: (Range, usize))
    requires
        text.wf(),
        text@.len() + count < usize::MAX,
        r.within(text@.len() as int),
    ensures
        out.1 == steps_left(*text, *r, count as int),
        out.0 == line_selected(*text, *r, extend, out.1 as int),
        out.1 <= count,
{
    let (first, last) = r.line_range(text);
    proof {
        lemma_last_line(*text, *r);
    }
    let lines = text.len_lines();
    let start = text.line_to_char(first);
    let end = clamped_line(text, last + 1);
    let count: usize = if r.from() != start || r.to() != end {
        if count >= 1 {
            count - 1
        } else {
            0
        }
    } else {
        count
    };
    let forward = r.direction() == Direction::Forward;
    let anchor_line = if forward {
        first
    } else {
        last
    };
    let from = if forward {
        last
    } else {
        first
    };
    let head_line: usize = match extend {
        Extend::Above => if from >= count {
            from - count
        } else {
            0
        },
        Extend::Below => if from + count <= lines {
            from + count
        } else {
            lines
        },
    };
    let moved = if anchor_line < head_line || (anchor_line == head_line && extend
        == Extend::Below) {
        Range::new(text.line_to_char(anchor_line), clamped_line(text, head_line + 1))
    } else {
        Range::new(clamped_line(text, anchor_line + 1), text.line_to_char(head_line))
    };
    (moved, count)
}

/// Moves the heads of all ranges by lines, above or below; every range is made of whole lines
/// then.
pub fn select_line_impl(text: &Text, selection: &Selection, extend: Extend, count: usize) -> (s: Selection)
    requires
        text.wf(),
        text@.len() + count < usize::MAX,
        selection.wf(),
        selection.within(text@.len() as int),
    ensures
        s.wf(),
        s.holds(
            lines_selected(
                *text,
                selection.ranges@,
                extend,
                count as int,
                selection.ranges@.len(),
            ).0,
            selection.primary_index as int,
        ),
{
    let mut ranges: Vec<Range> = Vec::new();
    let mut left: usize = count;
    let mut i: usize = 0;
    while i < selection.ranges.len()
        invariant
            i <= selection.ranges@.len(),
            text.wf(),
            text@.len() + count < usize::MAX,
            left <= count,
            selection.within(text@.len() as int),
            ranges@.len() == i,
            (ranges@, left as int) == lines_selected(
                *text,
                selection.ranges@,
                extend,
                count as int,
                i as nat,
            ),
        decreases selection.ranges.len() - i,
    {
        assert(selection.ranges@[i as int].within(text@.len() as int));
        let (moved, steps) = select_lines_of(text, &selection.ranges[i], extend, left);
        ranges.push(moved);
        left = steps;
        i += 1;
    }
    Selection::new(ranges, selection.primary_index)
}

/// A range grown to the bounds of its lines.
pub open spec fn grown_to_lines(text: Text, r: Range) -> Range {
    let (first, last) = r.lines(text);
    range(line_start(text@, first), clamped_start(text@, last + 1)).facing(r.faces())
}

fn grow_to_lines(text: &Text, r: &Range) -> (out: Range)
    requires
        text.wf(),
        text@.len() < usize::MAX,
        r.within(text@.len() as int),
    ensures
        out == grown_to_lines(*text, *r),
{
    let (first, last) = r.line_range(text);
    proof {
        lemma_last_line(*text, *r);
    }
    Range::new(text.line_to_char(first), clamped_line(text, last + 1)).with_direction(r.direction())
}

/// Grows every range to the bounds of its lines.
pub fn extend_to_line_bounds(
    text: &Text,
    selection: &Selection,
) -> (moved: Selection)
    requires
        text.wf(),
        selection.wf(),
        selection.within(text@.len() as int),
        text@.len() < usize::MAX,
    ensures
        moved.wf(),
        moved.holds(
            selection.ranges@.map_values(|r: Range| grown_to_lines(*text, r)),
            selection.primary_index as int,
        ),
{
    let ghost f = |r: Range| grown_to_lines(*text, r);
    let mut ranges: Vec<Range> = Vec::new();
    let mut i: usize = 0;
    while i < selection.ranges.len()
        invariant
            i <= selection.ranges@.len(),
            text.wf(),
            selection.within(text@.len() as int),
            text@.len() < usize::MAX,
            f == (|r: Range| grown_to_lines(*text, r)),
            ranges@.len() == i,
            forall|j: int| 0 <= j < i ==> ranges@[j] == f(selection.ranges@[j]),
        decreases selection.ranges.len() - i,
    {
        let r = selection.ranges[i];
        assert(selection.ranges@[i as int].within(text@.len() as int));
        ranges.push(grow_to_lines(text, &r));
        i += 1;
    }
    assert(ranges@ =~= selection.ranges@.map_values(f));
    Selection::new(ranges, selection.primary_index)
}

/// A range of several lines without the lines that it covers only in part.
pub open spec fn shrunk_to_lines(text: Text, r: Range) -> Range {
    let s = text@;
    let (first, last) = r.lines(text);
    if first == last {
        r
    } else {
        let start = if line_start(s, first) == r.lo() {
            line_start(s, first)
        } else {
            clamped_start(s, first + 1)
        };
        let end = if clamped_start(s, last + 1) == r.hi() {
            clamped_start(s, last + 1)
        } else {
            line_start(s, last)
        };
        range(start, end).facing(r.faces())
    }
}

fn shrink_to_lines(text: &Text, r: &Range) -> (out: Range)
    requires
        text.wf(),
        text@.len() < usize::MAX,
        r.within(text@.len() as int),
    ensures
        out == shrunk_to_lines(*text, *r),
{
    let (first, last) = r.line_range(text);
    proof {
        lemma_last_line(*text, *r);
    }
    if first == last {
        return *r;
    }
    let mut start = text.line_to_char(first);
    let mut end = clamped_line(text, last + 1);
    if start != r.from() {
        start = clamped_line(text, first + 1);
    }
    if end != r.to() {
        end = text.line_to_char(last);
    }
    Range::new(start, end).with_direction(r.direction())
}

/// Shrinks ranges of several lines to the lines that they cover.
pub fn shrink_to_line_bounds(
    text: &Text,
    selection: &Selection,
) -> (moved: Selection)
    requires
        text.wf(),
        selection.wf(),
        selection.within(text@.len() as int),
        text@.len() < usize::MAX,
    ensures
        moved.wf(),
        moved.holds(
            selection.ranges@.map_values(|r: Range| shrunk_to_lines(*text, r)),
            selection.primary_index as int,
        ),
{
    let ghost f = |r: Range| shrunk_to_lines(*text, r);
    let mut ranges: Vec<Range> = Vec::new();
    let mut i: usize = 0;
    while i < selection.ranges.len()
        invariant
            i <= selection.ranges@.len(),
            text.wf(),
            selection.within(text@.len() as int),
            text@.len() < usize::MAX,
            f == (|r: Range| shrunk_to_lines(*text, r)),
            ranges@.len() == i,
            forall|j: int| 0 <= j < i ==> ranges@[j] == f(selection.ranges@[j]),
        decreases selection.ranges.len() - i,
    {
        let r = selection.ranges[i];
        assert(selection.ranges@[i as int].within(text@.len() as int));
        ranges.push(shrink_to_lines(text, &r));
        i += 1;
    }
    assert(ranges@ =~= selection.ranges@.map_values(f));
    Selection::new(ranges, selection.primary_index)
}

fn collapse(text: &Text, r: &Range) -> (out: Range)
    requires
        text.wf(),
    ensures
        out == range(r.cursor_in(*text), r.cursor_in(*text)),
{
    let pos = r.cursor(text);
    Range::new(pos, pos)
}

/// Makes every range an empty one at its cursor.
pub fn collapse_selection(
    text: &Text,
    selection: &Selection,
) -> (moved: Selection)
    requires
        text.wf(),
        selection.wf(),
    ensures
        moved.wf(),
        moved.holds(
            selection.ranges@.map_values(|r: Range| range(r.cursor_in(*text), r.cursor_in(*text))),
            selection.primary_index as int,
        ),
{
    let ghost f = |r: Range| range(r.cursor_in(*text), r.cursor_in(*text));
    let mut ranges: Vec<Range> = Vec::new();
    let mut i: usize = 0;
    while i < selection.ranges.len()
        invariant
            i <= selection.ranges@.len(),
            text.wf(),
            f == (|r: Range| range(r.cursor_in(*text), r.cursor_in(*text))),
            ranges@.len() == i,
            forall|j: int| 0 <= j < i ==> ranges@[j] == f(selection.ranges@[j]),
        decreases selection.ranges.len() - i,
    {
        let r = selection.ranges[i];
        ranges.push(collapse(text, &r));
        i += 1;
    }
    assert(ranges@ =~= selection.ranges@.map_values(f));
    Selection::new(ranges, selection.primary_index)
}

/// Swaps the ends of every range.
pub fn flip_selections(
    text: &Text,
    selection: &Selection,
) -> (moved: Selection)
    requires
        text.wf(),
        selection.wf(),
    ensures
        moved.wf(),
        moved.holds(
            selection.ranges@.map_values(|r: Range| r.flipped()),
            selection.primary_index as int,
        ),
{
    let ghost f = |r: Range| r.flipped();
    let mut ranges: Vec<Range> = Vec::new();
    let mut i: usize = 0;
    while i < selection.ranges.len()
        invariant
            i <= selection.ranges@.len(),
            text.wf(),
            f == (|r: Range| r.flipped()),
            ranges@.len() == i,
            forall|j: int| 0 <= j < i ==> ranges@[j] == f(selection.ranges@[j]),
        decreases selection.ranges.len() - i,
    {
        let r = selection.ranges[i];
        ranges.push(r.flip());
        i += 1;
    }
    assert(ranges@ =~= selection.ranges@.map_values(f));
    Selection::new(ranges, selection.primary_index)
}

/// Turns every range forward.
pub fn ensure_selections_forward(
    text: &Text,
    selection: &Selection,
) -> (moved: Selection)
    requires
        text.wf(),
        selection.wf(),
    ensures
        moved.wf(),
        moved.holds(
            selection.ranges@.map_values(|r: Range| r.facing(Direction::Forward)),
            selection.primary_index as int,
        ),
{
    let ghost f = |r: Range| r.facing(Direction::Forward);
    let mut ranges: Vec<Range> = Vec::new();
    let mut i: usize = 0;
    while i < selection.ranges.len()
        invariant
            i <= selection.ranges@.len(),
            text.wf(),
            f == (|r: Range| r.facing(Direction::Forward)),
            ranges@.len() == i,
            forall|j: int| 0 <= j < i ==> ranges@[j] == f(selection.ranges@[j]),
        decreases selection.ranges.len() - i,
    {
        let r = selection.ranges[i];
        ranges.push(r.with_direction(Direction::Forward));
        i += 1;
    }
    assert(ranges@ =~= selection.ranges@.map_values(f));
    Selection::new(ranges, selection.primary_index)
}

/// Keeps the primary range alone.
pub fn keep_primary_selection(selection: &Selection) -> (s: Selection)
    requires
        selection.wf(),
    ensures
        s.wf(),
        s.primary_index == 0,
        s.ranges@ == seq![selection.ranges@[selection.primary_index as int]],
{
    let r = selection.primary();
    Selection::single(r.anchor, r.head)
}

/// Drops the primary range; the range after it becomes primary, or the last one.
pub fn remove_primary_selection(selection: &Selection) -> (s: Result<Selection, &'static str>)
    requires
        selection.wf(),
    ensures
        match s {
            Err(e) => selection.ranges@.len() == 1 && e@ == "no selections remaining"@,
            Ok(s) => {
                let p = selection.primary_index as int;
                &&& selection.ranges@.len() > 1
                &&& s.wf()
                &&& s.ranges@ == selection.ranges@.remove(p)
                &&& s.primary_index == min(p, selection.ranges@.len() - 2)
            },
        },
{
    if selection.ranges.len() == 1 {
        return Err("no selections remaining");
    }
    let p: usize = selection.primary_index;
    let mut ranges = selection.ranges.clone();
    assert(ranges@ =~= selection.ranges@);
    ranges.remove(p);
    let primary_index: usize = if p == ranges.len() {
        p - 1
    } else {
        p
    };
    proof {
        let all = selection.ranges@;
        let left = all.remove(p as int);
        assert forall|a: int, b: int| 0 <= a < b < left.len() implies (#[trigger] left[a]).lo() < (
        #[trigger] left[b]).lo() && left[a].hi() <= left[b].lo() by {
            let x = if a < p {
                a
            } else {
                a + 1
            };
            let y = if b < p {
                b
            } else {
                b + 1
            };
            assert(all[x].lo() < all[y].lo());
        }
    }
    Ok(Selection { ranges, primary_index })
}

/// The primary index after a rotation. Rotating backward by more than there are ranges does
/// nothing.
pub open spec fn rotated_index(index: int, direction: Direction, count: int, len: int) -> int {
    match direction {
        Direction::Forward => (index + count) % len,
        Direction::Backward => (index + max(len - count, 0) % len) % len,
    }
}

/// Makes another range primary: the one `count` places on, or back.
pub fn rotate_selections(selection: &Selection, direction: Direction, count: usize) -> (s: Selection)
    requires
        selection.wf(),
    ensures
        s.wf(),
        s.ranges@ == selection.ranges@,
        s.primary_index == rotated_index(
            selection.primary_index as int,
            direction,
            count as int,
            selection.ranges@.len() as int,
        ),
{
    let len: usize = selection.ranges.len();
    let index: usize = selection.primary_index;
    let steps: usize = match direction {
        Direction::Forward => count,
        Direction::Backward => if len >= count {
            (len - count) % len
        } else {
            0
        },
    };
    let at = crate::commands::navigation::step_around(index, Direction::Forward, steps, len);
    proof {
        if direction == Direction::Backward && len < count {
            assert(0int % (len as int) == 0);
        }
    }
    let ranges = selection.ranges.clone();
    assert(ranges@ =~= selection.ranges@);
    Selection { ranges, primary_index: at }
}

/// Rotating back undoes rotating forward, as long as there are as many ranges as steps.
pub proof fn rotating_back_undoes(index: int, count: int, len: int)
    requires
        0 <= index < len,
        0 <= count <= len,
    ensures
        rotated_index(
            rotated_index(index, Direction::Forward, count, len),
            Direction::Backward,
            count,
            len,
        ) == index,
{
    let at = (index + count) % len;
    if index + count < len {
        assert(at == index + count) by (nonlinear_arith)
            requires
                at == (index + count) % len,
                0 <= index + count < len,
        ;
    } else {
        assert(at == index + count - len) by (nonlinear_arith)
            requires
                at == (index + count) % len,
                len <= index + count < 2 * len,
        ;
    }
    let back = (len - count) % len;
    if count == 0 {
        assert(back == 0) by (nonlinear_arith)
            requires
                back == len % len,
                len > 0,
        ;
        assert((at + back) % len == index) by (nonlinear_arith)
            requires
                at == index,
                back == 0,
                0 <= index < len,
        ;
    } else {
        assert(back == len - count) by (nonlinear_arith)
            requires
                back == (len - count) % len,
                0 < count <= len,
        ;
        assert((at + back) % len == index) by (nonlinear_arith)
            requires
                at + back == index || at + back == index + len,
                0 <= index < len,
        ;
    }
}

/// Makes the first range primary.
pub fn rotate_selections_first(selection: &Selection) -> (s: Selection)
    requires
        selection.wf(),
    ensures
        s.wf(),
        s.ranges@ == selection.ranges@,
        s.primary_index == 0,
{
    let ranges = selection.ranges.clone();
    assert(ranges@ =~= selection.ranges@);
    Selection { ranges, primary_index: 0 }
}

/// Makes the last range primary.
pub fn rotate_selections_last(selection: &Selection) -> (s: Selection)
    requires
        selection.wf(),
    ensures
        s.wf(),
        s.ranges@ == selection.ranges@,
        s.primary_index == selection.ranges@.len() - 1,
{
    let ranges = selection.ranges.clone();
    assert(ranges@ =~= selection.ranges@);
    Selection { ranges, primary_index: selection.ranges.len() - 1 }
}

/// A trimmed range begins and ends with a character that is no whitespace, faces as it did, and
/// has lost nothing but whitespace.
pub proof fn trimming_takes_whitespace_from_the_ends(s: Seq<char>, r: Range)
    requires
        r.within(s.len() as int),
        exists|k: int| r.lo() <= k < r.hi() && !crate::chars::whitespace(#[trigger] s[k]),
    ensures
        ({
            let new = trimmed(s, r);
            &&& r.lo() <= new.lo() < new.hi() <= r.hi()
            &&& !crate::chars::whitespace(s[new.lo()])
            &&& !crate::chars::whitespace(s[new.hi() - 1])
            &&& forall|k: int|
                r.lo() <= k < new.lo() || new.hi() <= k < r.hi() ==> crate::chars::whitespace(
                    #[trigger] s[k],
                )
            &&& new.faces() == r.faces()
        }),
{
    let part = s.subrange(r.lo(), r.hi());
    crate::chars::whitespace_at_the_ends_is_counted(part);
    assert(forall|k: int| 0 <= k < part.len() ==> part[k] == s[r.lo() + k]);
    let k = choose|k: int| r.lo() <= k < r.hi() && !crate::chars::whitespace(#[trigger] s[k]);
    let (a, b) = (leading_whitespace(part), trailing_whitespace(part));
    assert(part[k - r.lo()] == s[k]);
    assert(a <= k - r.lo());
    assert(part.len() - b > k - r.lo());
    assert(part[a] == s[r.lo() + a]);
    assert(part[part.len() - b - 1] == s[r.hi() - b - 1]);
    assert forall|k: int|
        r.lo() <= k < r.lo() + a || r.hi() - b <= k < r.hi() implies crate::chars::whitespace(
        #[trigger] s[k],
    ) by {
        assert(part[k - r.lo()] == s[k]);
    }
}

/// Trimming keeps every range that holds more than whitespace, trimmed, and no other.
pub proof fn blank_ranges_are_dropped(s: Seq<char>, ranges: Seq<Range>)
    requires
        forall|i: int| 0 <= i < ranges.len() ==> (#[trigger] ranges[i]).within(s.len() as int),
    ensures
        ({
            let left = all_trimmed(s, ranges);
            &&& left.len() <= ranges.len()
            &&& forall|i: int|
                0 <= i < ranges.len() && (exists|k: int|
                    (#[trigger] ranges[i]).lo() <= k < ranges[i].hi() && !crate::chars::whitespace(
                        #[trigger] s[k],
                    )) ==> left.contains(trimmed(s, ranges[i]))
            &&& forall|j: int|
                0 <= j < left.len() ==> exists|i: int|
                    0 <= i < ranges.len() && #[trigger] left[j] == trimmed(s, #[trigger] ranges[i])
                        && exists|k: int|
                        ranges[i].lo() <= k < ranges[i].hi() && !crate::chars::whitespace(
                            #[trigger] s[k],
                        )
        }),
    decreases ranges.len(),
{
    if ranges.len() > 0 {
        let front = ranges.drop_last();
        let last = ranges.last();
        assert forall|i: int| 0 <= i < front.len() implies (#[trigger] front[i]).within(
            s.len() as int,
        ) by {
            assert(ranges[i].within(s.len() as int));
        }
        blank_ranges_are_dropped(s, front);
        let before = all_trimmed(s, front);
        let left = all_trimmed(s, ranges);
        assert(ranges[ranges.len() - 1] == last);
        let part = s.subrange(last.lo(), last.hi());
        assert(forall|k: int| 0 <= k < part.len() ==> part[k] == s[last.lo() + k]);
        if blank(part) {
            assert forall|k: int| last.lo() <= k < last.hi() implies crate::chars::whitespace(
                #[trigger] s[k],
            ) by {
                assert(part[k - last.lo()] == s[k]);
            }
        } else {
            let k = choose|k: int| 0 <= k < part.len() && !crate::chars::whitespace(
                #[trigger] part[k],
            );
            assert(!crate::chars::whitespace(s[last.lo() + k]));
            assert(left[before.len() as int] == trimmed(s, last));
        }
        assert forall|i: int|
            0 <= i < ranges.len() && (exists|k: int|
                (#[trigger] ranges[i]).lo() <= k < ranges[i].hi() && !crate::chars::whitespace(
                    #[trigger] s[k],
                )) implies left.contains(trimmed(s, ranges[i])) by {
            if i < front.len() {
                assert(front[i] == ranges[i]);
                assert(before.contains(trimmed(s, front[i])));
                let j = choose|j: int| 0 <= j < before.len() && before[j] == trimmed(s, front[i]);
                assert(left[j] == before[j]);
            }
        }
        assert forall|j: int| 0 <= j < left.len() implies exists|i: int|
            0 <= i < ranges.len() && #[trigger] left[j] == trimmed(s, #[trigger] ranges[i])
                && exists|k: int|
                ranges[i].lo() <= k < ranges[i].hi() && !crate::chars::whitespace(
                    #[trigger] s[k],
                ) by {
            if j < before.len() {
                assert(left[j] == before[j]);
                let i = choose|i: int|
                    0 <= i < front.len() && before[j] == trimmed(s, #[trigger] front[i]) && exists|
                        k: int,
                    |
                        front[i].lo() <= k < front[i].hi() && !crate::chars::whitespace(
                            #[trigger] s[k],
                        );
                assert(ranges[i] == front[i]);
            } else {
                assert(left[j] == trimmed(s, ranges[ranges.len() - 1]));
            }
        }
    }
}

/// The primary range after trimming is the first that overlaps the former one; where none does, it
/// is the last.
pub proof fn the_primary_range_overlaps_the_former(ranges: Seq<Range>, primary: Range)
    requires
        ranges.len() > 0,
    ensures
        ({
            let k = overlapping_index(ranges, primary);
            &&& 0 <= k < ranges.len()
            &&& ranges[k].overlapping(primary) || k == ranges.len() - 1
            &&& forall|j: int| 0 <= j < k ==> !(#[trigger] ranges[j]).overlapping(primary)
        }),
    decreases ranges.len(),
{
    if ranges.len() > 1 && !ranges[0].overlapping(primary) {
        let rest = ranges.skip(1);
        the_primary_range_overlaps_the_former(rest, primary);
        let k = overlapping_index(ranges, primary);
        assert forall|j: int| 0 <= j < k implies !(#[trigger] ranges[j]).overlapping(primary) by {
            if j > 0 {
                assert(rest[j - 1] == ranges[j]);
            }
        }
    }
}

/// A line number names the place behind as many line feeds, or the end of the text.
proof fn lemma_clamped_start(s: Seq<char>, line: int)
    requires
        0 <= line,
    ensures
        0 <= clamped_start(s, line) <= s.len(),
        line <= newlines(s) ==> newlines(s.take(clamped_start(s, line))) == line && (clamped_start(
            s,
            line,
        ) == 0 || s[clamped_start(s, line) - 1] == '\n') && clamped_start(s, line) == line_start(
            s,
            line,
        ),
        line > newlines(s) ==> clamped_start(s, line) == s.len(),
        line == 0 ==> clamped_start(s, line) == 0,
{
    crate::text::lemma_line_end_bounds(s, min(line, line_count(s)));
    if line <= newlines(s) {
        crate::text::lines_lie_between_line_feeds(s, line);
    } else {
        crate::text::lines_lie_between_line_feeds(s, newlines(s) as int);
    }
}

/// A range that is grown to its lines reaches from the beginning of the first one it touches to
/// behind the line ending of the last one, and faces as it did.
pub proof fn ranges_grow_to_whole_lines(text: Text, r: Range)
    requires
        text.wf(),
        r.within(text@.len() as int),
    ensures
        ({
            let s = text@;
            let new = grown_to_lines(text, r);
            let at = r.last_position(text);
            &&& 0 <= new.lo() <= r.lo() && (new.lo() == 0 || s[new.lo() - 1] == '\n')
            &&& forall|k: int| new.lo() <= k < r.lo() ==> s[k] != '\n'
            &&& at <= new.hi() <= s.len()
            &&& forall|k: int| at <= k < new.hi() - 1 ==> s[k] != '\n'
            &&& (at < new.hi() && s[new.hi() - 1] == '\n') || new.hi() == s.len()
            &&& new.lo() < new.hi() ==> new.faces() == r.faces()
        }),
{
    let s = text@;
    lemma_last_line(text, r);
    crate::text::lemma_prev_boundary(text, r.hi());
    let at = r.last_position(text);
    let (first, last) = r.lines(text);
    crate::text::positions_lie_in_their_line(s, r.lo());
    crate::text::lines_lie_between_line_feeds(s, first);
    crate::text::positions_lie_in_their_line(s, at);
    crate::text::lines_lie_between_line_feeds(s, last);
    lemma_clamped_start(s, last + 1);
    crate::text::lemma_line_start_monotonic(s, first, last);
    let b = line_start(s, last + 1);
    assert(clamped_start(s, last + 1) == b);
    assert forall|k: int| at <= k < b - 1 implies s[k] != '\n' by {
        crate::text::lemma_line_has_no_inner_feed(s, last, k);
    }
}

/// Shrinking to lines leaves a range on one line alone. One on several lines gives up the first
/// one unless it begins with it, and the last one unless it ends with it.
pub proof fn ranges_shrink_to_whole_lines(text: Text, r: Range)
    requires
        text.wf(),
        r.within(text@.len() as int),
    ensures
        ({
            let s = text@;
            let new = shrunk_to_lines(text, r);
            let (first, last) = r.lines(text);
            let begins = r.lo() == 0 || s[r.lo() - 1] == '\n';
            &&& first == last ==> new == r
            &&& first < last ==> {
                &&& newlines(s.take(new.lo())) == (if begins {
                    first
                } else {
                    first + 1
                })
                &&& new.lo() == 0 || s[new.lo() - 1] == '\n'
                &&& begins ==> new.lo() == r.lo()
                &&& new.hi() == r.hi() || newlines(s.take(new.hi())) == last && s[new.hi() - 1] == '\n'
            }
        }),
{
    let s = text@;
    lemma_last_line(text, r);
    let (first, last) = r.lines(text);
    crate::text::positions_lie_in_their_line(s, r.lo());
    crate::text::lines_lie_between_line_feeds(s, first);
    crate::text::lines_lie_between_line_feeds(s, last);
    if first < last {
        lemma_clamped_start(s, first + 1);
        lemma_clamped_start(s, last + 1);
        crate::text::lemma_line_start_monotonic(s, first + 1, last);
        crate::text::lemma_line_start_monotonic(s, last, last + 1);
        crate::text::lemma_line_start_monotonic(s, first, first + 1);
        let begins = r.lo() == 0 || s[r.lo() - 1] == '\n';
        assert(begins <==> line_start(s, first) == r.lo()) by {
            if line_start(s, first) < r.lo() {
                assert(s[r.lo() - 1] != '\n');
            }
        }
        crate::text::lines_lie_between_line_feeds(s, first + 1);
    }
}

/// Extending by lines covers whole lines. A range that does so already goes on by as many lines as
/// the count says, another by one less; below, its head is at the end, above at the beginning, and
/// the other end stays on its line.
pub proof fn ranges_extend_by_whole_lines(text: Text, r: Range, extend: Extend, count: int)
    requires
        text.wf(),
        r.within(text@.len() as int),
        count >= 1,
    ensures
        ({
            let s = text@;
            let (first, last) = r.lines(text);
            let total = newlines(s) as int;
            let new = extended_lines(text, r, extend, count);
            let (lo, hi) = match extend {
                Extend::Above => (new.head as int, new.anchor as int),
                Extend::Below => (new.anchor as int, new.head as int),
            };
            let more = if covers_lines(text, r) {
                count
            } else {
                count - 1
            };
            &&& 0 <= lo <= hi <= s.len()
            &&& lo == 0 || s[lo - 1] == '\n'
            &&& hi == s.len() || s[hi - 1] == '\n'
            &&& match extend {
                Extend::Above => newlines(s.take(lo)) == max(first - more, 0) && (if last < total {
                    newlines(s.take(hi)) == last + 1
                } else {
                    hi == s.len()
                }),
                Extend::Below => newlines(s.take(lo)) == first && (if last + more < total {
                    newlines(s.take(hi)) == last + more + 1
                } else {
                    hi == s.len()
                }),
            }
        }),
{
    let s = text@;
    lemma_last_line(text, r);
    let (first, last) = r.lines(text);
    let more = if covers_lines(text, r) {
        count
    } else {
        count - 1
    };
    let up = max(first - more, 0);
    lemma_clamped_start(s, last + 1);
    lemma_clamped_start(s, last + more + 1);
    lemma_clamped_start(s, up);
    lemma_clamped_start(s, first);
    let total = line_count(s);
    crate::text::lemma_line_start_monotonic(s, up, min(last + 1, total));
    crate::text::lemma_line_start_monotonic(s, first, min(last + more + 1, total));
}

/// A range covers its lines when it begins a line and ends behind the line ending of the last one,
/// or with the text.
pub proof fn covered_lines_are_whole(text: Text, r: Range)
    requires
        text.wf(),
        r.within(text@.len() as int),
    ensures
        ({
            let s = text@;
            let (first, last) = r.lines(text);
            covers_lines(text, r) <==> (r.lo() == 0 || s[r.lo() - 1] == '\n') && (if last < newlines(
                s,
            ) {
                s[r.hi() - 1] == '\n' && newlines(s.take(r.hi())) == last + 1 && r.hi() > 0
            } else {
                r.hi() == s.len()
            })
        }),
{
    let s = text@;
    lemma_last_line(text, r);
    let (first, last) = r.lines(text);
    crate::text::positions_lie_in_their_line(s, r.lo());
    crate::text::lines_lie_between_line_feeds(s, first);
    crate::text::lines_lie_between_line_feeds(s, last);
    lemma_clamped_start(s, last + 1);
    assert(line_start(s, first) == r.lo() <==> r.lo() == 0 || s[r.lo() - 1] == '\n') by {
        if line_start(s, first) < r.lo() {
            assert(s[r.lo() - 1] != '\n');
        }
    }
    if last < newlines(s) && r.hi() > 0 && s[r.hi() - 1] == '\n' && newlines(s.take(r.hi())) == last
        + 1 {
        crate::text::positions_lie_in_their_line(s, r.hi());
        let start = line_start(s, last + 1);
        if start < r.hi() {
            assert(s[r.hi() - 1] != '\n');
        }
    }
}

/// Moving the head of a range by lines leaves the line of its anchor selected, with every line up
/// to the one that the head comes to; the head is on the side that it moved to.
pub proof fn heads_move_by_whole_lines(text: Text, r: Range, extend: Extend, count: int)
    requires
        text.wf(),
        r.within(text@.len() as int),
        count >= 0,
    ensures
        ({
            let s = text@;
            let (first, last) = r.lines(text);
            let total = newlines(s) as int;
            let (kept, from) = if r.faces() == Direction::Forward {
                (first, last)
            } else {
                (last, first)
            };
            let to = match extend {
                Extend::Above => max(from - count, 0),
                Extend::Below => min(from + count, total + 1),
            };
            let new = line_selected(text, r, extend, count);
            let (top, bottom) = (min(kept, to), max(kept, to));
            &&& newlines(s.take(new.lo())) == top && (new.lo() == 0 || s[new.lo() - 1] == '\n')
            &&& if bottom < total {
                newlines(s.take(new.hi())) == bottom + 1 && s[new.hi() - 1] == '\n'
            } else {
                new.hi() == s.len()
            }
            &&& kept < to ==> new.anchor <= new.head
            &&& kept > to ==> new.anchor >= new.head
            &&& kept == to ==> (new.anchor <= new.head <==> extend == Extend::Below || new.anchor
                == new.head)
        }),
{
    let s = text@;
    lemma_last_line(text, r);
    let (first, last) = r.lines(text);
    let total = newlines(s) as int;
    let (kept, from) = if r.faces() == Direction::Forward {
        (first, last)
    } else {
        (last, first)
    };
    let to = match extend {
        Extend::Above => max(from - count, 0),
        Extend::Below => min(from + count, total + 1),
    };
    let (top, bottom) = (min(kept, to), max(kept, to));
    lemma_clamped_start(s, top);
    lemma_clamped_start(s, bottom + 1);
    crate::text::lines_lie_between_line_feeds(s, top);
    crate::text::lemma_line_start_monotonic(s, top, min(bottom + 1, line_count(s)));
    if bottom < total {
        crate::text::lines_lie_between_line_feeds(s, bottom);
    }
}

/// The first range that is not yet made of whole lines uses up one of the steps; each range takes
/// as many as are left then.
pub proof fn steps_are_used_up(text: Text, ranges: Seq<Range>, extend: Extend, count: int, n: nat)
    requires
        n < ranges.len(),
        count >= 0,
    ensures
        ({
            let (before, left) = lines_selected(text, ranges, extend, count, n);
            let (after, then) = lines_selected(text, ranges, extend, count, n + 1);
            &&& before.len() == n
            &&& after.len() == n + 1
            &&& after.drop_last() == before
            &&& 0 <= then <= left <= count
            &&& covers_lines(text, ranges[n as int]) ==> then == left
            &&& !covers_lines(text, ranges[n as int]) && left > 0 ==> then == left - 1
            &&& after.last() == line_selected(text, ranges[n as int], extend, then)
        }),
    decreases n,
{
    if n > 0 {
        steps_are_used_up(text, ranges, extend, count, (n - 1) as nat);
    }
    let (before, left) = lines_selected(text, ranges, extend, count, n);
    let (after, then) = lines_selected(text, ranges, extend, count, n + 1);
    assert(after.drop_last() =~= before);
}

/// The rows that a range covers are counted from one end to the other, both included.
pub proof fn covered_rows_reach_from_end_to_end(anchor: Place, head: Place)
    ensures
        rows_covered(anchor, head) == rows_covered(head, anchor),
        rows_covered(anchor, head) >= 1,
        anchor.row <= head.row ==> anchor.row + rows_covered(anchor, head) == head.row + 1,
{
}

/// Copies are no more than asked for, and stand in the columns of the range: each where a probe
/// found both of them, reaching from one to the other.
pub proof fn copies_stand_in_the_same_columns(
    text: Text,
    anchor: Place,
    head: Place,
    direction: Direction,
    probes: Seq<Probe>,
    count: int,
    i: int,
    found: int,
)
    requires
        0 <= i,
        found <= count,
    ensures
        ({
            let made = copies(text, anchor, head, direction, probes, count, i, found);
            &&& made.len() <= count - found
            &&& forall|j: int|
                0 <= j < made.len() ==> exists|k: int|
                    i <= k < probes.len() && (#[trigger] probes[k]).anchor_col == anchor.col
                        && probes[k].head_col == head.col && #[trigger] made[j] == (Range {
                        anchor: probes[k].anchor,
                        head: probes[k].anchor,
                    }).with_cursor(text, probes[k].head as int, true)
        }),
    decreases probes.len() - i,
{
    let made = copies(text, anchor, head, direction, probes, count, i, found);
    let height = rows_covered(anchor, head);
    let anchor_row = row_away(anchor.row as int, direction, height, i + 1);
    let head_row = row_away(head.row as int, direction, height, i + 1);
    if found >= count || i >= probes.len() || anchor_row >= line_count(text@) || head_row
        >= line_count(text@) {
    } else {
        let p = probes[i];
        let fits = p.anchor_col == anchor.col && p.head_col == head.col;
        let here = if fits {
            seq![Range { anchor: p.anchor, head: p.anchor }.with_cursor(text, p.head as int, true)]
        } else {
            Seq::<Range>::empty()
        };
        let rest = copies(
            text,
            anchor,
            head,
            direction,
            probes,
            count,
            i + 1,
            found + here.len(),
        );
        copies_stand_in_the_same_columns(
            text,
            anchor,
            head,
            direction,
            probes,
            count,
            i + 1,
            found + here.len(),
        );
        assert forall|j: int| 0 <= j < made.len() implies exists|k: int|
            i <= k < probes.len() && (#[trigger] probes[k]).anchor_col == anchor.col
                && probes[k].head_col == head.col && #[trigger] made[j] == (Range {
                anchor: probes[k].anchor,
                head: probes[k].anchor,
            }).with_cursor(text, probes[k].head as int, true) by {
            if j < here.len() {
                assert(made[j] == here[0]);
                assert(probes[i].anchor_col == anchor.col);
            } else {
                assert(made[j] == rest[j - here.len()]);
                let k = choose|k: int|
                    i + 1 <= k < probes.len() && (#[trigger] probes[k]).anchor_col == anchor.col
                        && probes[k].head_col == head.col && rest[j - here.len()] == (Range {
                        anchor: probes[k].anchor,
                        head: probes[k].anchor,
                    }).with_cursor(text, probes[k].head as int, true);
                assert(probes[k].anchor_col == anchor.col);
            }
        }
    }
}

/// Rotating by one makes the next range primary, or the one before; from the last one it goes on
/// with the first, and back.
pub proof fn rotating_goes_round(index: int, len: int)
    requires
        0 <= index < len,
    ensures
        rotated_index(index, Direction::Forward, 1, len) == (if index + 1 < len {
            index + 1
        } else {
            0
        }),
        rotated_index(index, Direction::Backward, 1, len) == (if index > 0 {
            index - 1
        } else {
            len - 1
        }),
{
    lemma_small_mod(index + 1, len);
    if len > 1 {
        lemma_small_mod(len - 1, len);
    } else {
        assert(0int % len == 0) by (nonlinear_arith)
            requires
                len == 1,
        ;
    }
    lemma_small_mod(index + (len - 1), len);
}

proof fn lemma_small_mod(x: int, n: int)
    by (nonlinear_arith)
    requires
        0 <= x < 2 * n,
    ensures
        x % n == if x < n {
            x
        } else {
            x - n
        },
{
}

/// Copies stand next to each other: the rows of the next copy begin right behind, or end right
/// before, those of the one before it, and the first begins right beside the range itself.
pub proof fn copies_stand_next_to_each_other(anchor: Place, head: Place, n: int)
    requires
        0 <= n,
    ensures
        ({
            let height = rows_covered(anchor, head);
            let top = min(anchor.row as int, head.row as int);
            let bottom = max(anchor.row as int, head.row as int);
            &&& row_away(top, Direction::Forward, height, 0) == top
            &&& row_away(top, Direction::Forward, height, n + 1) == row_away(
                bottom,
                Direction::Forward,
                height,
                n,
            ) + 1
            &&& row_away(top, Direction::Backward, height, 0) == top
            &&& row_away(top, Direction::Backward, height, n) > 0 ==> row_away(
                bottom,
                Direction::Backward,
                height,
                n + 1,
            ) == row_away(top, Direction::Backward, height, n) - 1
        }),
{
    let height = rows_covered(anchor, head);
    assert((n + 1) * height == n * height + height) by (nonlinear_arith);
}

} // verus!
