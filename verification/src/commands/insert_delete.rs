//! Deleting while inserting.

use crate::chars::{count_leading_whitespace, leading_whitespace};
use crate::range::{min, range, Direction, Range};
use crate::selection::Selection;
use crate::text::{
    line_at, line_end, line_of, line_start, nth_next_boundary, nth_prev_boundary, prev_boundary,
    LineEnding, Text,
};
use crate::transaction::{
    delete, deletion_edits, edits, lemma_edits_push, lemma_valid_push, valid_edits, Change, Edit,
};
use vstd::prelude::*;

verus! {

/// `r` without the cursor that it ends with, unless that is the end of the text.
pub open spec fn without_cursor(text: Text, r: Range, cursor: Range) -> Range {
    if r.hi() == cursor.hi() && text@.len() != cursor.hi() {
        range(r.lo(), prev_boundary(text.breaks@, cursor.hi()))
    } else {
        r
    }
}

/// Excludes the cursor from a range.
fn exclude_cursor(text: &Text, r: Range, cursor: &Range) -> (out: Range)
    requires
        text.wf(),
    ensures
        out == without_cursor(*text, r, *cursor),
{
    if r.to() == cursor.to() && text.len_chars() != cursor.to() {
        Range::new(r.from(), text.prev_grapheme_boundary(cursor.to()))
    } else {
        r
    }
}

/// The characters of the line before the cursor.
pub open spec fn before_cursor(text: Text, r: Range) -> Seq<char> {
    let pos = r.cursor_in(text);
    text@.subrange(line_start(text@, line_of(text@, pos)), pos)
}

/// Nothing but spaces and tabs.
pub open spec fn indentation(s: Seq<char>) -> bool {
    forall|i: int| 0 <= i < s.len() ==> (#[trigger] s[i] == ' ' || s[i] == '\t')
}

/// The columns that spaces and tabs take.
pub open spec fn columns(s: Seq<char>, tab_width: usize) -> int
    decreases s.len(),
{
    if s.len() == 0 {
        0
    } else {
        columns(s.drop_last(), tab_width) + if s.last() == '\t' {
            tab_width as int
        } else {
            1
        }
    }
}

/// How many spaces `s` ends with.
pub open spec fn trailing_spaces(s: Seq<char>) -> int
    decreases s.len(),
{
    if s.len() > 0 && s.last() == ' ' {
        1 + trailing_spaces(s.drop_last())
    } else {
        0
    }
}

/// What the backspace key takes of the indentation before the cursor: a tab, or the spaces beyond
/// the last multiple of a level, or a whole level of them.
pub open spec fn dedented(
    text: Text,
    r: Range,
    tab_width: usize,
    indent_width: usize,
) -> Option<(int, int)> {
    let pos = r.cursor_in(text);
    let before = before_cursor(text, r);
    if before.len() == 0 || !indentation(before) {
        None
    } else if text@[pos - 1] == '\t' {
        Some((nth_prev_boundary(text.breaks@, pos, 1), pos))
    } else {
        let beyond = columns(before, tab_width) % (indent_width as int);
        let dropped = if beyond == 0 {
            indent_width as int
        } else {
            beyond
        };
        Some((pos - min(dropped, trailing_spaces(before)), pos))
    }
}

/// The columns that the spaces and tabs from `from` up to `to` take.
fn count_columns(chars: &Vec<char>, from: usize, to: usize, tab_width: usize) -> (n: u128)
    requires
        from <= to <= chars@.len(),
    ensures
        n == columns(chars@.subrange(from as int, to as int), tab_width),
{
    let mut n: u128 = 0;
    let mut i: usize = from;
    let ghost s = chars@.subrange(from as int, to as int);
    assert(s.take(0) =~= Seq::<char>::empty());
    while i < to
        invariant
            from <= i <= to <= chars@.len(),
            s == chars@.subrange(from as int, to as int),
            n == columns(s.take(i - from), tab_width),
            n <= (i - from) * 0xffff_ffff_ffff_ffff,
        decreases to - i,
    {
        assert(s.take(i - from + 1).drop_last() =~= s.take(i - from));
        if chars[i] == '\t' {
            n = n + tab_width as u128;
        } else {
            n = n + 1;
        }
        i += 1;
    }
    assert(s.take(i - from) =~= s);
    n
}

/// What the backspace key takes of the indentation before the cursor of a range.
pub fn dedent(text: &Text, r: &Range, tab_width: usize, indent_width: usize) -> (span: Option<
    (usize, usize),
>)
    requires
        text.wf(),
        r.within(text@.len() as int),
        indent_width > 0,
    ensures
        (match span {
            Some(span) => Some((span.0 as int, span.1 as int)),
            None => None,
        }) == dedented(*text, *r, tab_width, indent_width),
        span matches Some(span) ==> span.0 <= span.1 && span.1 == r.cursor_in(*text),
{
    let pos = r.cursor(text);
    let start = text.line_to_char(text.char_to_line(pos));
    proof {
        crate::text::lemma_line_of_bounds(text@, pos as int);
    }
    let ghost before = before_cursor(*text, *r);
    if start == pos {
        return None;
    }
    let mut i: usize = start;
    while i < pos
        invariant
            start <= i <= pos <= text@.len(),
            before == text@.subrange(start as int, pos as int),
            before == before_cursor(*text, *r),
            forall|k: int|
                0 <= k < i - start ==> (#[trigger] before[k] == ' ' || before[k] == '\t'),
        decreases pos - i,
    {
        if text.chars[i] != ' ' && text.chars[i] != '\t' {
            assert(before[i - start] == text@[i as int]);
            assert(!indentation(before));
            return None;
        }
        i += 1;
    }
    assert(indentation(before));
    if text.chars[pos - 1] == '\t' {
        return Some((text.nth_prev_grapheme_boundary(pos, 1), pos));
    }
    let width = count_columns(&text.chars, start, pos, tab_width);
    let beyond: u128 = width % (indent_width as u128);
    let dropped: usize = if beyond == 0 {
        indent_width
    } else {
        beyond as usize
    };
    let mut n: usize = 0;
    assert(before.take(before.len() as int) =~= before);
    while n < dropped && n < pos - start && text.chars[pos - n - 1] == ' '
        invariant
            start <= pos <= text@.len(),
            n <= dropped,
            n <= pos - start,
            before == text@.subrange(start as int, pos as int),
            trailing_spaces(before) == n + trailing_spaces(before.take(before.len() - n)),
        decreases pos - start - n,
    {
        assert(before.take(before.len() - n).drop_last() =~= before.take(before.len() - n - 1));
        n += 1;
    }
    proof {
        lemma_trailing_spaces(before.take(before.len() - n));
    }
    Some((pos - n, pos))
}

proof fn lemma_trailing_spaces(s: Seq<char>)
    ensures
        0 <= trailing_spaces(s) <= s.len(),
    decreases s.len(),
{
    if s.len() > 0 && s.last() == ' ' {
        lemma_trailing_spaces(s.drop_last());
    }
}

/// What the backspace key deletes at a range, and where that leaves the range when the pairing of
/// brackets and quotes decides it.
pub open spec fn backspace(
    text: Text,
    r: Range,
    count: usize,
    tab_width: usize,
    indent_width: usize,
    paired: Option<((usize, usize), Range)>,
) -> ((int, int), Option<Range>) {
    let pos = r.cursor_in(text);
    if pos == 0 {
        ((0, 0), None)
    } else {
        match dedented(text, r, tab_width, indent_width) {
            Some(span) => (span, None),
            None => match paired {
                Some((span, after)) => ((span.0 as int, span.1 as int), Some(after)),
                None => ((nth_prev_boundary(text.breaks@, pos, count as nat), pos), None),
            },
        }
    }
}

/// The backspace key: takes indentation, or both ends of an empty pair as `paired` says, or
/// `count` grapheme clusters.
pub fn delete_char_backward(
    text: &Text,
    selection: &Selection,
    count: usize,
    tab_width: usize,
    indent_width: usize,
    paired: &Vec<Option<((usize, usize), Range)>>,
) -> (done: Vec<((usize, usize), Option<Range>)>)
    requires
        text.wf(),
        selection.within(text@.len() as int),
        indent_width > 0,
        paired@.len() == selection.ranges@.len(),
    ensures
        done@.len() == selection.ranges@.len(),
        forall|i: int|
            0 <= i < done@.len() ==> (
                ((#[trigger] done@[i]).0.0 as int, done@[i].0.1 as int),
                done@[i].1,
            ) == backspace(
                *text,
                selection.ranges@[i],
                count,
                tab_width,
                indent_width,
                paired@[i],
            ),
{
    let mut done: Vec<((usize, usize), Option<Range>)> = Vec::new();
    let mut i: usize = 0;
    while i < selection.ranges.len()
        invariant
            i <= selection.ranges@.len() == paired@.len(),
            text.wf(),
            selection.within(text@.len() as int),
            indent_width > 0,
            done@.len() == i,
            forall|j: int|
                0 <= j < i ==> (
                    ((#[trigger] done@[j]).0.0 as int, done@[j].0.1 as int),
                    done@[j].1,
                ) == backspace(
                    *text,
                    selection.ranges@[j],
                    count,
                    tab_width,
                    indent_width,
                    paired@[j],
                ),
        decreases selection.ranges.len() - i,
    {
        let r = selection.ranges[i];
        assert(selection.ranges@[i as int].within(text@.len() as int));
        let pos = r.cursor(text);
        if pos == 0 {
            done.push(((0, 0), None));
        } else {
            match dedent(text, &r, tab_width, indent_width) {
                Some(span) => done.push((span, None)),
                None => match paired[i] {
                    Some((span, after)) => done.push((span, Some(after))),
                    None => done.push(((text.nth_prev_grapheme_boundary(pos, count), pos), None)),
                },
            }
        }
        i += 1;
    }
    done
}

/// What deleting while inserting does: the changes, and the selection that is set before them.
pub struct InsertDeletion {
    pub changes: Vec<Change>,
    pub selection: Option<Selection>,
}

/// A range that grows over the character which a forward deletion pulls under its cursor.
pub open spec fn grown(r: Range) -> Range {
    if r.head > r.anchor {
        range(r.anchor as int, r.head + 1)
    } else {
        r
    }
}

/// A forward deletion reaches the end of the text at a range whose cursor follows its anchor.
pub open spec fn reaches_end(ranges: Seq<Range>, spans: Seq<(usize, usize)>, len: int) -> bool {
    exists|i: int|
        0 <= i < ranges.len() && (#[trigger] ranges[i]).head > ranges[i].anchor && spans[i].1 == len
}

/// The edits of a deletion while inserting: a line ending is put at the end of the text when the
/// cursor would otherwise fall off it.
pub open spec fn insert_deletion_edits(
    ranges: Seq<Range>,
    spans: Seq<(usize, usize)>,
    direction: Direction,
    len: int,
    line_ending: LineEnding,
) -> Seq<Edit> {
    let deleted = deletion_edits(spans).0;
    if direction == Direction::Forward && reaches_end(ranges, spans, len) {
        deleted.push(Edit { from: len, to: len, text: line_ending.chars() })
    } else {
        deleted
    }
}

/// Deletes a span at every range. Forward, a range whose cursor follows its anchor grows by one,
/// so that it does not shrink as the text moves up to it.
pub fn delete_by_selection_insert_mode(
    text: &Text,
    selection: &Selection,
    spans: &Vec<(usize, usize)>,
    direction: Direction,
    line_ending: LineEnding,
) -> (done: InsertDeletion)
    requires
        text@.len() < usize::MAX,
        selection.wf(),
        selection.within(text@.len() as int),
        spans@.len() == selection.ranges@.len(),
        forall|i: int|
            0 <= i < spans@.len() ==> (#[trigger] spans@[i]).0 <= spans@[i].1 && spans@[i].1
                <= text@.len(),
    ensures
        edits(done.changes@) == insert_deletion_edits(
            selection.ranges@,
            spans@,
            direction,
            text@.len() as int,
            line_ending,
        ),
        valid_edits(edits(done.changes@), text@.len() as int),
        direction == Direction::Backward ==> done.selection is None,
        direction == Direction::Forward ==> (done.selection matches Some(s) && s.wf() && s.holds(
            selection.ranges@.map_values(|r: Range| grown(r)),
            selection.primary_index as int,
        )),
{
    let len = text.len_chars();
    let mut changes = delete(spans, len);
    if direction == Direction::Backward {
        return InsertDeletion { changes, selection: None };
    }
    let ghost rs = selection.ranges@;
    let mut ranges: Vec<Range> = Vec::new();
    let mut at_end: bool = false;
    let mut i: usize = 0;
    while i < selection.ranges.len()
        invariant
            i <= rs.len() == spans@.len(),
            rs == selection.ranges@,
            len == text@.len(),
            len < usize::MAX,
            selection.within(len as int),
            ranges@.len() == i,
            forall|j: int| 0 <= j < i ==> ranges@[j] == grown(rs[j]),
            at_end <==> exists|j: int|
                0 <= j < i && (#[trigger] rs[j]).head > rs[j].anchor && spans@[j].1 == len,
        decreases selection.ranges.len() - i,
    {
        let r = selection.ranges[i];
        assert(rs[i as int].within(len as int));
        if r.head > r.anchor {
            if spans[i].1 == len {
                at_end = true;
                assert(rs[i as int].head > rs[i as int].anchor);
            }
            ranges.push(Range::new(r.anchor, r.head + 1));
        } else {
            ranges.push(r);
        }
        i += 1;
    }
    assert(ranges@ =~= rs.map_values(|r: Range| grown(r)));
    if at_end {
        let change = Change { from: len, to: len, text: line_ending.as_chars() };
        proof {
            lemma_edits_push(changes@, change);
            lemma_valid_push(edits(changes@), change@, len as int);
            assert(change@ =~= (Edit { from: len as int, to: len as int, text: line_ending.chars() }));
        }
        changes.push(change);
    }
    let s = Selection::new(ranges, selection.primary_index);
    InsertDeletion { changes, selection: Some(s) }
}

/// What the delete key takes at a range.
pub open spec fn forward_span(text: Text, r: Range, count: usize) -> (usize, usize) {
    let pos = r.cursor_in(text);
    (pos as usize, nth_next_boundary(text.breaks@, pos, count as nat) as usize)
}

/// The delete key: takes `count` grapheme clusters from every cursor on.
pub fn delete_char_forward(
    text: &Text,
    selection: &Selection,
    count: usize,
    line_ending: LineEnding,
) -> (done: InsertDeletion)
    requires
        text.wf(),
        text@.len() < usize::MAX,
        selection.wf(),
        selection.within(text@.len() as int),
    ensures
        edits(done.changes@) == insert_deletion_edits(
            selection.ranges@,
            selection.ranges@.map_values(|r: Range| forward_span(*text, r, count)),
            Direction::Forward,
            text@.len() as int,
            line_ending,
        ),
        done.selection matches Some(s) && s.holds(
            selection.ranges@.map_values(|r: Range| grown(r)),
            selection.primary_index as int,
        ),
{
    let ghost rs = selection.ranges@;
    let mut spans: Vec<(usize, usize)> = Vec::new();
    let mut i: usize = 0;
    while i < selection.ranges.len()
        invariant
            i <= rs.len(),
            rs == selection.ranges@,
            text.wf(),
            selection.within(text@.len() as int),
            spans@.len() == i,
            forall|j: int|
                0 <= j < i ==> #[trigger] spans@[j] == forward_span(*text, rs[j], count)
                    && spans@[j].0 <= spans@[j].1 && spans@[j].1 <= text@.len(),
        decreases selection.ranges.len() - i,
    {
        assert(rs[i as int].within(text@.len() as int));
        let pos = selection.ranges[i].cursor(text);
        spans.push((pos, text.nth_next_grapheme_boundary(pos, count)));
        i += 1;
    }
    assert(spans@ =~= rs.map_values(|r: Range| forward_span(*text, r, count)));
    delete_by_selection_insert_mode(text, selection, &spans, Direction::Forward, line_ending)
}

/// What deleting a word backward takes at a range, which a motion to the word's beginning moves
/// to `moved`.
pub open spec fn word_backward_span(text: Text, r: Range, moved: Range) -> (usize, usize) {
    let out = without_cursor(text, range(moved.lo(), r.cursor_in(text)), r);
    (out.lo() as usize, out.hi() as usize)
}

/// Deletes back to the beginning of a word. `moved` holds where the motion to it takes each range.
pub fn delete_word_backward(
    text: &Text,
    selection: &Selection,
    moved: &Vec<Range>,
    line_ending: LineEnding,
) -> (done: InsertDeletion)
    requires
        text.wf(),
        text@.len() < usize::MAX,
        selection.wf(),
        selection.within(text@.len() as int),
        moved@.len() == selection.ranges@.len(),
        crate::selection::all_within(moved@, text@.len() as int),
    ensures
        edits(done.changes@) == insert_deletion_edits(
            selection.ranges@,
            Seq::new(
                selection.ranges@.len(),
                |i: int| word_backward_span(*text, selection.ranges@[i], moved@[i]),
            ),
            Direction::Backward,
            text@.len() as int,
            line_ending,
        ),
        done.selection is None,
{
    let ghost rs = selection.ranges@;
    let mut spans: Vec<(usize, usize)> = Vec::new();
    let mut i: usize = 0;
    while i < selection.ranges.len()
        invariant
            i <= rs.len() == moved@.len(),
            rs == selection.ranges@,
            text.wf(),
            selection.within(text@.len() as int),
            crate::selection::all_within(moved@, text@.len() as int),
            spans@.len() == i,
            forall|j: int|
                0 <= j < i ==> #[trigger] spans@[j] == word_backward_span(*text, rs[j], moved@[j])
                    && spans@[j].0 <= spans@[j].1 && spans@[j].1 <= text@.len(),
        decreases selection.ranges.len() - i,
    {
        let r = selection.ranges[i];
        assert(rs[i as int].within(text@.len() as int));
        assert(moved@[i as int].within(text@.len() as int));
        let next = Range::new(moved[i].from(), r.cursor(text));
        let out = exclude_cursor(text, next, &r);
        proof {
            crate::text::lemma_prev_boundary(*text, r.hi());
        }
        spans.push((out.from(), out.to()));
        i += 1;
    }
    assert(spans@ =~= Seq::new(
        rs.len(),
        |i: int| word_backward_span(*text, rs[i], moved@[i]),
    ));
    delete_by_selection_insert_mode(text, selection, &spans, Direction::Backward, line_ending)
}

/// Deletes on to the end of a word. `moved` holds where the motion to it takes each range.
pub fn delete_word_forward(
    text: &Text,
    selection: &Selection,
    moved: &Vec<Range>,
    line_ending: LineEnding,
) -> (done: InsertDeletion)
    requires
        text.wf(),
        text@.len() < usize::MAX,
        selection.wf(),
        selection.within(text@.len() as int),
        moved@.len() == selection.ranges@.len(),
        crate::selection::all_within(moved@, text@.len() as int),
        forall|i: int|
            0 <= i < moved@.len() ==> selection.ranges@[i].cursor_in(*text) <= (
            #[trigger] moved@[i]).hi(),
    ensures
        edits(done.changes@) == insert_deletion_edits(
            selection.ranges@,
            Seq::new(
                selection.ranges@.len(),
                |i: int|
                    (selection.ranges@[i].cursor_in(*text) as usize, moved@[i].hi() as usize),
            ),
            Direction::Forward,
            text@.len() as int,
            line_ending,
        ),
        done.selection matches Some(s) && s.holds(
            selection.ranges@.map_values(|r: Range| grown(r)),
            selection.primary_index as int,
        ),
{
    let ghost rs = selection.ranges@;
    let mut spans: Vec<(usize, usize)> = Vec::new();
    let mut i: usize = 0;
    while i < selection.ranges.len()
        invariant
            i <= rs.len() == moved@.len(),
            rs == selection.ranges@,
            text.wf(),
            selection.within(text@.len() as int),
            crate::selection::all_within(moved@, text@.len() as int),
            forall|i: int|
                0 <= i < moved@.len() ==> rs[i].cursor_in(*text) <= (#[trigger] moved@[i]).hi(),
            spans@.len() == i,
            forall|j: int|
                0 <= j < i ==> #[trigger] spans@[j] == (
                    rs[j].cursor_in(*text) as usize,
                    moved@[j].hi() as usize,
                ) && spans@[j].0 <= spans@[j].1 && spans@[j].1 <= text@.len(),
        decreases selection.ranges.len() - i,
    {
        assert(rs[i as int].within(text@.len() as int));
        assert(moved@[i as int].within(text@.len() as int));
        assert(rs[i as int].cursor_in(*text) <= moved@[i as int].hi());
        let cursor = selection.ranges[i].cursor(text);
        spans.push((cursor, moved[i].to()));
        i += 1;
    }
    assert(spans@ =~= Seq::new(
        rs.len(),
        |i: int| (rs[i].cursor_in(*text) as usize, moved@[i].hi() as usize),
    ));
    delete_by_selection_insert_mode(text, selection, &spans, Direction::Forward, line_ending)
}

/// What killing to the beginning of the line takes at a range: from the line's beginning the
/// line ending before it; behind the first character that is not whitespace, what follows that
/// character; else all that stands before the cursor.
pub open spec fn kill_start_span(text: Text, r: Range) -> (usize, usize) {
    let cursor = r.cursor_in(text);
    let line = line_of(text@, cursor);
    let start = line_start(text@, line);
    let whole = line_at(text@, line);
    let first = start + leading_whitespace(whole);
    let head = if cursor == start && line != 0 {
        line_end(text@, line - 1)
    } else if leading_whitespace(whole) < whole.len() && first < cursor {
        first
    } else {
        start
    };
    (head as usize, cursor as usize)
}

/// Deletes back to the beginning of the line.
pub fn kill_to_line_start(text: &Text, selection: &Selection, line_ending: LineEnding) -> (done:
    InsertDeletion)
    requires
        text.wf(),
        text@.len() < usize::MAX,
        selection.wf(),
        selection.within(text@.len() as int),
    ensures
        edits(done.changes@) == insert_deletion_edits(
            selection.ranges@,
            selection.ranges@.map_values(|r: Range| kill_start_span(*text, r)),
            Direction::Backward,
            text@.len() as int,
            line_ending,
        ),
        done.selection is None,
{
    let ghost rs = selection.ranges@;
    let mut spans: Vec<(usize, usize)> = Vec::new();
    let mut i: usize = 0;
    while i < selection.ranges.len()
        invariant
            i <= rs.len(),
            rs == selection.ranges@,
            text.wf(),
            text@.len() < usize::MAX,
            selection.within(text@.len() as int),
            spans@.len() == i,
            forall|j: int|
                0 <= j < i ==> #[trigger] spans@[j] == kill_start_span(*text, rs[j])
                    && spans@[j].0 <= spans@[j].1 && spans@[j].1 <= text@.len(),
        decreases selection.ranges.len() - i,
    {
        assert(rs[i as int].within(text@.len() as int));
        let cursor = selection.ranges[i].cursor(text);
        let line = text.char_to_line(cursor);
        let start = text.line_to_char(line);
        let next = text.line_to_char(line + 1);
        proof {
            crate::text::lemma_line_of_bounds(text@, cursor as int);
            crate::text::lemma_line_start_monotonic(text@, line as int, line + 1);
            crate::text::lemma_line_end_bounds(text@, line - 1);
        }
        let leading = count_leading_whitespace(&text.chars, start, next);
        let head = if cursor == start && line != 0 {
            text.line_end_char_index(line - 1)
        } else if leading < next - start && start + leading < cursor {
            start + leading
        } else {
            start
        };
        spans.push((head, cursor));
        i += 1;
    }
    assert(spans@ =~= rs.map_values(|r: Range| kill_start_span(*text, r)));
    delete_by_selection_insert_mode(text, selection, &spans, Direction::Backward, line_ending)
}

/// What killing to the end of the line takes at a range: the line ending, when the cursor stands
/// on it, else what stands before it.
pub open spec fn kill_end_span(text: Text, r: Range) -> (usize, usize) {
    let cursor = r.cursor_in(text);
    let line = line_of(text@, cursor);
    let end = line_end(text@, line);
    if cursor == end {
        (cursor as usize, line_start(text@, line + 1) as usize)
    } else {
        (cursor as usize, end as usize)
    }
}

/// Deletes on to the end of the line. A cursor inside a line ending is not accepted: it stands on
/// no grapheme cluster.
pub fn kill_to_line_end(text: &Text, selection: &Selection, line_ending: LineEnding) -> (done:
    InsertDeletion)
    requires
        text.wf(),
        text@.len() < usize::MAX,
        selection.wf(),
        selection.within(text@.len() as int),
        forall|i: int|
            0 <= i < selection.ranges@.len() ==> {
                let cursor = (#[trigger] selection.ranges@[i]).cursor_in(*text);
                cursor <= line_end(text@, line_of(text@, cursor))
            },
    ensures
        edits(done.changes@) == insert_deletion_edits(
            selection.ranges@,
            selection.ranges@.map_values(|r: Range| kill_end_span(*text, r)),
            Direction::Forward,
            text@.len() as int,
            line_ending,
        ),
        done.selection matches Some(s) && s.holds(
            selection.ranges@.map_values(|r: Range| grown(r)),
            selection.primary_index as int,
        ),
{
    let ghost rs = selection.ranges@;
    let mut spans: Vec<(usize, usize)> = Vec::new();
    let mut i: usize = 0;
    while i < selection.ranges.len()
        invariant
            i <= rs.len(),
            rs == selection.ranges@,
            text.wf(),
            text@.len() < usize::MAX,
            selection.within(text@.len() as int),
            forall|i: int|
                0 <= i < rs.len() ==> {
                    let cursor = (#[trigger] rs[i]).cursor_in(*text);
                    cursor <= line_end(text@, line_of(text@, cursor))
                },
            spans@.len() == i,
            forall|j: int|
                0 <= j < i ==> #[trigger] spans@[j] == kill_end_span(*text, rs[j]) && spans@[j].0
                    <= spans@[j].1 && spans@[j].1 <= text@.len(),
        decreases selection.ranges.len() - i,
    {
        assert(rs[i as int].within(text@.len() as int));
        let cursor = selection.ranges[i].cursor(text);
        let line = text.char_to_line(cursor);
        let end = text.line_end_char_index(line);
        let next = text.line_to_char(line + 1);
        proof {
            crate::text::lemma_line_end_bounds(text@, line as int);
        }
        if cursor == end {
            spans.push((cursor, next));
        } else {
            spans.push((cursor, end));
        }
        i += 1;
    }
    assert(spans@ =~= rs.map_values(|r: Range| kill_end_span(*text, r)));
    delete_by_selection_insert_mode(text, selection, &spans, Direction::Forward, line_ending)
}

proof fn lemma_spaces_are_columns(s: Seq<char>, tab_width: usize, n: int)
    requires
        0 <= n <= trailing_spaces(s),
    ensures
        n <= s.len(),
        columns(s, tab_width) == columns(s.take(s.len() - n), tab_width) + n,
        forall|k: int| s.len() - n <= k < s.len() ==> s[k] == ' ',
        n == trailing_spaces(s) && n < s.len() ==> s[s.len() - n - 1] != ' ',
    decreases n,
{
    lemma_trailing_spaces(s);
    if n == 0 {
        assert(s.take(s.len() as int) =~= s);
        if s.len() > 0 {
            lemma_trailing_spaces(s.drop_last());
        }
    } else {
        let front = s.drop_last();
        lemma_spaces_are_columns(front, tab_width, n - 1);
        assert(front.take(front.len() - (n - 1)) =~= s.take(s.len() - n));
        assert(forall|k: int| 0 <= k < front.len() ==> front[k] == s[k]);
    }
}

proof fn lemma_level_is_left(width: int, dropped: int, level: int)
    by (nonlinear_arith)
    requires
        level > 0,
        dropped == (if width % level == 0 {
            level
        } else {
            width % level
        }),
    ensures
        (width - dropped) % level == 0,
        1 <= dropped <= level,
{
}

/// Backspace in indentation takes one tab, or spaces down to the level below: never more than one
/// level, and never anything else. It takes no indentation where something else stands before the
/// cursor, nor at the beginning of the line.
pub proof fn backspace_takes_a_level_of_indentation(
    text: Text,
    r: Range,
    tab_width: usize,
    indent_width: usize,
)
    requires
        text.wf(),
        r.fits(text),
        indent_width > 0,
    ensures
        ({
            let s = text@;
            let pos = r.cursor_in(text);
            let start = line_start(s, line_of(s, pos));
            match dedented(text, r, tab_width, indent_width) {
                None => start == pos || exists|k: int|
                    start <= k < pos && (#[trigger] s[k]) != ' ' && s[k] != '\t',
                Some((a, b)) => {
                    &&& b == pos
                    &&& forall|k: int| start <= k < pos ==> (#[trigger] s[k]) == ' ' || s[k] == '\t'
                    &&& s[pos - 1] == '\t' ==> 0 <= a < pos && text.breaks@.contains(a as usize)
                    &&& s[pos - 1] != '\t' ==> {
                        &&& start <= a < pos
                        &&& pos - a <= indent_width
                        &&& forall|k: int| a <= k < pos ==> s[k] == ' '
                        &&& a == start || s[a - 1] == '\t' || columns(
                            s.subrange(start, a),
                            tab_width,
                        ) % (indent_width as int) == 0
                    }
                },
            }
        }),
{
    let s = text@;
    crate::range::cursor_lies_in_range(r, text);
    let pos = r.cursor_in(text);
    let start = line_start(s, line_of(s, pos));
    crate::text::positions_lie_in_their_line(s, pos);
    let before = before_cursor(text, r);
    assert(forall|k: int| 0 <= k < before.len() ==> before[k] == s[start + k]);
    if before.len() > 0 {
        if indentation(before) {
            assert forall|k: int| start <= k < pos implies (#[trigger] s[k]) == ' ' || s[k] == '\t' by {
                assert(before[k - start] == s[k]);
            }
            if s[pos - 1] == '\t' {
                crate::text::steps_reach_the_nearest_boundary(text, pos, pos as usize);
                reveal_with_fuel(nth_prev_boundary, 2);
            } else {
                let width = columns(before, tab_width);
                let level = indent_width as int;
                let dropped = if width % level == 0 {
                    level
                } else {
                    width % level
                };
                lemma_level_is_left(width, dropped, level);
                lemma_trailing_spaces(before);
                assert(before.last() == s[pos - 1]);
                assert(trailing_spaces(before) >= 1) by {
                    lemma_trailing_spaces(before.drop_last());
                }
                let n = min(dropped, trailing_spaces(before));
                lemma_spaces_are_columns(before, tab_width, n);
                let a = pos - n;
                assert(before.take(before.len() - n) =~= s.subrange(start, a));
                assert forall|k: int| a <= k < pos implies s[k] == ' ' by {
                    assert(before[k - start] == s[k]);
                }
                if n < dropped && a > start {
                    assert(before[before.len() - n - 1] == s[a - 1]);
                }
            }
        } else {
            let k = choose|k: int| 0 <= k < before.len() && !(#[trigger] before[k] == ' ' || before[k]
                == '\t');
            assert(s[start + k] != ' ');
        }
    }
}

/// Backspace at the beginning of the text takes nothing. Elsewhere it takes what stands right
/// before the cursor: indentation, what the pairing of brackets says, or as many clusters as the
/// count says.
pub proof fn backspace_takes_what_stands_before_the_cursor(
    text: Text,
    r: Range,
    count: usize,
    tab_width: usize,
    indent_width: usize,
    paired: Option<((usize, usize), Range)>,
    k: int,
)
    requires
        text.wf(),
        r.fits(text),
        indent_width > 0,
        0 <= k < text.breaks@.len(),
        text.breaks@[k] == r.cursor_in(text),
    ensures
        ({
            let pos = r.cursor_in(text);
            let (span, after) = backspace(text, r, count, tab_width, indent_width, paired);
            let indented = dedented(text, r, tab_width, indent_width);
            &&& pos == 0 ==> span.0 == span.1
            &&& pos > 0 && indented is Some ==> Some(span) == indented && after is None
            &&& pos > 0 && indented is None && paired is Some ==> span.0 == ((paired->0).0).0 && span.1
                == ((paired->0).0).1 && after == Some((paired->0).1)
            &&& pos > 0 && indented is None && paired is None ==> span.1 == pos && after is None && span.0
                == (if k >= count {
                text.breaks@[k - count] as int
            } else {
                0
            })
        }),
{
    crate::text::steps_pass_clusters(text, k, count as nat);
}

/// The delete key takes as many clusters as the count says, from the cursor on.
pub proof fn delete_takes_clusters(text: Text, r: Range, count: usize, k: int)
    requires
        text.wf(),
        0 <= k < text.breaks@.len(),
        text.breaks@[k] == r.cursor_in(text),
    ensures
        forward_span(text, r, count).0 == r.cursor_in(text),
        k + count < text.breaks@.len() ==> forward_span(text, r, count).1 == text.breaks@[k + count],
        k + count >= text.breaks@.len() ==> forward_span(text, r, count).1 == text.breaks@.last(),
{
    crate::text::steps_pass_clusters(text, k, count as nat);
}

/// Deleting back a word takes everything from the beginning of the word up to the cursor, which
/// stays.
pub proof fn words_are_deleted_up_to_the_cursor(text: Text, r: Range, moved: Range)
    requires
        text.wf(),
        r.fits(text),
        r.anchor < r.head,
        moved.lo() <= r.cursor_in(text),
    ensures
        word_backward_span(text, r, moved) == (moved.lo() as usize, r.cursor_in(text) as usize),
{
    crate::range::cursor_lies_in_range(r, text);
}

/// Killing to the beginning of the line takes only text of the line, up to the cursor: all of it
/// where nothing but whitespace stands before the cursor, else what follows the indentation. At
/// the beginning of a line it takes the line ending before it, and nothing else.
pub proof fn killing_to_line_start_stays_on_the_line(text: Text, r: Range)
    requires
        text.wf(),
        r.within(text@.len() as int),
        text@.len() < usize::MAX,
    ensures
        ({
            let s = text@;
            let cursor = r.cursor_in(text);
            let (a, b) = kill_start_span(text, r);
            &&& b == cursor
            &&& a <= b
            &&& cursor == 0 || s[cursor - 1] == '\n' ==> (cursor == 0 ==> a == 0) && (cursor > 0
                ==> cursor - 2 <= a < cursor && forall|k: int|
                a <= k < cursor - 1 ==> s[k] == '\r')
            &&& cursor > 0 && s[cursor - 1] != '\n' ==> {
                &&& a < cursor
                &&& forall|k: int| a <= k < cursor ==> s[k] != '\n'
                &&& a == 0 || s[a - 1] == '\n' || !crate::chars::whitespace(s[a as int])
                &&& forall|k: int|
                    (forall|j: int| k <= j < a ==> s[j] != '\n') && 0 <= k < a
                        ==> crate::chars::whitespace(#[trigger] s[k])
            }
        }),
{
    let s = text@;
    let cursor = r.cursor_in(text);
    if r.head > r.anchor {
        crate::text::lemma_prev_boundary(text, r.head as int);
    }
    let line = line_of(s, cursor);
    let start = line_start(s, line);
    crate::text::positions_lie_in_their_line(s, cursor);
    crate::text::lines_lie_between_line_feeds(s, line);
    let whole = line_at(s, line);
    crate::chars::whitespace_at_the_ends_is_counted(whole);
    assert(forall|k: int| 0 <= k < whole.len() ==> whole[k] == s[start + k]);
    if cursor > 0 && s[cursor - 1] == '\n' {
        assert(start == cursor) by {
            if start < cursor {
                assert(s[cursor - 1] != '\n');
            }
        }
        crate::text::lines_lie_between_line_feeds(s, line - 1);
    } else if cursor > 0 {
        assert(start < cursor);
        let a = kill_start_span(text, r).0;
        let n = leading_whitespace(whole);
        assert(start <= a < cursor);
        if a > start {
            assert(whole[n] == s[start + n]);
        }
        assert forall|k: int|
            (forall|j: int| k <= j < a ==> s[j] != '\n') && 0 <= k < a implies
            crate::chars::whitespace(#[trigger] s[k]) by {
            if k < start {
                assert(s[start - 1] == '\n');
            } else {
                assert(whole[k - start] == s[k]);
            }
        }
    }
}

/// Killing to the end of the line takes what stands between the cursor and the line ending; on the
/// line ending it takes that, and nothing else.
pub proof fn killing_to_line_end_stays_on_the_line(text: Text, r: Range)
    requires
        text.wf(),
        r.within(text@.len() as int),
        text@.len() < usize::MAX,
        r.cursor_in(text) <= line_end(text@, line_of(text@, r.cursor_in(text))),
    ensures
        ({
            let s = text@;
            let cursor = r.cursor_in(text);
            let (a, b) = kill_end_span(text, r);
            &&& a == cursor
            &&& a <= b <= s.len()
            &&& a == b <==> cursor == s.len()
            &&& cursor < s.len() && (s[cursor] == '\n' || (s[cursor] == '\r' && cursor + 1 < s.len()
                && s[cursor + 1] == '\n')) ==> s[b - 1] == '\n' && b <= cursor + 2 && (b == cursor + 2
                <==> s[cursor] == '\r')
            &&& cursor < s.len() && !(s[cursor] == '\n' || (s[cursor] == '\r' && cursor + 1 < s.len()
                && s[cursor + 1] == '\n')) ==> {
                &&& forall|k: int| cursor <= k < b ==> s[k] != '\n'
                &&& b == s.len() || s[b as int] == '\n' || (s[b as int] == '\r' && s[b + 1] == '\n')
            }
        }),
{
    let s = text@;
    let cursor = r.cursor_in(text);
    if r.head > r.anchor {
        crate::text::lemma_prev_boundary(text, r.head as int);
    }
    let line = line_of(s, cursor);
    crate::text::positions_lie_in_their_line(s, cursor);
    crate::text::lines_lie_between_line_feeds(s, line);
    let (e, next) = (line_end(s, line), line_start(s, line + 1));
    if cursor < s.len() && line == crate::text::newlines(s) {
        assert(e == s.len());
    }
    if cursor < e {
        assert(s[cursor] != '\n');
        if s[cursor] == '\r' && cursor + 1 < s.len() && s[cursor + 1] == '\n' {
            if cursor + 1 < e {
                assert(s[cursor + 1] != '\n');
            } else {
                assert(next - 2 == cursor || next - 1 == cursor + 1);
                assert(e == next - 2);
            }
        }
    }
}

/// A deletion forward that takes the end of the text from under a cursor leaves a line ending at
/// the end; every other deletion only takes away.
pub proof fn a_line_ending_is_left_for_the_cursor(
    s: Seq<char>,
    ranges: Seq<Range>,
    spans: Seq<(usize, usize)>,
    direction: Direction,
    line_ending: LineEnding,
)
    requires
        spans.len() == ranges.len(),
    ensures
        ({
            let es = insert_deletion_edits(ranges, spans, direction, s.len() as int, line_ending);
            let takes_end = direction == Direction::Forward && exists|i: int|
                0 <= i < ranges.len() && (#[trigger] ranges[i]).head > ranges[i].anchor && spans[i].1
                    == s.len();
            &&& takes_end ==> {
                let after = crate::transaction::applied(s, es);
                let n = line_ending.chars().len();
                after.len() >= n && after.skip(after.len() - n) == line_ending.chars()
            }
            &&& !takes_end ==> forall|i: int| 0 <= i < es.len() ==> (#[trigger] es[i]).text.len() == 0
        }),
{
    let es = insert_deletion_edits(ranges, spans, direction, s.len() as int, line_ending);
    crate::transaction::separate_deletions_are_made(spans);
    if direction == Direction::Forward && reaches_end(ranges, spans, s.len() as int) {
        let after = crate::transaction::applied(s, es);
        let front = crate::transaction::applied(s.take(s.len() as int), es.drop_last());
        assert(after =~= front + line_ending.chars() + s.skip(s.len() as int));
        assert(after =~= front + line_ending.chars());
        assert(after.skip(after.len() - line_ending.chars().len()) =~= line_ending.chars());
    }
}

/// A range grows by exactly the character that a deletion pulls under its cursor, at the end that
/// the cursor is on.
pub proof fn ranges_grow_at_the_cursor(r: Range)
    requires
        r.hi() < usize::MAX,
    ensures
        grown(r).anchor == r.anchor,
        r.head > r.anchor ==> grown(r).hi() == r.hi() + 1,
        r.head <= r.anchor ==> grown(r).head == r.head,
{
}

} // verus!
