//! Moving cursors along lines, to characters and through windows.

use crate::chars::{count_leading_whitespace, leading_whitespace, whitespace};
use crate::commands::insert::blank;
use crate::commands::insert_text::KeyCode;
use crate::mode::Mode;
use crate::range::{cursor_lies_in_range, max, min, range, Direction, Movement, Range};
use crate::selection::Selection;
use crate::text::{
    lemma_line_of_bounds, lemma_line_start_counts, lemma_newlines_prefix_le, line_at, line_count,
    line_end, line_of, line_start, newlines, next_boundary, prev_boundary, splits_crlf, Text,
};
use vstd::prelude::*;

verus! {

/// The movement of commands that extend in select mode.
pub fn movement_in(mode: Mode) -> (movement: Movement)
    ensures
        movement == if mode == Mode::Select {
            Movement::Extend
        } else {
            Movement::Move
        },
{
    if mode == Mode::Select {
        Movement::Extend
    } else {
        Movement::Move
    }
}

/// The line of a range's cursor.
pub open spec fn cursor_line_in(text: Text, r: Range) -> int {
    line_of(text@, r.cursor_in(text))
}

/// The last character of the cursor's line, before its line ending; the beginning of an empty
/// line.
pub open spec fn line_last(text: Text, r: Range) -> int {
    let line = cursor_line_in(text, r);
    max(prev_boundary(text.breaks@, line_end(text@, line)), line_start(text@, line))
}

fn to_line_end(text: &Text, r: &Range, movement: Movement) -> (out: Range)
    requires
        text.wf(),
        text@.len() < usize::MAX,
        r.within(text@.len() as int),
    ensures
        out == r.with_cursor(*text, line_last(*text, *r), movement == Movement::Extend),
{
    let line = text.char_to_line(r.cursor(text));
    let start = text.line_to_char(line);
    let before = text.prev_grapheme_boundary(text.line_end_char_index(line));
    let pos = if before >= start {
        before
    } else {
        start
    };
    r.put_cursor(text, pos, movement == Movement::Extend)
}

/// Moves every cursor to the last character of its line.
pub fn goto_line_end_impl(
    text: &Text,
    selection: &Selection,
    movement: Movement,
) -> (moved: Selection)
    requires
        text.wf(),
        selection.wf(),
        selection.within(text@.len() as int),
        text@.len() < usize::MAX,
    ensures
        moved.wf(),
        moved.holds(
            selection.ranges@.map_values(|r: Range| r.with_cursor(*text, line_last(*text, r), movement == Movement::Extend)),
            selection.primary_index as int,
        ),
{
    let ghost f = |r: Range| r.with_cursor(*text, line_last(*text, r), movement == Movement::Extend);
    let mut ranges: Vec<Range> = Vec::new();
    let mut i: usize = 0;
    while i < selection.ranges.len()
        invariant
            i <= selection.ranges@.len(),
            text.wf(),
            selection.within(text@.len() as int),
            text@.len() < usize::MAX,
            f == (|r: Range| r.with_cursor(*text, line_last(*text, r), movement == Movement::Extend)),
            ranges@.len() == i,
            forall|j: int| 0 <= j < i ==> ranges@[j] == f(selection.ranges@[j]),
        decreases selection.ranges.len() - i,
    {
        let r = selection.ranges[i];
        assert(selection.ranges@[i as int].within(text@.len() as int));
        ranges.push(to_line_end(text, &r, movement));
        i += 1;
    }
    assert(ranges@ =~= selection.ranges@.map_values(f));
    Selection::new(ranges, selection.primary_index)
}

fn to_line_ending(text: &Text, r: &Range, movement: Movement) -> (out: Range)
    requires
        text.wf(),
        text@.len() < usize::MAX,
        r.within(text@.len() as int),
    ensures
        out == r.with_cursor(
            *text,
            line_end(text@, cursor_line_in(*text, *r)),
            movement == Movement::Extend,
        ),
{
    let line = text.char_to_line(r.cursor(text));
    r.put_cursor(text, text.line_end_char_index(line), movement == Movement::Extend)
}

/// Moves every cursor to the line ending of its line.
pub fn goto_line_end_newline_impl(
    text: &Text,
    selection: &Selection,
    movement: Movement,
) -> (moved: Selection)
    requires
        text.wf(),
        selection.wf(),
        selection.within(text@.len() as int),
        text@.len() < usize::MAX,
    ensures
        moved.wf(),
        moved.holds(
            selection.ranges@.map_values(|r: Range| r.with_cursor(*text, line_end(text@, cursor_line_in(*text, r)), movement == Movement::Extend)),
            selection.primary_index as int,
        ),
{
    let ghost f = |r: Range| r.with_cursor(*text, line_end(text@, cursor_line_in(*text, r)), movement == Movement::Extend);
    let mut ranges: Vec<Range> = Vec::new();
    let mut i: usize = 0;
    while i < selection.ranges.len()
        invariant
            i <= selection.ranges@.len(),
            text.wf(),
            selection.within(text@.len() as int),
            text@.len() < usize::MAX,
            f == (|r: Range| r.with_cursor(*text, line_end(text@, cursor_line_in(*text, r)), movement == Movement::Extend)),
            ranges@.len() == i,
            forall|j: int| 0 <= j < i ==> ranges@[j] == f(selection.ranges@[j]),
        decreases selection.ranges.len() - i,
    {
        let r = selection.ranges[i];
        assert(selection.ranges@[i as int].within(text@.len() as int));
        ranges.push(to_line_ending(text, &r, movement));
        i += 1;
    }
    assert(ranges@ =~= selection.ranges@.map_values(f));
    Selection::new(ranges, selection.primary_index)
}

fn to_line_start(text: &Text, r: &Range, movement: Movement) -> (out: Range)
    requires
        text.wf(),
        r.within(text@.len() as int),
    ensures
        out == r.with_cursor(
            *text,
            line_start(text@, cursor_line_in(*text, *r)),
            movement == Movement::Extend,
        ),
{
    let line = text.char_to_line(r.cursor(text));
    r.put_cursor(text, text.line_to_char(line), movement == Movement::Extend)
}

/// Moves every cursor to the beginning of its line.
pub fn goto_line_start_impl(
    text: &Text,
    selection: &Selection,
    movement: Movement,
) -> (moved: Selection)
    requires
        text.wf(),
        selection.wf(),
        selection.within(text@.len() as int),
    ensures
        moved.wf(),
        moved.holds(
            selection.ranges@.map_values(|r: Range| r.with_cursor(*text, line_start(text@, cursor_line_in(*text, r)), movement == Movement::Extend)),
            selection.primary_index as int,
        ),
{
    let ghost f = |r: Range| r.with_cursor(*text, line_start(text@, cursor_line_in(*text, r)), movement == Movement::Extend);
    let mut ranges: Vec<Range> = Vec::new();
    let mut i: usize = 0;
    while i < selection.ranges.len()
        invariant
            i <= selection.ranges@.len(),
            text.wf(),
            selection.within(text@.len() as int),
            f == (|r: Range| r.with_cursor(*text, line_start(text@, cursor_line_in(*text, r)), movement == Movement::Extend)),
            ranges@.len() == i,
            forall|j: int| 0 <= j < i ==> ranges@[j] == f(selection.ranges@[j]),
        decreases selection.ranges.len() - i,
    {
        let r = selection.ranges[i];
        assert(selection.ranges@[i as int].within(text@.len() as int));
        ranges.push(to_line_start(text, &r, movement));
        i += 1;
    }
    assert(ranges@ =~= selection.ranges@.map_values(f));
    Selection::new(ranges, selection.primary_index)
}

/// A range whose cursor is on the first character of its line that is no whitespace; on a blank
/// line it stays.
pub open spec fn at_first_nonwhitespace(text: Text, r: Range, extend: bool) -> Range {
    let line = cursor_line_in(text, r);
    if blank(line_at(text@, line)) {
        r
    } else {
        r.with_cursor(
            text,
            line_start(text@, line) + leading_whitespace(line_at(text@, line)),
            extend,
        )
    }
}

fn to_first_nonwhitespace(text: &Text, r: &Range, movement: Movement) -> (out: Range)
    requires
        text.wf(),
        text@.len() < usize::MAX,
        r.within(text@.len() as int),
    ensures
        out == at_first_nonwhitespace(*text, *r, movement == Movement::Extend),
{
    let line = text.char_to_line(r.cursor(text));
    let start = text.line_to_char(line);
    let next = text.line_to_char(line + 1);
    proof {
        crate::text::lemma_line_start_monotonic(text@, line as int, line + 1);
    }
    let leading = count_leading_whitespace(&text.chars, start, next);
    let ghost part = line_at(text@, line as int);
    assert(part == text@.subrange(start as int, next as int));
    if leading < next - start {
        assert(!whitespace(part[leading as int]));
        r.put_cursor(text, start + leading, movement == Movement::Extend)
    } else {
        assert forall|k: int| 0 <= k < part.len() implies whitespace(#[trigger] part[k]) by {
            assert(part[k] == text@[start + k]);
        }
        *r
    }
}

/// Moves every cursor to the first character of its line that is no whitespace.
pub fn goto_first_nonwhitespace_impl(
    text: &Text,
    selection: &Selection,
    movement: Movement,
) -> (moved: Selection)
    requires
        text.wf(),
        selection.wf(),
        selection.within(text@.len() as int),
        text@.len() < usize::MAX,
    ensures
        moved.wf(),
        moved.holds(
            selection.ranges@.map_values(|r: Range| at_first_nonwhitespace(*text, r, movement == Movement::Extend)),
            selection.primary_index as int,
        ),
{
    let ghost f = |r: Range| at_first_nonwhitespace(*text, r, movement == Movement::Extend);
    let mut ranges: Vec<Range> = Vec::new();
    let mut i: usize = 0;
    while i < selection.ranges.len()
        invariant
            i <= selection.ranges@.len(),
            text.wf(),
            selection.within(text@.len() as int),
            text@.len() < usize::MAX,
            f == (|r: Range| at_first_nonwhitespace(*text, r, movement == Movement::Extend)),
            ranges@.len() == i,
            forall|j: int| 0 <= j < i ==> ranges@[j] == f(selection.ranges@[j]),
        decreases selection.ranges.len() - i,
    {
        let r = selection.ranges[i];
        assert(selection.ranges@[i as int].within(text@.len() as int));
        ranges.push(to_first_nonwhitespace(text, &r, movement));
        i += 1;
    }
    assert(ranges@ =~= selection.ranges@.map_values(f));
    Selection::new(ranges, selection.primary_index)
}

/// Where a view is aligned.
#[derive(Clone, Copy, Debug, PartialEq, Eq, Structural)]
pub enum Align {
    Top,
    Center,
    Bottom,
}

/// The rows that are kept between the cursor and the edge of a view of `height` rows: never so
/// many that none is left in the middle.
pub open spec fn kept_rows(scrolloff: int, height: int) -> int {
    min(scrolloff, max(height - 1, 0) / 2)
}

/// The rows kept between the cursor and the edge of a view.
pub fn effective_scrolloff(scrolloff: usize, height: usize) -> (rows: usize)
    ensures
        rows == kept_rows(scrolloff as int, height as int),
        rows <= scrolloff,
        height >= 1 ==> rows < height,
{
    let limit: usize = if height >= 1 {
        (height - 1) / 2
    } else {
        0
    };
    if scrolloff <= limit {
        scrolloff
    } else {
        limit
    }
}

/// The row of the window that a cursor goes to: `count` rows in from the top or the bottom, or the
/// middle; never nearer to an edge than the kept rows.
pub open spec fn window_row(
    align: Align,
    vertical_offset: int,
    last_row: int,
    rows: int,
    count: int,
) -> int {
    let row = match align {
        Align::Top => vertical_offset + rows + count,
        Align::Center => vertical_offset + last_row / 2,
        Align::Bottom => vertical_offset + max(last_row - (rows + count), 0),
    };
    min(max(row, vertical_offset + rows), vertical_offset + max(last_row - rows, 0))
}

/// The row of the window that a cursor goes to. `count` is counted from 1.
pub fn goto_window(
    align: Align,
    vertical_offset: usize,
    last_row: usize,
    scrolloff: usize,
    height: usize,
    count: usize,
) -> (row: usize)
    requires
        count >= 1,
        vertical_offset + scrolloff + count <= usize::MAX,
        vertical_offset + last_row <= usize::MAX,
    ensures
        row == window_row(
            align,
            vertical_offset as int,
            last_row as int,
            kept_rows(scrolloff as int, height as int),
            count - 1,
        ),
{
    let count: usize = count - 1;
    let rows = effective_scrolloff(scrolloff, height);
    let row: usize = match align {
        Align::Top => vertical_offset + rows + count,
        Align::Center => vertical_offset + last_row / 2,
        Align::Bottom => if last_row >= rows + count {
            vertical_offset + (last_row - (rows + count))
        } else {
            vertical_offset
        },
    };
    let least: usize = vertical_offset + rows;
    let most: usize = if last_row >= rows {
        vertical_offset + (last_row - rows)
    } else {
        vertical_offset
    };
    let row: usize = if row >= least {
        row
    } else {
        least
    };
    if row <= most {
        row
    } else {
        most
    }
}

/// Moving to a row of the window stays in the window.
pub proof fn window_rows_stay_inside(
    align: Align,
    vertical_offset: int,
    last_row: int,
    rows: int,
    count: int,
)
    requires
        vertical_offset >= 0,
        last_row >= 0,
        rows >= 0,
        count >= 0,
    ensures
        vertical_offset <= window_row(align, vertical_offset, last_row, rows, count)
            <= vertical_offset + last_row,
        2 * rows <= last_row ==> vertical_offset + rows <= window_row(
            align,
            vertical_offset,
            last_row,
            rows,
            count,
        ) <= vertical_offset + last_row - rows,
{
}

fn extend_over(text: &Text, r: &Range, word: &Range) -> (out: Range)
    requires
        text.wf(),
    ensures
        out == r.with_cursor(*text, word.cursor_in(*text), true),
{
    r.put_cursor(text, word.cursor(text), true)
}

/// Extends every range to the cursor of the word that a motion found for it.
pub fn extend_word_impl(text: &Text, selection: &Selection, words: &Vec<Range>) -> (moved: Selection)
    requires
        text.wf(),
        selection.wf(),
        words@.len() == selection.ranges@.len(),
    ensures
        moved.wf(),
        moved.holds(
            Seq::new(
                selection.ranges@.len(),
                |i: int|
                    selection.ranges@[i].with_cursor(*text, words@[i].cursor_in(*text), true),
            ),
            selection.primary_index as int,
        ),
{
    let mut ranges: Vec<Range> = Vec::new();
    let mut i: usize = 0;
    while i < selection.ranges.len()
        invariant
            i <= selection.ranges@.len() == words@.len(),
            text.wf(),
            ranges@.len() == i,
            forall|j: int|
                0 <= j < i ==> ranges@[j] == selection.ranges@[j].with_cursor(
                    *text,
                    words@[j].cursor_in(*text),
                    true,
                ),
        decreases selection.ranges.len() - i,
    {
        ranges.push(extend_over(text, &selection.ranges[i], &words[i]));
        i += 1;
    }
    assert(ranges@ =~= Seq::new(
        selection.ranges@.len(),
        |i: int| selection.ranges@[i].with_cursor(*text, words@[i].cursor_in(*text), true),
    ));
    Selection::new(ranges, selection.primary_index)
}

/// No grapheme cluster ends between a carriage return and its line feed.
pub open spec fn keeps_crlf(text: Text) -> bool {
    forall|i: int| splits_crlf(text@, i) ==> !#[trigger] text.breaks@.contains(i as usize)
}

/// Where the search for the `count`-th line ending leads from a range's cursor; nowhere when there
/// are fewer, not counting the end of the text. Exclusive searches stop beside the line ending, and
/// pass one that the cursor is already beside.
pub open spec fn line_ending_target(
    text: Text,
    r: Range,
    count: int,
    direction: Direction,
    inclusive: bool,
) -> Option<int> {
    let s = text@;
    let cursor = r.cursor_in(text);
    let next = next_boundary(text.breaks@, cursor);
    let line = line_of(s, cursor);
    match direction {
        Direction::Forward => {
            let end = line_end(s, line);
            let on_edge = end == cursor || (!inclusive && end == next);
            let target = line + count - 1 + if on_edge {
                1int
            } else {
                0int
            };
            if target >= line_count(s) - 1 {
                None
            } else if inclusive {
                Some(line_end(s, target))
            } else {
                Some(line_end(s, target) - 1)
            }
        },
        Direction::Backward => if inclusive {
            if line - count < 0 {
                None
            } else {
                Some(line_end(s, line - count))
            }
        } else {
            let on_edge = line_start(s, line) == cursor;
            let target = line - count + 1 - if on_edge {
                1int
            } else {
                0int
            };
            if target <= 0 {
                None
            } else {
                Some(line_start(s, target))
            }
        },
    }
}

/// A range led to a position: extended to it, or from its cursor to it.
pub open spec fn led_to(text: Text, r: Range, pos: Option<int>, extend: bool) -> Range {
    match pos {
        None => r,
        Some(p) => if extend {
            r.with_cursor(text, p, true)
        } else {
            range(r.cursor_in(text), r.cursor_in(text)).with_cursor(text, p, true)
        },
    }
}

fn lead_to(text: &Text, r: &Range, pos: usize, extend: bool) -> (out: Range)
    requires
        text.wf(),
    ensures
        out == led_to(*text, *r, Some(pos as int), extend),
{
    if extend {
        r.put_cursor(text, pos, true)
    } else {
        Range::point(r.cursor(text)).put_cursor(text, pos, true)
    }
}

/// The end of a line before another one is not the beginning of the text, unless the cursor is on
/// it.
proof fn lemma_exclusive_end(text: Text, cursor: int, line: int)
    requires
        text.wf(),
        keeps_crlf(text),
        0 <= cursor <= text@.len(),
        text.breaks@.contains(cursor as usize),
        text@.len() < usize::MAX,
        line_of(text@, cursor) <= line < newlines(text@),
        line_of(text@, cursor) == line ==> line_end(text@, line) != cursor,
    ensures
        line_end(text@, line) > 0,
{
    let s = text@;
    crate::text::lemma_line_end_bounds(s, line);
    lemma_newlines_prefix_le(s, 0, cursor);
    assert(s.take(0) =~= Seq::<char>::empty());
    if line_end(s, line) <= 0 {
        lemma_line_start_counts(s, line);
        assert(line_start(s, line) == 0);
        assert(line == 0);
        lemma_line_start_counts(s, 1);
        lemma_line_of_bounds(s, cursor);
        let next = line_start(s, 1);
        let part = line_at(s, 0);
        assert(part =~= s.subrange(0, next));
        if cursor == s.len() {
            assert(s.take(cursor) =~= s);
        }
        assert(cursor < next);
        assert(next <= 2);
        if cursor == 1 {
            assert(part[0] == s[0]);
            assert(part[1] == s[1]);
            assert(splits_crlf(s, 1));
            assert(!text.breaks@.contains(1usize));
        }
    }
}

fn find_line_ending(
    text: &Text,
    r: &Range,
    count: usize,
    direction: Direction,
    inclusive: bool,
    extend: bool,
) -> (out: Range)
    requires
        text.wf(),
        keeps_crlf(*text),
        text@.len() + count < usize::MAX,
        r.fits(*text),
        count >= 1,
    ensures
        out == led_to(
            *text,
            *r,
            line_ending_target(*text, *r, count as int, direction, inclusive),
            extend,
        ),
{
    proof {
        cursor_lies_in_range(*r, *text);
    }
    let cursor = r.cursor(text);
    let next = text.next_grapheme_boundary(cursor);
    let line = text.char_to_line(cursor);
    match direction {
        Direction::Forward => {
            let end = text.line_end_char_index(line);
            let on_edge = end == cursor || (!inclusive && end == next);
            let target: usize = line + count - 1 + if on_edge {
                1
            } else {
                0
            };
            if target >= text.len_lines() - 1 {
                return *r;
            }
            let at = text.line_end_char_index(target);
            if inclusive {
                lead_to(text, r, at, extend)
            } else {
                proof {
                    lemma_exclusive_end(*text, cursor as int, target as int);
                }
                lead_to(text, r, at - 1, extend)
            }
        },
        Direction::Backward => if inclusive {
            if line < count {
                return *r;
            }
            lead_to(text, r, text.line_end_char_index(line - count), extend)
        } else {
            let start = text.line_to_char(line);
            let back: usize = count + if start == cursor {
                1
            } else {
                0
            };
            if line + 1 <= back {
                return *r;
            }
            lead_to(text, r, text.line_to_char(line + 1 - back), extend)
        },
    }
}

/// Leads every range to the `count`-th line ending after or before its cursor.
pub fn find_char_line_ending_motion(
    text: &Text,
    selection: &Selection,
    count: usize,
    direction: Direction,
    inclusive: bool,
    extend: bool,
) -> (moved: Selection)
    requires
        text.wf(),
        selection.wf(),
        keeps_crlf(*text),
        text@.len() + count < usize::MAX,
        selection.fits(*text),
        count >= 1,
    ensures
        moved.wf(),
        moved.holds(
            selection.ranges@.map_values(|r: Range| led_to(*text, r, line_ending_target(*text, r, count as int, direction, inclusive), extend)),
            selection.primary_index as int,
        ),
{
    let ghost f = |r: Range| led_to(*text, r, line_ending_target(*text, r, count as int, direction, inclusive), extend);
    let mut ranges: Vec<Range> = Vec::new();
    let mut i: usize = 0;
    while i < selection.ranges.len()
        invariant
            i <= selection.ranges@.len(),
            text.wf(),
            keeps_crlf(*text),
            text@.len() + count < usize::MAX,
            selection.fits(*text),
            count >= 1,
            f == (|r: Range| led_to(*text, r, line_ending_target(*text, r, count as int, direction, inclusive), extend)),
            ranges@.len() == i,
            forall|j: int| 0 <= j < i ==> ranges@[j] == f(selection.ranges@[j]),
        decreases selection.ranges.len() - i,
    {
        let r = selection.ranges[i];
        assert(selection.ranges@[i as int].fits(*text));
        ranges.push(find_line_ending(text, &r, count, direction, inclusive, extend));
        i += 1;
    }
    assert(ranges@ =~= selection.ranges@.map_values(f));
    Selection::new(ranges, selection.primary_index)
}

/// The position of the `n`-th `c` at or behind `pos`.
pub open spec fn nth_after(s: Seq<char>, c: char, pos: int, n: int) -> Option<int>
    decreases s.len() - pos,
{
    if n <= 0 || pos < 0 || pos >= s.len() {
        None
    } else if s[pos] == c {
        if n == 1 {
            Some(pos)
        } else {
            nth_after(s, c, pos + 1, n - 1)
        }
    } else {
        nth_after(s, c, pos + 1, n)
    }
}

/// The position of the `n`-th `c` before `pos`.
pub open spec fn nth_before(s: Seq<char>, c: char, pos: int, n: int) -> Option<int>
    decreases pos,
{
    if n <= 0 || pos <= 0 || pos > s.len() {
        None
    } else if s[pos - 1] == c {
        if n == 1 {
            Some(pos - 1)
        } else {
            nth_before(s, c, pos - 1, n - 1)
        }
    } else {
        nth_before(s, c, pos - 1, n)
    }
}

/// The position of the `n`-th `c` from `pos` on, in a direction.
pub open spec fn nth_char(s: Seq<char>, c: char, pos: int, n: int, direction: Direction) -> Option<int> {
    match direction {
        Direction::Forward => nth_after(s, c, pos, n),
        Direction::Backward => nth_before(s, c, pos, n),
    }
}

/// Finds the `n`-th `c` from `pos` on.
pub fn find_nth_char(text: &Text, c: char, pos: usize, n: usize, direction: Direction) -> (found: Option<
    usize,
>)
    ensures
        (match found {
            Some(p) => Some(p as int),
            None => None,
        }) == nth_char(text@, c, pos as int, n as int, direction),
        found matches Some(p) ==> p < text@.len() && match direction {
            Direction::Forward => p >= pos,
            Direction::Backward => p < pos,
        },
{
    if n == 0 || pos > text.len_chars() {
        return None;
    }
    let mut left: usize = n;
    let mut at: usize = pos;
    match direction {
        Direction::Forward => {
            while at < text.len_chars()
                invariant
                    direction == Direction::Forward,
                    pos <= at <= text@.len(),
                    1 <= left,
                    nth_after(text@, c, pos as int, n as int) == nth_after(
                        text@,
                        c,
                        at as int,
                        left as int,
                    ),
                decreases text@.len() - at,
            {
                if text.chars[at] == c {
                    if left == 1 {
                        return Some(at);
                    }
                    left -= 1;
                }
                at += 1;
            }
            None
        },
        Direction::Backward => {
            while at > 0
                invariant
                    direction == Direction::Backward,
                    at <= pos,
                    at <= text@.len(),
                    1 <= left,
                    nth_before(text@, c, pos as int, n as int) == nth_before(
                        text@,
                        c,
                        at as int,
                        left as int,
                    ),
                decreases at,
            {
                if text.chars[at - 1] == c {
                    if left == 1 {
                        return Some(at - 1);
                    }
                    left -= 1;
                }
                at -= 1;
            }
            None
        },
    }
}

/// Where the search for a character leads from a range's cursor. Exclusive searches stop beside it,
/// and pass the character next to the cursor.
pub open spec fn char_target(
    text: Text,
    r: Range,
    c: char,
    count: int,
    direction: Direction,
    inclusive: bool,
) -> Option<int> {
    let cursor = r.cursor_in(text);
    let next = next_boundary(text.breaks@, cursor);
    let from = match direction {
        Direction::Forward => if inclusive {
            next
        } else {
            next + 1
        },
        Direction::Backward => if inclusive {
            cursor
        } else {
            max(cursor - 1, 0)
        },
    };
    match nth_char(text@, c, from, count, direction) {
        None => None,
        Some(p) => Some(
            if inclusive {
                p
            } else {
                match direction {
                    Direction::Forward => p - 1,
                    Direction::Backward => p + 1,
                }
            },
        ),
    }
}

fn find_char_of(
    text: &Text,
    r: &Range,
    c: char,
    count: usize,
    direction: Direction,
    inclusive: bool,
    extend: bool,
) -> (out: Range)
    requires
        text.wf(),
        text@.len() < usize::MAX,
    ensures
        out == led_to(
            *text,
            *r,
            char_target(*text, *r, c, count as int, direction, inclusive),
            extend,
        ),
{
    let cursor = r.cursor(text);
    let next = text.next_grapheme_boundary(cursor);
    let from: usize = match direction {
        Direction::Forward => if inclusive {
            next
        } else {
            next + 1
        },
        Direction::Backward => if inclusive {
            cursor
        } else if cursor >= 1 {
            cursor - 1
        } else {
            0
        },
    };
    match find_nth_char(text, c, from, count, direction) {
        None => *r,
        Some(p) => {
            let pos: usize = if inclusive {
                p
            } else {
                match direction {
                    Direction::Forward => p - 1,
                    Direction::Backward => p + 1,
                }
            };
            lead_to(text, r, pos, extend)
        },
    }
}

/// Leads every range to the `count`-th occurrence of a character after or before its cursor.
pub fn find_char_motion(
    text: &Text,
    selection: &Selection,
    c: char,
    count: usize,
    direction: Direction,
    inclusive: bool,
    extend: bool,
) -> (moved: Selection)
    requires
        text.wf(),
        selection.wf(),
        text@.len() < usize::MAX,
    ensures
        moved.wf(),
        moved.holds(
            selection.ranges@.map_values(|r: Range| led_to(*text, r, char_target(*text, r, c, count as int, direction, inclusive), extend)),
            selection.primary_index as int,
        ),
{
    let ghost f = |r: Range| led_to(*text, r, char_target(*text, r, c, count as int, direction, inclusive), extend);
    let mut ranges: Vec<Range> = Vec::new();
    let mut i: usize = 0;
    while i < selection.ranges.len()
        invariant
            i <= selection.ranges@.len(),
            text.wf(),
            text@.len() < usize::MAX,
            f == (|r: Range| led_to(*text, r, char_target(*text, r, c, count as int, direction, inclusive), extend)),
            ranges@.len() == i,
            forall|j: int| 0 <= j < i ==> ranges@[j] == f(selection.ranges@[j]),
        decreases selection.ranges.len() - i,
    {
        let r = selection.ranges[i];
        ranges.push(find_char_of(text, &r, c, count, direction, inclusive, extend));
        i += 1;
    }
    assert(ranges@ =~= selection.ranges@.map_values(f));
    Selection::new(ranges, selection.primary_index)
}

/// What the key after a search for a character means.
#[derive(Clone, Copy, Debug, PartialEq, Eq, Structural)]
pub enum FindKey {
    LineEnding,
    Char(char),
    Nothing,
}

/// The character that a key searches for.
pub fn find_char(code: KeyCode) -> (key: FindKey)
    ensures
        key == match code {
            KeyCode::Enter => FindKey::LineEnding,
            KeyCode::Tab => FindKey::Char('\t'),
            KeyCode::Char(c) => FindKey::Char(c),
            KeyCode::Other => FindKey::Nothing,
        },
{
    match code {
        KeyCode::Enter => FindKey::LineEnding,
        KeyCode::Tab => FindKey::Char('\t'),
        KeyCode::Char(c) => FindKey::Char(c),
        KeyCode::Other => FindKey::Nothing,
    }
}

/// The row below the first row of the view that the cursor has to stay on after scrolling: it
/// keeps clear of the edge that it would be scrolled over.
pub fn scroll_edge(
    vertical_offset: usize,
    height: usize,
    scrolloff: usize,
    direction: Direction,
) -> (row: usize)
    requires
        height >= 1,
        vertical_offset + height <= usize::MAX,
    ensures
        row == match direction {
            Direction::Forward => vertical_offset + kept_rows(scrolloff as int, height as int),
            Direction::Backward => vertical_offset + height - kept_rows(
                scrolloff as int,
                height as int,
            ) - 1,
        },
{
    let rows = effective_scrolloff(scrolloff, height);
    match direction {
        Direction::Forward => vertical_offset + rows,
        Direction::Backward => vertical_offset + (height - rows - 1),
    }
}

/// Where scrolling takes the primary cursor: `found` is the position on the row that it has to
/// stay on, and how many rows that position is off. A cursor that stays in view is not moved.
pub open spec fn scrolled_head(cursor: int, found: (usize, usize), direction: Direction) -> Option<int> {
    match direction {
        Direction::Forward => {
            let head = found.0 + if found.1 != 0 {
                1int
            } else {
                0int
            };
            if head <= cursor {
                None
            } else {
                Some(head)
            }
        },
        Direction::Backward => if found.0 >= cursor {
            None
        } else {
            Some(found.0 as int)
        },
    }
}

/// Moves the primary cursor into view after scrolling; in select mode its range is extended.
pub fn scroll(
    text: &Text,
    selection: &Selection,
    mode: Mode,
    found: (usize, usize),
    direction: Direction,
) -> (moved: Option<Selection>)
    requires
        text.wf(),
        selection.wf(),
        found.0 < usize::MAX,
    ensures
        ({
            let p = selection.primary_index as int;
            let r = selection.ranges@[p];
            match scrolled_head(r.cursor_in(*text), found, direction) {
                None => moved is None,
                Some(head) => moved matches Some(s) && s.wf() && s.holds(
                    selection.ranges@.update(
                        p,
                        Range {
                            anchor: if mode == Mode::Select {
                                r.anchor
                            } else {
                                head as usize
                            },
                            head: head as usize,
                        },
                    ),
                    p,
                ),
            }
        }),
{
    let r = selection.primary();
    let cursor = r.cursor(text);
    let head: usize = match direction {
        Direction::Forward => {
            let head: usize = found.0 + if found.1 != 0 {
                1
            } else {
                0
            };
            if head <= cursor {
                return None;
            }
            head
        },
        Direction::Backward => {
            if found.0 >= cursor {
                return None;
            }
            found.0
        },
    };
    let anchor = if mode == Mode::Select {
        r.anchor
    } else {
        head
    };
    let copy = selection.clone();
    Some(copy.replace(selection.primary_index, Range::new(anchor, head)))
}

/// The first column of a view that shows column `col` in its middle.
pub fn align_view_middle(col: usize, width: usize, soft_wrap: bool) -> (offset: Option<usize>)
    ensures
        offset == if soft_wrap {
            None
        } else {
            Some(max(col - width / 2, 0) as usize)
        },
{
    if soft_wrap {
        return None;
    }
    Some(
        if col >= width / 2 {
            col - width / 2
        } else {
            0
        },
    )
}

/// Searching for the next character twice is searching for the second one: a search that goes on
/// behind the `n`-th occurrence finds the one after it.
pub proof fn searches_compose(s: Seq<char>, c: char, pos: int, n: int)
    requires
        n >= 1,
        0 <= pos,
        nth_after(s, c, pos, n) is Some,
    ensures
        nth_after(s, c, nth_after(s, c, pos, n)->0 + 1, 1) == nth_after(s, c, pos, n + 1),
        pos <= nth_after(s, c, pos, n)->0 < s.len(),
        s[nth_after(s, c, pos, n)->0] == c,
    decreases s.len() - pos,
{
    if s[pos] == c {
        if n > 1 {
            searches_compose(s, c, pos + 1, n - 1);
        }
    } else {
        searches_compose(s, c, pos + 1, n);
    }
}

/// How often a character occurs in a text.
pub open spec fn occurrences(s: Seq<char>, c: char) -> nat
    decreases s.len(),
{
    if s.len() == 0 {
        0
    } else {
        occurrences(s.drop_last(), c) + if s.last() == c {
            1nat
        } else {
            0nat
        }
    }
}

proof fn lemma_occurrences_add(a: Seq<char>, b: Seq<char>, c: char)
    ensures
        occurrences(a + b, c) == occurrences(a, c) + occurrences(b, c),
    decreases b.len(),
{
    if b.len() == 0 {
        assert(a + b =~= a);
    } else {
        lemma_occurrences_add(a, b.drop_last(), c);
        assert((a + b).drop_last() =~= a + b.drop_last());
        assert((a + b).last() == b.last());
    }
}

proof fn lemma_one_occurrence(d: char, c: char)
    ensures
        occurrences(seq![d], c) == if d == c {
            1nat
        } else {
            0nat
        },
{
    assert(seq![d].drop_last() =~= Seq::<char>::empty());
    assert(occurrences(seq![d].drop_last(), c) == 0);
}

/// The character found behind a position is the one searched for, and as many as were asked for
/// stand from the position up to it. Where none is found there are not so many.
pub proof fn the_nth_character_is_found_after(s: Seq<char>, c: char, pos: int, n: int)
    requires
        0 <= pos <= s.len(),
        n >= 1,
    ensures
        match nth_after(s, c, pos, n) {
            Some(p) => pos <= p < s.len() && s[p] == c && occurrences(s.subrange(pos, p + 1), c) == n,
            None => occurrences(s.skip(pos), c) < n,
        },
    decreases s.len() - pos,
{
    if pos < s.len() {
        let first = seq![s[pos]];
        lemma_one_occurrence(s[pos], c);
        assert(s.skip(pos) =~= first + s.skip(pos + 1));
        lemma_occurrences_add(first, s.skip(pos + 1), c);
        let left = if s[pos] == c {
            n - 1
        } else {
            n
        };
        if left >= 1 {
            the_nth_character_is_found_after(s, c, pos + 1, left);
            if nth_after(s, c, pos, n) is Some {
                let p = nth_after(s, c, pos, n)->0;
                assert(s.subrange(pos, p + 1) =~= first + s.subrange(pos + 1, p + 1));
                lemma_occurrences_add(first, s.subrange(pos + 1, p + 1), c);
            }
        } else {
            assert(s.subrange(pos, pos + 1) =~= first);
        }
    } else {
        assert(s.skip(pos) =~= Seq::<char>::empty());
    }
}

/// The character found before a position is the one searched for, and as many as were asked for
/// stand from it up to the position. Where none is found there are not so many.
pub proof fn the_nth_character_is_found_before(s: Seq<char>, c: char, pos: int, n: int)
    requires
        0 <= pos <= s.len(),
        n >= 1,
    ensures
        match nth_before(s, c, pos, n) {
            Some(p) => 0 <= p < pos && s[p] == c && occurrences(s.subrange(p, pos), c) == n,
            None => occurrences(s.take(pos), c) < n,
        },
    decreases pos,
{
    if pos > 0 {
        let last = seq![s[pos - 1]];
        lemma_one_occurrence(s[pos - 1], c);
        assert(s.take(pos) =~= s.take(pos - 1) + last);
        lemma_occurrences_add(s.take(pos - 1), last, c);
        let left = if s[pos - 1] == c {
            n - 1
        } else {
            n
        };
        if left >= 1 {
            the_nth_character_is_found_before(s, c, pos - 1, left);
            if nth_before(s, c, pos, n) is Some {
                let p = nth_before(s, c, pos, n)->0;
                assert(s.subrange(p, pos) =~= s.subrange(p, pos - 1) + last);
                lemma_occurrences_add(s.subrange(p, pos - 1), last, c);
            }
        } else {
            assert(s.subrange(pos - 1, pos) =~= last);
        }
    } else {
        assert(s.take(pos) =~= Seq::<char>::empty());
    }
}

/// Searching for a character leads onto it, or, where the search is exclusive, onto the character
/// before it when searching forward and onto the one behind it when searching backward. Of the
/// characters that are passed, those from behind the cursor on count; an exclusive search does not
/// count the character next to the cursor. Where it leads nowhere there are not so many.
pub proof fn searches_lead_beside_the_character(
    text: Text,
    r: Range,
    c: char,
    count: int,
    direction: Direction,
    inclusive: bool,
)
    requires
        text.wf(),
        r.fits(text),
        count >= 1,
    ensures
        ({
            let s = text@;
            let cursor = r.cursor_in(text);
            let next = next_boundary(text.breaks@, cursor);
            let target = char_target(text, r, c, count, direction, inclusive);
            match (direction, inclusive) {
                (Direction::Forward, true) => match target {
                    Some(p) => next <= p < s.len() && s[p] == c && occurrences(
                        s.subrange(next, p + 1),
                        c,
                    ) == count,
                    None => occurrences(s.skip(next), c) < count,
                },
                (Direction::Forward, false) => match target {
                    Some(p) => next <= p && p + 1 < s.len() && s[p + 1] == c && occurrences(
                        s.subrange(next + 1, p + 2),
                        c,
                    ) == count,
                    None => next >= s.len() || occurrences(s.skip(next + 1), c) < count,
                },
                (Direction::Backward, true) => match target {
                    Some(p) => 0 <= p < cursor && s[p] == c && occurrences(s.subrange(p, cursor), c)
                        == count,
                    None => occurrences(s.take(cursor), c) < count,
                },
                (Direction::Backward, false) => match target {
                    Some(p) => 1 <= p < cursor && s[p - 1] == c && occurrences(
                        s.subrange(p - 1, cursor - 1),
                        c,
                    ) == count,
                    None => cursor == 0 || occurrences(s.take(cursor - 1), c) < count,
                },
            }
        }),
{
    let s = text@;
    cursor_lies_in_range(r, text);
    let cursor = r.cursor_in(text);
    crate::text::steps_reach_the_nearest_boundary(text, cursor, cursor as usize);
    let next = next_boundary(text.breaks@, cursor);
    the_nth_character_is_found_after(s, c, next, count);
    the_nth_character_is_found_before(s, c, cursor, count);
    if next < s.len() {
        the_nth_character_is_found_after(s, c, next + 1, count);
    }
    if cursor > 0 {
        the_nth_character_is_found_before(s, c, cursor - 1, count);
    }
}

/// A search that leads to a position puts the cursor there: the range covers everything from where
/// the cursor stood, or, when it extends, from the range's anchor. A search that leads nowhere
/// changes nothing.
pub proof fn the_cursor_stands_where_the_search_leads(text: Text, r: Range, pos: usize, extend: bool)
    requires
        text.wf(),
        r.fits(text),
        text.breaks@.contains(pos),
        pos < text@.len(),
    ensures
        ({
            let new = led_to(text, r, Some(pos as int), extend);
            let cursor = r.cursor_in(text);
            &&& new.fits(text)
            &&& new.cursor_in(text) == pos
            &&& !extend ==> new.lo() <= cursor <= new.hi()
            &&& !extend && cursor <= pos ==> new.anchor == cursor
            &&& extend && r.anchor <= r.head && r.anchor <= pos ==> new.anchor == r.anchor
            &&& extend && r.head < r.anchor && pos < r.anchor ==> new.anchor == r.anchor
            &&& led_to(text, r, None, extend) == r
        }),
{
    cursor_lies_in_range(r, text);
    let cursor = r.cursor_in(text);
    crate::range::cursors_stand_where_they_are_put(r, text, pos, true);
    let point = range(cursor, cursor);
    assert(point.fits(text));
    crate::range::cursors_stand_where_they_are_put(point, text, pos, true);
    crate::text::steps_reach_the_nearest_boundary(text, cursor, cursor as usize);
}

/// Searching for a character puts the cursor beside it: an exclusive search forward on the
/// character right before it, an exclusive search backward on the one right behind it, and an
/// inclusive search on the character itself.
pub proof fn found_characters_stand_by_the_cursor(
    text: Text,
    r: Range,
    c: char,
    count: int,
    direction: Direction,
    inclusive: bool,
    extend: bool,
)
    requires
        text.wf(),
        r.fits(text),
        count >= 1,
        char_target(text, r, c, count, direction, inclusive) matches Some(p)
            && text.breaks@.contains(p as usize) && 0 <= p <= usize::MAX,
    ensures
        ({
            let moved = led_to(
                text,
                r,
                char_target(text, r, c, count, direction, inclusive),
                extend,
            ).cursor_in(text);
            match (direction, inclusive) {
                (_, true) => text@[moved] == c,
                (Direction::Forward, false) => text@[moved + 1] == c && moved > r.cursor_in(text),
                (Direction::Backward, false) => text@[moved - 1] == c && moved < r.cursor_in(text),
            }
        }),
{
    searches_lead_beside_the_character(text, r, c, count, direction, inclusive);
    cursor_lies_in_range(r, text);
    let cursor = r.cursor_in(text);
    crate::text::steps_reach_the_nearest_boundary(text, cursor, cursor as usize);
    let p = char_target(text, r, c, count, direction, inclusive)->0;
    the_cursor_stands_where_the_search_leads(text, r, p as usize, extend);
}

/// The last character of a line is the last whole cluster before its line ending; on an empty line
/// the cursor goes to the beginning of the line.
pub proof fn the_last_character_ends_the_line(text: Text, r: Range, b: usize)
    requires
        text.wf(),
        r.within(text@.len() as int),
        text.breaks@.contains(b),
    ensures
        ({
            let line = line_of(text@, r.cursor_in(text));
            let (start, end) = (line_start(text@, line), line_end(text@, line));
            let last = line_last(text, r);
            &&& start <= last <= end
            &&& start == end ==> last == start
            &&& start < end ==> last < end
            &&& start <= b < end ==> b <= last
            &&& last == start || text.breaks@.contains(last as usize)
        }),
{
    let line = line_of(text@, r.cursor_in(text));
    crate::text::lemma_line_end_bounds(text@, line);
    crate::text::steps_reach_the_nearest_boundary(text, line_end(text@, line), b);
}

/// A cursor goes to the first character of its line that is no whitespace, and stays where there
/// is none.
pub proof fn cursors_go_to_the_first_nonwhitespace(text: Text, r: Range, extend: bool)
    requires
        text.wf(),
        r.within(text@.len() as int),
    ensures
        ({
            let s = text@;
            let line = line_of(s, r.cursor_in(text));
            let (start, next) = (line_start(s, line), line_start(s, line + 1));
            let new = at_first_nonwhitespace(text, r, extend);
            &&& (forall|k: int| start <= k < next ==> whitespace(#[trigger] s[k])) ==> new == r
            &&& forall|p: int|
                #![trigger s[p]]
                start <= p < next && !whitespace(s[p]) && (forall|k: int|
                    start <= k < p ==> whitespace(#[trigger] s[k])) ==> new == r.with_cursor(
                    text,
                    p,
                    extend,
                )
        }),
{
    let s = text@;
    let line = line_of(s, r.cursor_in(text));
    let (start, next) = (line_start(s, line), line_start(s, line + 1));
    let part = line_at(s, line);
    crate::text::lemma_line_end_bounds(s, line);
    crate::chars::whitespace_at_the_ends_is_counted(part);
    assert(forall|k: int| 0 <= k < part.len() ==> part[k] == s[start + k]);
    let new = at_first_nonwhitespace(text, r, extend);
    if forall|k: int| start <= k < next ==> whitespace(#[trigger] s[k]) {
        assert forall|k: int| 0 <= k < part.len() implies whitespace(#[trigger] part[k]) by {
            assert(part[k] == s[start + k]);
        }
    }
    assert forall|p: int|
        #![trigger s[p]]
        start <= p < next && !whitespace(s[p]) && (forall|k: int|
            start <= k < p ==> whitespace(#[trigger] s[k])) implies new == r.with_cursor(
        text,
        p,
        extend,
    ) by {
        assert(part[p - start] == s[p]);
        assert(!blank(part));
        let n = leading_whitespace(part);
        if n < p - start {
            assert(part[n] == s[start + n]);
            assert(whitespace(s[start + n]));
        }
    }
}

/// The kept rows are as many as asked for, as long as a row is left between those at the top and
/// those at the bottom.
pub proof fn kept_rows_leave_room(scrolloff: int, height: int)
    requires
        scrolloff >= 0,
        height >= 0,
    ensures
        ({
            let rows = kept_rows(scrolloff, height);
            &&& 0 <= rows <= scrolloff
            &&& height > 0 ==> 2 * rows < height
            &&& rows < scrolloff ==> 2 * (rows + 1) >= height
        }),
{
}

/// The top and the bottom of a window mirror each other: a count leads as far up from the bottom
/// as down from the top, and no count leads to the first row that is not kept free. The middle is
/// as far from the top as from the bottom.
pub proof fn the_window_is_symmetric(
    vertical_offset: int,
    last_row: int,
    rows: int,
    count: int,
)
    requires
        vertical_offset >= 0,
        0 <= 2 * rows <= last_row,
        count >= 0,
    ensures
        ({
            let top = window_row(Align::Top, vertical_offset, last_row, rows, count)
                - vertical_offset;
            let bottom = window_row(Align::Bottom, vertical_offset, last_row, rows, count)
                - vertical_offset;
            let center = window_row(Align::Center, vertical_offset, last_row, rows, count)
                - vertical_offset;
            &&& top + bottom == last_row
            &&& count == 0 ==> top == rows
            &&& rows + count <= last_row - rows ==> top == rows + count
            &&& rows + count > last_row - rows ==> top == last_row - rows
            &&& last_row - 1 <= 2 * center <= last_row
        }),
{
}

/// Scrolling leaves a cursor that is in view alone, and moves another just into view: scrolling
/// once more leaves it.
pub proof fn scrolled_cursors_come_into_view(cursor: int, found: (usize, usize), direction: Direction)
    requires
        cursor >= 0,
    ensures
        match scrolled_head(cursor, found, direction) {
            None => match direction {
                Direction::Forward => cursor > found.0 || (cursor == found.0 && found.1 == 0),
                Direction::Backward => cursor <= found.0,
            },
            Some(head) => scrolled_head(head, found, direction) is None && match direction {
                Direction::Forward => head > cursor && found.0 <= head <= found.0 + 1 && (head
                    == found.0 <==> found.1 == 0),
                Direction::Backward => head < cursor && head == found.0,
            },
        },
{
}

/// A line ending begins at `p`.
pub open spec fn ends_a_line_at(s: Seq<char>, p: int) -> bool {
    0 <= p < s.len() && (s[p] == '\n' || (s[p] == '\r' && p + 1 < s.len() && s[p + 1] == '\n'))
}

proof fn lemma_feeds_between(s: Seq<char>, a: int, b: int)
    requires
        0 <= a <= b <= s.len(),
    ensures
        newlines(s.subrange(a, b)) == newlines(s.take(b)) - newlines(s.take(a)),
{
    crate::text::lemma_newlines_add(s.take(a), s.subrange(a, b));
    assert(s.take(a) + s.subrange(a, b) =~= s.take(b));
}

proof fn lemma_feeds_before_end(s: Seq<char>, line: int)
    requires
        0 <= line < newlines(s),
    ensures
        newlines(s.take(line_end(s, line))) == line,
        ends_a_line_at(s, line_end(s, line)),
        0 <= line_end(s, line) < s.len(),
{
    crate::text::lines_lie_between_line_feeds(s, line);
    let (a, e) = (line_start(s, line), line_end(s, line));
    lemma_feeds_between(s, a, e);
    crate::text::lemma_no_newlines(s.subrange(a, e));
}

/// The search for a line ending leads onto one, or beside it where it is exclusive: forward before
/// it, backward behind it. Between the cursor and the place are as many line feeds as the count
/// says, where one that the cursor is already at does not count.
pub proof fn searches_lead_to_line_endings(
    text: Text,
    r: Range,
    count: int,
    direction: Direction,
    inclusive: bool,
)
    requires
        text.wf(),
        r.fits(text),
        keeps_crlf(text),
        text@.len() < usize::MAX,
        count >= 1,
    ensures
        ({
            let s = text@;
            let cursor = r.cursor_in(text);
            let next = next_boundary(text.breaks@, cursor);
            let end = line_end(s, line_of(s, cursor));
            let target = line_ending_target(text, r, count, direction, inclusive);
            match (direction, target) {
                (Direction::Forward, Some(p)) => {
                    let at = if inclusive {
                        p
                    } else {
                        p + 1
                    };
                    let beside = if end == cursor || (!inclusive && end == next) {
                        1int
                    } else {
                        0int
                    };
                    &&& cursor < at && ends_a_line_at(s, at)
                    &&& newlines(s.subrange(cursor, at)) == count - 1 + beside
                },
                (Direction::Backward, Some(p)) => if inclusive {
                    &&& 0 <= p < cursor && ends_a_line_at(s, p)
                    &&& newlines(s.subrange(p, cursor)) == count
                } else {
                    let beside = if cursor > 0 && s[cursor - 1] == '\n' {
                        1int
                    } else {
                        0int
                    };
                    &&& 0 < p < cursor && s[p - 1] == '\n'
                    &&& newlines(s.subrange(p, cursor)) == count - 1 + beside
                },
                (Direction::Forward, None) => newlines(s.skip(cursor)) <= count,
                (Direction::Backward, None) => newlines(s.take(cursor)) <= count,
            }
        }),
{
    let s = text@;
    cursor_lies_in_range(r, text);
    let cursor = r.cursor_in(text);
    let line = line_of(s, cursor);
    crate::text::positions_lie_in_their_line(s, cursor);
    crate::text::lines_lie_between_line_feeds(s, line);
    let target = line_ending_target(text, r, count, direction, inclusive);
    lemma_feeds_between(s, cursor, s.len() as int);
    assert(s.take(s.len() as int) =~= s);
    assert(s.subrange(cursor, s.len() as int) =~= s.skip(cursor));
    match direction {
        Direction::Forward => {
            if target is Some {
                let at = if inclusive {
                    target->0
                } else {
                    target->0 + 1
                };
                let end = line_end(s, line);
                let next = next_boundary(text.breaks@, cursor);
                let t = line + count - 1 + if end == cursor || (!inclusive && end == next) {
                    1int
                } else {
                    0int
                };
                lemma_feeds_before_end(s, t);
                if line < newlines(s) {
                    lemma_feeds_before_end(s, line);
                }
                if t > line {
                    crate::text::lines_lie_between_line_feeds(s, t);
                    crate::text::lemma_line_start_monotonic(s, line + 1, t);
                } else {
                    lemma_not_behind_end(text, cursor);
                }
                lemma_feeds_between(s, cursor, at);
            }
        },
        Direction::Backward => {
            if target is Some {
                let p = target->0;
                if inclusive {
                    lemma_feeds_before_end(s, line - count);
                    crate::text::lines_lie_between_line_feeds(s, line - count);
                    crate::text::lemma_line_start_monotonic(s, line - count + 1, line);
                    lemma_feeds_between(s, p, cursor);
                } else {
                    let start = line_start(s, line);
                    assert(start == cursor <==> cursor == 0 || s[cursor - 1] == '\n') by {
                        if start < cursor {
                            assert(s[cursor - 1] != '\n');
                        }
                    }
                    let t = line - count + 1 - if start == cursor {
                        1int
                    } else {
                        0int
                    };
                    crate::text::lines_lie_between_line_feeds(s, t);
                    crate::text::lemma_line_start_monotonic(s, t, line);
                    lemma_feeds_between(s, p, cursor);
                    if t < line {
                        crate::text::lines_lie_between_line_feeds(s, t + 1);
                        crate::text::lemma_line_start_monotonic(s, t + 1, line);
                    }
                }
            }
        },
    }
}

/// A cursor that is not at the end of its line stands before it.
proof fn lemma_not_behind_end(text: Text, cursor: int)
    requires
        text.wf(),
        keeps_crlf(text),
        text@.len() < usize::MAX,
        0 <= cursor <= text@.len(),
        text.breaks@.contains(cursor as usize),
        line_of(text@, cursor) < newlines(text@),
    ensures
        cursor <= line_end(text@, line_of(text@, cursor)),
{
    let s = text@;
    let line = line_of(s, cursor);
    crate::text::positions_lie_in_their_line(s, cursor);
    crate::text::lines_lie_between_line_feeds(s, line);
    let e = line_end(s, line);
    if cursor > e {
        assert(cursor == e + 1);
        assert(s[e] == '\r' && s[e + 1] == '\n');
        assert(splits_crlf(s, cursor));
        assert(!text.breaks@.contains(cursor as usize));
    }
}

} // verus!
