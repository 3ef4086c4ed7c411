//! Ranges of text with a direction, and how a cursor sits on them.

use crate::text::{
    boundary_at_or_after, boundary_at_or_before, line_of, next_boundary, prev_boundary, Text,
};
use vstd::prelude::*;

verus! {

/// Toward the end of the text, or toward its beginning.
#[derive(Clone, Copy, Debug, PartialEq, Eq, Structural)]
pub enum Direction {
    Forward,
    Backward,
}

/// Whether a motion moves a range or extends it.
#[derive(Clone, Copy, Debug, PartialEq, Eq, Structural)]
pub enum Movement {
    Extend,
    Move,
}

/// A range between gaps of the text: it grew from `anchor` to `head`.
///
/// A range that is not empty shows its cursor on the grapheme cluster before a forward head, or
/// after a backward one.
#[derive(Clone, Copy, Debug, PartialEq, Eq, Structural)]
pub struct Range {
    pub anchor: usize,
    pub head: usize,
}

pub open spec fn min(a: int, b: int) -> int {
    if a <= b {
        a
    } else {
        b
    }
}

pub open spec fn max(a: int, b: int) -> int {
    if a >= b {
        a
    } else {
        b
    }
}

/// The range from `anchor` to `head`, for positions that fit a machine word.
pub open spec fn range(anchor: int, head: int) -> Range {
    Range { anchor: anchor as usize, head: head as usize }
}

impl Range {
    /// The lower end.
    pub open spec fn lo(self) -> int {
        min(self.anchor as int, self.head as int)
    }

    /// The upper end.
    pub open spec fn hi(self) -> int {
        max(self.anchor as int, self.head as int)
    }

    /// Both ends lie in a text of `len` characters.
    pub open spec fn within(self, len: int) -> bool {
        self.anchor <= len && self.head <= len
    }

    /// Both ends are boundaries of grapheme clusters of `text`.
    pub open spec fn fits(self, text: Text) -> bool {
        text.breaks@.contains(self.anchor) && text.breaks@.contains(self.head)
    }

    pub open spec fn faces(self) -> Direction {
        if self.head < self.anchor {
            Direction::Backward
        } else {
            Direction::Forward
        }
    }

    pub open spec fn flipped(self) -> Range {
        Range { anchor: self.head, head: self.anchor }
    }

    pub open spec fn facing(self, direction: Direction) -> Range {
        if self.faces() == direction {
            self
        } else {
            self.flipped()
        }
    }

    /// The two ranges share a position, or begin at the same one.
    pub open spec fn overlapping(self, other: Range) -> bool {
        self.lo() == other.lo() || (self.hi() > other.lo() && other.hi() > self.lo())
    }

    /// The least range that covers both, backward only when both are.
    pub open spec fn merged(self, other: Range) -> Range {
        if self.anchor > self.head && other.anchor > other.head {
            range(max(self.anchor as int, other.anchor as int), min(self.head as int, other.head as int))
        } else {
            range(min(self.lo(), other.lo()), max(self.hi(), other.hi()))
        }
    }

    /// Position `p` lies in the range.
    pub open spec fn holds_position(self, p: int) -> bool {
        self.lo() <= p < self.hi()
    }

    /// Where the block cursor of the range sits.
    pub open spec fn cursor_in(self, text: Text) -> int {
        if self.head > self.anchor {
            prev_boundary(text.breaks@, self.head as int)
        } else {
            self.head as int
        }
    }

    /// The range with its cursor moved to `pos`; with `extend` its anchor stays, or steps over
    /// one grapheme cluster so that the cluster under the old cursor remains covered.
    pub open spec fn with_cursor(self, text: Text, pos: int, extend: bool) -> Range {
        if extend {
            let anchor = if self.head >= self.anchor && pos < self.anchor {
                next_boundary(text.breaks@, self.anchor as int)
            } else if self.head < self.anchor && pos >= self.anchor {
                prev_boundary(text.breaks@, self.anchor as int)
            } else {
                self.anchor as int
            };
            if anchor <= pos {
                range(anchor, next_boundary(text.breaks@, pos))
            } else {
                range(anchor, pos)
            }
        } else {
            range(pos, pos)
        }
    }

    /// The range grown to whole grapheme clusters.
    pub open spec fn aligned(self, text: Text) -> Range {
        let b = text.breaks@;
        let (anchor, head) = (self.anchor as int, self.head as int);
        if anchor == head {
            range(boundary_at_or_before(b, anchor), boundary_at_or_before(b, anchor))
        } else if anchor < head {
            range(boundary_at_or_before(b, anchor), boundary_at_or_after(b, head))
        } else {
            range(boundary_at_or_after(b, anchor), boundary_at_or_before(b, head))
        }
    }

    /// The range, with an empty one grown over one grapheme cluster.
    pub open spec fn widened(self, text: Text) -> Range {
        if self.anchor == self.head {
            range(self.anchor as int, next_boundary(text.breaks@, self.head as int))
        } else {
            self
        }
    }

    /// The first and the last line that the range touches.
    pub open spec fn lines(self, text: Text) -> (int, int) {
        (line_of(text@, self.lo()), line_of(text@, self.last_position(text)))
    }

    /// The last position that counts as inside: an upper end on a line's beginning does not reach
    /// into that line.
    pub open spec fn last_position(self, text: Text) -> int {
        if self.anchor == self.head {
            self.hi()
        } else {
            max(prev_boundary(text.breaks@, self.hi()), self.lo())
        }
    }

    pub fn new(anchor: usize, head: usize) -> (r: Range)
        ensures
            r == (Range { anchor, head }),
    {
        Range { anchor, head }
    }

    /// An empty range.
    pub fn point(head: usize) -> (r: Range)
        ensures
            r == (Range { anchor: head, head }),
    {
        Range { anchor: head, head }
    }

    pub fn from(&self) -> (pos: usize)
        ensures
            pos == self.lo(),
    {
        if self.anchor <= self.head {
            self.anchor
        } else {
            self.head
        }
    }

    pub fn to(&self) -> (pos: usize)
        ensures
            pos == self.hi(),
    {
        if self.anchor >= self.head {
            self.anchor
        } else {
            self.head
        }
    }

    /// The number of characters covered.
    pub fn len(&self) -> (n: usize)
        ensures
            n == self.hi() - self.lo(),
    {
        self.to() - self.from()
    }

    pub fn is_empty(&self) -> (empty: bool)
        ensures
            empty == (self.anchor == self.head),
    {
        self.anchor == self.head
    }

    pub fn direction(&self) -> (direction: Direction)
        ensures
            direction == self.faces(),
    {
        if self.head < self.anchor {
            Direction::Backward
        } else {
            Direction::Forward
        }
    }

    /// Swaps anchor and head.
    pub fn flip(&self) -> (r: Range)
        ensures
            r == self.flipped(),
    {
        Range { anchor: self.head, head: self.anchor }
    }

    /// The same ends, facing `direction`.
    pub fn with_direction(&self, direction: Direction) -> (r: Range)
        ensures
            r == self.facing(direction),
    {
        if self.direction() == direction {
            *self
        } else {
            self.flip()
        }
    }

    pub fn overlaps(&self, other: &Range) -> (b: bool)
        ensures
            b == self.overlapping(*other),
    {
        self.from() == other.from() || (self.to() > other.from() && other.to() > self.from())
    }

    /// Whether every position of `other` lies in this range.
    pub fn contains_range(&self, other: &Range) -> (b: bool)
        ensures
            b == (self.lo() <= other.lo() && self.hi() >= other.hi()),
    {
        self.from() <= other.from() && self.to() >= other.to()
    }

    pub fn contains(&self, pos: usize) -> (b: bool)
        ensures
            b == (self.lo() <= pos < self.hi()),
    {
        self.from() <= pos && pos < self.to()
    }

    pub fn merge(&self, other: &Range) -> (r: Range)
        ensures
            r == self.merged(*other),
            r.lo() == min(self.lo(), other.lo()),
            r.hi() == max(self.hi(), other.hi()),
    {
        let lo = if self.from() <= other.from() {
            self.from()
        } else {
            other.from()
        };
        let hi = if self.to() >= other.to() {
            self.to()
        } else {
            other.to()
        };
        if self.anchor > self.head && other.anchor > other.head {
            Range { anchor: hi, head: lo }
        } else {
            Range { anchor: lo, head: hi }
        }
    }

    /// Where the block cursor sits.
    pub fn cursor(&self, text: &Text) -> (pos: usize)
        requires
            text.wf(),
        ensures
            pos == self.cursor_in(*text),
            pos <= self.head,
    {
        if self.head > self.anchor {
            text.prev_grapheme_boundary(self.head)
        } else {
            self.head
        }
    }

    /// The line of the block cursor.
    pub fn cursor_line(&self, text: &Text) -> (line: usize)
        requires
            text.wf(),
            self.within(text@.len() as int),
        ensures
            line == line_of(text@, self.cursor_in(*text)),
    {
        text.char_to_line(self.cursor(text))
    }

    /// Moves the block cursor.
    pub fn put_cursor(&self, text: &Text, pos: usize, extend: bool) -> (r: Range)
        requires
            text.wf(),
        ensures
            r == self.with_cursor(*text, pos as int, extend),
            self.within(text@.len() as int) && pos <= text@.len() ==> r.within(text@.len() as int),
    {
        if extend {
            let anchor = if self.head >= self.anchor && pos < self.anchor {
                text.next_grapheme_boundary(self.anchor)
            } else if self.head < self.anchor && pos >= self.anchor {
                text.prev_grapheme_boundary(self.anchor)
            } else {
                self.anchor
            };
            if anchor <= pos {
                Range { anchor, head: text.next_grapheme_boundary(pos) }
            } else {
                Range { anchor, head: pos }
            }
        } else {
            Range { anchor: pos, head: pos }
        }
    }

    /// Grows the range to whole grapheme clusters.
    pub fn grapheme_aligned(&self, text: &Text) -> (r: Range)
        requires
            text.wf(),
        ensures
            r == self.aligned(*text),
            self.within(text@.len() as int) ==> r.within(text@.len() as int),
    {
        if self.anchor == self.head {
            let pos = text.ensure_grapheme_boundary_prev(self.anchor);
            Range { anchor: pos, head: pos }
        } else if self.anchor < self.head {
            Range {
                anchor: text.ensure_grapheme_boundary_prev(self.anchor),
                head: text.ensure_grapheme_boundary_next(self.head),
            }
        } else {
            Range {
                anchor: text.ensure_grapheme_boundary_next(self.anchor),
                head: text.ensure_grapheme_boundary_prev(self.head),
            }
        }
    }

    /// Grows an empty range over one grapheme cluster.
    pub fn min_width_1(&self, text: &Text) -> (r: Range)
        requires
            text.wf(),
        ensures
            r == self.widened(*text),
            self.within(text@.len() as int) ==> r.within(text@.len() as int),
    {
        if self.anchor == self.head {
            Range { anchor: self.anchor, head: text.next_grapheme_boundary(self.head) }
        } else {
            *self
        }
    }

    /// The first and the last line that the range touches.
    pub fn line_range(&self, text: &Text) -> (lines: (usize, usize))
        requires
            text.wf(),
            self.within(text@.len() as int),
        ensures
            (lines.0 as int, lines.1 as int) == self.lines(*text),
            lines.0 <= lines.1,
    {
        let from = self.from();
        let to = if self.is_empty() {
            self.to()
        } else {
            let before = text.prev_grapheme_boundary(self.to());
            if before >= from {
                before
            } else {
                from
            }
        };
        proof {
            crate::text::lemma_newlines_prefix_le(text@, from as int, to as int);
        }
        (text.char_to_line(from), text.char_to_line(to))
    }

    /// The characters covered.
    pub fn fragment(&self, text: &Text) -> (part: Vec<char>)
        requires
            self.within(text@.len() as int),
        ensures
            part@ == text@.subrange(self.lo(), self.hi()),
    {
        text.slice(self.from(), self.to())
    }
}

/// The cursor of a range that fits the text lies between its ends, on a boundary.
pub proof fn cursor_lies_in_range(r: Range, text: Text)
    requires
        text.wf(),
        r.fits(text),
    ensures
        r.within(text@.len() as int),
        r.lo() <= r.cursor_in(text) <= r.hi(),
        r.anchor != r.head && r.head > r.anchor ==> r.cursor_in(text) < r.hi(),
        text.breaks@.contains(r.cursor_in(text) as usize),
{
    let b = text.breaks@;
    let i = choose|i: int| 0 <= i < b.len() && b[i] == r.anchor;
    let j = choose|j: int| 0 <= j < b.len() && b[j] == r.head;
    assert(b[i] <= b[b.len() - 1]);
    assert(b[j] <= b[b.len() - 1]);
    if r.head > r.anchor {
        crate::text::lemma_prev_boundary(text, r.head as int);
        crate::text::lemma_prev_boundary_above(text, r.anchor, r.head as int);
    }
}

/// Flipping a range twice gives it back, and turning it keeps what it covers.
pub proof fn flip_is_an_involution(r: Range, direction: Direction)
    ensures
        r.flipped().flipped() == r,
        r.facing(direction).lo() == r.lo(),
        r.facing(direction).hi() == r.hi(),
        r.anchor != r.head ==> r.facing(direction).faces() == direction,
        r.facing(r.faces()) == r,
{
}

/// Merging does not depend on the order of the two ranges, and covers both.
pub proof fn merge_is_symmetric(a: Range, b: Range)
    ensures
        a.merged(b) == b.merged(a),
        a.merged(b).lo() == min(a.lo(), b.lo()),
        a.merged(b).hi() == max(a.hi(), b.hi()),
{
}

/// A cursor that is put somewhere stands there. A range that is extended still covers the cluster
/// that it began with, and its anchor stays where the cursor does not cross it.
pub proof fn cursors_stand_where_they_are_put(r: Range, text: Text, pos: usize, extend: bool)
    requires
        text.wf(),
        r.fits(text),
        text.breaks@.contains(pos),
        extend ==> pos < text@.len(),
    ensures
        ({
            let new = r.with_cursor(text, pos as int, extend);
            &&& new.cursor_in(text) == pos
            &&& new.fits(text)
            &&& !extend ==> new.anchor == pos && new.head == pos
            &&& extend && r.anchor <= r.head && r.anchor <= pos ==> new.anchor == r.anchor && new.head
                > pos
            &&& extend && r.anchor <= r.head && pos < r.anchor ==> new.head == pos && new.hi()
                == next_boundary(text.breaks@, r.anchor as int)
            &&& extend && r.head < r.anchor && pos < r.anchor ==> new.lo() <= pos && new.hi() >= r.anchor
                && new.anchor == r.anchor
            &&& extend && r.head < r.anchor && r.anchor <= pos ==> new.lo() == prev_boundary(
                text.breaks@,
                r.anchor as int,
            ) && new.head > pos
        }),
{
    let b = text.breaks@;
    crate::text::steps_reach_the_nearest_boundary(text, pos as int, pos);
    crate::text::steps_reach_the_nearest_boundary(text, r.anchor as int, r.anchor);
    crate::text::steps_reach_the_nearest_boundary(text, r.anchor as int, pos);
    if extend {
        crate::text::stepping_forth_and_back(text, pos);
    }
    if pos < r.anchor {
        crate::text::steps_reach_the_nearest_boundary(text, pos as int, r.anchor);
    }
}

/// A range that is grown to whole clusters begins and ends at boundaries, still covers what it
/// covered, and reaches no further than the clusters that it touched.
pub proof fn aligned_ranges_hold_whole_clusters(r: Range, text: Text, b: usize)
    requires
        text.wf(),
        r.within(text@.len() as int),
        text.breaks@.contains(b),
    ensures
        r.aligned(text).fits(text),
        r.aligned(text).lo() <= r.lo(),
        r.anchor != r.head ==> r.hi() <= r.aligned(text).hi(),
        b <= r.lo() ==> b <= r.aligned(text).lo(),
        r.hi() <= b ==> r.aligned(text).hi() <= b,
        r.anchor != r.head ==> r.aligned(text).faces() == r.faces(),
{
    crate::text::steps_reach_the_nearest_boundary(text, r.anchor as int, b);
    crate::text::steps_reach_the_nearest_boundary(text, r.head as int, b);
    let breaks = text.breaks@;
    assert(breaks[0] == 0);
    assert(breaks.contains(breaks[0]));
    assert(breaks.contains(breaks[breaks.len() - 1]));
    crate::text::steps_reach_the_nearest_boundary(text, r.anchor as int, text@.len() as usize);
    crate::text::steps_reach_the_nearest_boundary(text, r.head as int, text@.len() as usize);
}

/// The lines of a range are those of its first and of its last character: no line feed before the
/// last character belongs to a line behind them.
pub proof fn ranges_touch_the_lines_of_their_ends(r: Range, text: Text)
    requires
        text.wf(),
        r.fits(text),
    ensures
        r.lines(text).0 == crate::text::newlines(text@.take(r.lo())),
        r.anchor == r.head ==> r.lines(text).1 == r.lines(text).0,
        r.anchor != r.head ==> ({
            let last = prev_boundary(text.breaks@, r.hi());
            r.lo() <= last < r.hi() && r.lines(text).1 == crate::text::newlines(text@.take(last))
        }),
{
    cursor_lies_in_range(r, text);
    crate::text::lemma_prev_boundary(text, r.hi());
    if r.anchor < r.head {
        crate::text::lemma_prev_boundary_above(text, r.anchor, r.hi());
    } else if r.head < r.anchor {
        crate::text::lemma_prev_boundary_above(text, r.head, r.hi());
    }
}

/// Two ranges overlap when a position lies in both of them, or when they begin together. An empty
/// range overlaps those that it lies inside of.
pub proof fn overlapping_ranges_share_a_position(a: Range, b: Range)
    ensures
        a.lo() < a.hi() && b.lo() < b.hi() ==> (a.overlapping(b) <==> exists|p: int|
            a.lo() <= p < a.hi() && #[trigger] b.holds_position(p)),
        a.lo() == a.hi() ==> (a.overlapping(b) <==> a.lo() == b.lo() || b.lo() < a.lo() < b.hi()),
        a.overlapping(b) == b.overlapping(a),
{
    if a.lo() < a.hi() && b.lo() < b.hi() && a.overlapping(b) {
        let p = max(a.lo(), b.lo());
        assert(b.holds_position(p));
    }
}

/// An empty range grows over the cluster behind it, and no other range grows.
pub proof fn empty_ranges_are_widened(r: Range, text: Text)
    requires
        text.wf(),
        r.fits(text),
    ensures
        r.anchor != r.head ==> r.widened(text) == r,
        r.anchor == r.head ==> r.widened(text).anchor == r.anchor && r.widened(text).faces()
            == Direction::Forward && (r.head < text@.len() ==> r.widened(text).head > r.head
            && r.widened(text).cursor_in(text) == r.head),
{
    crate::text::steps_reach_the_nearest_boundary(text, r.head as int, r.head);
    if r.head < text@.len() {
        crate::text::stepping_forth_and_back(text, r.head);
    }
}

} // verus!
