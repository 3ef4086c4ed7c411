//! Selections along the syntax tree, which is read elsewhere.

use crate::mode::Mode;
use crate::range::{Direction, Range};
use crate::selection::Selection;
use crate::text::Text;
use vstd::prelude::*;

verus! {

/// Every range of `b` lies in a range of `a`.
pub open spec fn covers(a: Seq<Range>, b: Seq<Range>) -> bool {
    forall|j: int| 0 <= j < b.len() ==> covered(a, #[trigger] b[j])
}

/// A range lies in one of some others.
pub open spec fn covered(a: Seq<Range>, r: Range) -> bool {
    exists|i: int| 0 <= i < a.len() && (#[trigger] a[i]).lo() <= r.lo() && a[i].hi() >= r.hi()
}

fn is_covered(a: &Vec<Range>, r: &Range) -> (b: bool)
    ensures
        b == covered(a@, *r),
{
    let mut i: usize = 0;
    while i < a.len()
        invariant
            i <= a@.len(),
            forall|j: int|
                0 <= j < i ==> !((#[trigger] a@[j]).lo() <= r.lo() && a@[j].hi() >= r.hi()),
        decreases a.len() - i,
    {
        if a[i].contains_range(r) {
            assert(a@[i as int].lo() <= r.lo());
            return true;
        }
        i += 1;
    }
    false
}

/// Whether every range of `b` lies in a range of `a`.
pub fn selection_contains(a: &Selection, b: &Selection) -> (c: bool)
    ensures
        c == covers(a.ranges@, b.ranges@),
{
    let mut i: usize = 0;
    while i < b.ranges.len()
        invariant
            i <= b.ranges@.len(),
            forall|j: int| 0 <= j < i ==> covered(a.ranges@, #[trigger] b.ranges@[j]),
        decreases b.ranges.len() - i,
    {
        if !is_covered(&a.ranges, &b.ranges[i]) {
            assert(!covered(a.ranges@, b.ranges@[i as int]));
            return false;
        }
        i += 1;
    }
    true
}

/// A selection as a value: its ranges and which of them is primary.
pub open spec fn selected(s: Selection) -> (Seq<Range>, int) {
    (s.ranges@, s.primary_index as int)
}

/// What is kept after expanding from one selection to another.
pub open spec fn kept_expanding(
    held: Seq<(Seq<Range>, int)>,
    current: (Seq<Range>, int),
    expanded: (Seq<Range>, int),
) -> Seq<(Seq<Range>, int)> {
    if expanded == current {
        held
    } else {
        held.push(current)
    }
}

/// There is a selection to shrink back to.
pub open spec fn shrinks_back(held: Seq<(Seq<Range>, int)>, current: (Seq<Range>, int)) -> bool {
    held.len() > 0 && covers(current.0, held.last().0)
}

/// The selections that were expanded from, the last one at the end.
pub struct ObjectSelections {
    pub stack: Vec<Selection>,
}

impl ObjectSelections {
    /// The selections on the stack.
    pub open spec fn held(&self) -> Seq<(Seq<Range>, int)> {
        self.stack@.map_values(|s: Selection| selected(s))
    }

    pub fn new() -> (s: ObjectSelections)
        ensures
            s.held() == Seq::<(Seq<Range>, int)>::empty(),
    {
        let s = ObjectSelections { stack: Vec::new() };
        assert(s.held() =~= Seq::<(Seq<Range>, int)>::empty());
        s
    }

    /// Expands to the parent node. `expanded` is what the selection expands to, where there is a
    /// syntax tree. Where that is a change, the selection is kept to shrink back to.
    pub fn expand_selection(&mut self, current: &Selection, expanded: Option<Selection>) -> (set: Option<
        Selection,
    >)
        ensures
            match expanded {
                Some(e) => {
                    &&& set == (if selected(e) == selected(*current) {
                        None
                    } else {
                        Some(e)
                    })
                    &&& final(self).held() == kept_expanding(
                        old(self).held(),
                        selected(*current),
                        selected(e),
                    )
                },
                None => set is None && final(self).held() == old(self).held(),
            },
    {
        match expanded {
            Some(e) => {
                if current.same(&e) {
                    return None;
                }
                let ghost before = self.held();
                self.stack.push(current.clone());
                assert(self.held() =~= before.push(selected(*current)));
                Some(e)
            },
            None => None,
        }
    }

    /// Shrinks back to the selection that was expanded from last. Where there is none, or it does
    /// not lie in the present selection, shrinks to the first child, `child`, where there is a
    /// syntax tree; in the latter case all that was kept is forgotten.
    pub fn shrink_selection(&mut self, current: &Selection, child: Option<Selection>) -> (set: Option<
        Selection,
    >)
        ensures
            ({
                let held = old(self).held();
                if shrinks_back(held, selected(*current)) {
                    &&& set matches Some(s) && selected(s) == held.last()
                    &&& final(self).held() == held.drop_last()
                } else {
                    &&& set == child
                    &&& final(self).held() == Seq::<(Seq<Range>, int)>::empty()
                }
            }),
    {
        let ghost held = self.held();
        match self.stack.pop() {
            Some(previous) => {
                assert(held.last() == selected(previous));
                assert(self.held() =~= held.drop_last());
                if selection_contains(current, &previous) {
                    return Some(previous);
                }
                self.stack.clear();
            },
            None => {},
        }
        assert(self.held() =~= Seq::<(Seq<Range>, int)>::empty());
        child
    }
}

/// Shrinking undoes expanding: from a larger selection, in which the one before lies, it comes back
/// to the one before, and what was kept before is kept again.
pub proof fn shrinking_undoes_expanding(
    held: Seq<(Seq<Range>, int)>,
    current: (Seq<Range>, int),
    expanded: (Seq<Range>, int),
)
    requires
        expanded != current,
        covers(expanded.0, current.0),
    ensures
        shrinks_back(kept_expanding(held, current, expanded), expanded),
        kept_expanding(held, current, expanded).last() == current,
        kept_expanding(held, current, expanded).drop_last() == held,
{
    assert(held.push(current).drop_last() =~= held);
}

/// The range that a jump to a node makes of another: while selecting, the anchor stays and the
/// head moves to the far end of the node; else the node itself, facing the way of the jump.
pub open spec fn object_range(r: Range, found: Range, mode: Mode, direction: Direction) -> Range {
    if mode == Mode::Select {
        Range {
            anchor: r.anchor,
            head: if found.head < r.anchor {
                found.anchor
            } else {
                found.head
            },
        }
    } else {
        found.facing(direction)
    }
}

/// Jumps to the nodes in `found`, one for each range, where there is a syntax tree.
pub fn goto_ts_object_impl(
    selection: &Selection,
    found: Option<&Vec<Range>>,
    mode: Mode,
    direction: Direction,
) -> (set: Result<Selection, &'static str>)
    requires
        selection.wf(),
        found matches Some(f) ==> f@.len() == selection.ranges@.len(),
    ensures
        match found {
            Some(f) => set matches Ok(s) && s.wf() && s.holds(
                Seq::new(
                    selection.ranges@.len(),
                    |i: int| object_range(selection.ranges@[i], f@[i], mode, direction),
                ),
                selection.primary_index as int,
            ),
            None => set matches Err(m) && m@ == "Syntax-tree is not available in current buffer"@,
        },
{
    match found {
        Some(f) => {
            let mut ranges: Vec<Range> = Vec::new();
            let ghost all = Seq::new(
                selection.ranges@.len(),
                |i: int| object_range(selection.ranges@[i], f@[i], mode, direction),
            );
            let mut i: usize = 0;
            while i < selection.ranges.len()
                invariant
                    i <= selection.ranges@.len() == f@.len(),
                    all == Seq::new(
                        selection.ranges@.len(),
                        |i: int| object_range(selection.ranges@[i], f@[i], mode, direction),
                    ),
                    ranges@ == all.take(i as int),
                decreases selection.ranges.len() - i,
            {
                let r = selection.ranges[i];
                let n = f[i];
                let moved = match mode {
                    Mode::Select => Range {
                        anchor: r.anchor,
                        head: if n.head < r.anchor {
                            n.anchor
                        } else {
                            n.head
                        },
                    },
                    _ => n.with_direction(direction),
                };
                ranges.push(moved);
                assert(all.take(i + 1) =~= all.take(i as int).push(all[i as int]));
                i += 1;
            }
            assert(ranges@ =~= all);
            Ok(Selection::new(ranges, selection.primary_index))
        },
        None => Err("Syntax-tree is not available in current buffer"),
    }
}

/// The range with its cursor at the bracket that matches the one under it, where there is one.
pub open spec fn bracket_range(text: Text, r: Range, matched: Option<usize>, mode: Mode) -> Range {
    match matched {
        Some(pos) => r.with_cursor(text, pos as int, mode == Mode::Select),
        None => r,
    }
}

/// Moves every cursor to the bracket that matches the one under it.
pub fn match_brackets(text: &Text, selection: &Selection, matched: &Vec<Option<usize>>, mode: Mode) -> (moved: Selection)
    requires
        text.wf(),
        selection.wf(),
        matched@.len() == selection.ranges@.len(),
    ensures
        moved.wf(),
        moved.holds(
            Seq::new(
                selection.ranges@.len(),
                |i: int| bracket_range(*text, selection.ranges@[i], matched@[i], mode),
            ),
            selection.primary_index as int,
        ),
{
    let mut ranges: Vec<Range> = Vec::new();
    let ghost all = Seq::new(
        selection.ranges@.len(),
        |i: int| bracket_range(*text, selection.ranges@[i], matched@[i], mode),
    );
    let mut i: usize = 0;
    while i < selection.ranges.len()
        invariant
            i <= selection.ranges@.len() == matched@.len(),
            text.wf(),
            all == Seq::new(
                selection.ranges@.len(),
                |i: int| bracket_range(*text, selection.ranges@[i], matched@[i], mode),
            ),
            ranges@ == all.take(i as int),
        decreases selection.ranges.len() - i,
    {
        let r = selection.ranges[i];
        let moved = match matched[i] {
            Some(pos) => {
                let selecting: bool = match mode {
                    Mode::Select => true,
                    _ => false,
                };
                r.put_cursor(text, pos, selecting)
            },
            None => r,
        };
        ranges.push(moved);
        assert(all.take(i + 1) =~= all.take(i as int).push(all[i as int]));
        i += 1;
    }
    assert(ranges@ =~= all);
    Selection::new(ranges, selection.primary_index)
}

/// A jump to a syntax node selects the node, facing the way of the jump; while selecting, the
/// anchor stays and the range reaches over the node.
pub proof fn nodes_are_selected(r: Range, found: Range, mode: Mode, direction: Direction)
    requires
        found.anchor < found.head,
    ensures
        ({
            let new = object_range(r, found, mode, direction);
            &&& mode != Mode::Select ==> new.lo() == found.lo() && new.hi() == found.hi() && new.faces()
                == direction
            &&& mode == Mode::Select ==> new.anchor == r.anchor
            &&& mode == Mode::Select && (r.anchor <= found.lo() || found.hi() < r.anchor) ==> new.lo()
                <= found.lo() && found.hi() <= new.hi()
        }),
{
}

/// The cursor goes to the matching bracket; where there is none the range stays. While selecting,
/// the range is extended to it.
pub proof fn cursors_go_to_the_matching_bracket(
    text: Text,
    r: Range,
    pos: usize,
    mode: Mode,
)
    requires
        text.wf(),
        r.fits(text),
        text.breaks@.contains(pos),
        pos < text@.len(),
    ensures
        bracket_range(text, r, Some(pos), mode).cursor_in(text) == pos,
        mode != Mode::Select ==> bracket_range(text, r, Some(pos), mode).anchor == pos,
        bracket_range(text, r, None, mode) == r,
{
    crate::range::cursors_stand_where_they_are_put(r, text, pos, mode == Mode::Select);
}

} // verus!
