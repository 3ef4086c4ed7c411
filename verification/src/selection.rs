//! A selection: one or more ranges, one of which is primary.

use crate::range::{max, merge_is_symmetric, Range};
use crate::text::Text;
use vstd::prelude::*;

verus! {

/// `r` put into `s` behind every range that begins at or before it.
pub open spec fn insert_by_start(s: Seq<Range>, r: Range) -> Seq<Range>
    decreases s.len(),
{
    if s.len() == 0 || s.last().lo() <= r.lo() {
        s.push(r)
    } else {
        insert_by_start(s.drop_last(), r).push(s.last())
    }
}

/// The ranges in the order of their beginnings; those that begin together keep their order.
pub open spec fn sorted_by_start(s: Seq<Range>) -> Seq<Range>
    decreases s.len(),
{
    if s.len() == 0 {
        s
    } else {
        insert_by_start(sorted_by_start(s.drop_last()), s.last())
    }
}

/// Sorted ranges with each overlapping neighbour merged into the range before it.
pub open spec fn coalesced(s: Seq<Range>) -> Seq<Range>
    decreases s.len(),
{
    if s.len() == 0 {
        s
    } else {
        let before = coalesced(s.drop_last());
        if before.len() > 0 && before.last().overlapping(s.last()) {
            before.drop_last().push(s.last().merged(before.last()))
        } else {
            before.push(s.last())
        }
    }
}

/// The range that holds `primary` once the ranges of `s` are coalesced.
pub open spec fn followed(s: Seq<Range>, primary: Range) -> Range
    decreases s.len(),
{
    if s.len() == 0 {
        primary
    } else {
        let before = coalesced(s.drop_last());
        let held = followed(s.drop_last(), primary);
        if before.len() > 0 && before.last().overlapping(s.last()) && (before.last() == held
            || s.last() == held) {
            s.last().merged(before.last())
        } else {
            held
        }
    }
}

/// The first place of `r` in `s`.
pub open spec fn first_index(s: Seq<Range>, r: Range) -> int
    decreases s.len(),
{
    if s.len() == 0 || s[0] == r {
        0
    } else {
        1 + first_index(s.skip(1), r)
    }
}

/// Ranges sorted and merged where they overlap. A single range stays as it is.
pub open spec fn normal_ranges(s: Seq<Range>) -> Seq<Range> {
    if s.len() < 2 {
        s
    } else {
        coalesced(sorted_by_start(s))
    }
}

/// Where the primary range stands after that.
pub open spec fn normal_primary(s: Seq<Range>, primary: int) -> int {
    if s.len() < 2 {
        primary
    } else {
        first_index(normal_ranges(s), followed(sorted_by_start(s), s[primary]))
    }
}

/// Each range begins and ends before the next one begins, or where it begins.
pub open spec fn ordered(s: Seq<Range>) -> bool {
    forall|a: int, b: int|
        0 <= a < b < s.len() ==> (#[trigger] s[a]).lo() < (#[trigger] s[b]).lo() && s[a].hi()
            <= s[b].lo()
}

/// Every range lies in a text of `len` characters.
pub open spec fn all_within(s: Seq<Range>, len: int) -> bool {
    forall|i: int| 0 <= i < s.len() ==> (#[trigger] s[i]).within(len)
}

/// The ranges of a selection, and which of them is primary.
#[derive(Debug, PartialEq, Eq)]
pub struct Selection {
    pub ranges: Vec<Range>,
    pub primary_index: usize,
}

impl Clone for Selection {
    fn clone(&self) -> (copy: Selection)
        ensures
            copy.ranges@ == self.ranges@,
            copy.primary_index == self.primary_index,
    {
        Selection { ranges: self.ranges.clone(), primary_index: self.primary_index }
    }
}

impl Selection {
    /// The primary index names a range, and the ranges are in order.
    pub open spec fn wf(&self) -> bool {
        self.primary_index < self.ranges@.len() && ordered(self.ranges@)
    }

    /// Every range begins and ends at the boundary of a grapheme cluster of `text`.
    pub open spec fn fits(&self, text: Text) -> bool {
        forall|i: int| 0 <= i < self.ranges@.len() ==> (#[trigger] self.ranges@[i]).fits(text)
    }

    pub open spec fn within(&self, len: int) -> bool {
        all_within(self.ranges@, len)
    }

    /// The selection that `ranges` normalize to.
    pub open spec fn holds(&self, ranges: Seq<Range>, primary: int) -> bool {
        &&& self.ranges@ == normal_ranges(ranges)
        &&& self.primary_index == normal_primary(ranges, primary)
    }

    pub fn new(ranges: Vec<Range>, primary_index: usize) -> (s: Selection)
        requires
            primary_index < ranges@.len(),
        ensures
            s.holds(ranges@, primary_index as int),
            s.wf(),
            forall|len: int| #[trigger] all_within(ranges@, len) ==> s.within(len),
    {
        Selection { ranges, primary_index }.normalize()
    }

    /// A selection of one range.
    pub fn single(anchor: usize, head: usize) -> (s: Selection)
        ensures
            s.ranges@ == seq![Range { anchor, head }],
            s.primary_index == 0,
            s.wf(),
    {
        let mut ranges: Vec<Range> = Vec::new();
        ranges.push(Range { anchor, head });
        Selection { ranges, primary_index: 0 }
    }

    /// A selection of one empty range.
    pub fn point(pos: usize) -> (s: Selection)
        ensures
            s.ranges@ == seq![Range { anchor: pos, head: pos }],
            s.primary_index == 0,
            s.wf(),
    {
        Selection::single(pos, pos)
    }

    pub fn primary(&self) -> (r: Range)
        requires
            self.wf(),
        ensures
            r == self.ranges@[self.primary_index as int],
    {
        self.ranges[self.primary_index]
    }

    pub fn len(&self) -> (n: usize)
        ensures
            n == self.ranges@.len(),
    {
        self.ranges.len()
    }

    /// Whether two selections have the same ranges and the same primary one.
    pub fn same(&self, other: &Selection) -> (b: bool)
        ensures
            b == (self.ranges@ == other.ranges@ && self.primary_index == other.primary_index),
    {
        if self.primary_index != other.primary_index || self.ranges.len() != other.ranges.len() {
            return false;
        }
        let mut i: usize = 0;
        while i < self.ranges.len()
            invariant
                i <= self.ranges@.len() == other.ranges@.len(),
                forall|j: int| 0 <= j < i ==> self.ranges@[j] == other.ranges@[j],
            decreases self.ranges.len() - i,
        {
            if self.ranges[i] != other.ranges[i] {
                return false;
            }
            i += 1;
        }
        assert(self.ranges@ =~= other.ranges@);
        true
    }

    /// Adds a range and makes it primary.
    pub fn push(self, r: Range) -> (s: Selection)
        requires
            self.wf(),
        ensures
            s.holds(self.ranges@.push(r), self.ranges@.len() as int),
            s.wf(),
    {
        let mut ranges = self.ranges;
        let primary_index: usize = ranges.len();
        ranges.push(r);
        Selection { ranges, primary_index }.normalize()
    }

    /// Puts a range in the place of another.
    pub fn replace(self, index: usize, r: Range) -> (s: Selection)
        requires
            self.wf(),
            index < self.ranges@.len(),
        ensures
            s.holds(self.ranges@.update(index as int, r), self.primary_index as int),
            s.wf(),
    {
        let mut ranges = self.ranges;
        ranges.set(index, r);
        Selection { ranges, primary_index: self.primary_index }.normalize()
    }

    /// Sorts the ranges and merges those that overlap; the primary range is the one that holds
    /// the former primary.
    fn normalize(self) -> (s: Selection)
        requires
            self.primary_index < self.ranges@.len(),
        ensures
            s.holds(self.ranges@, self.primary_index as int),
            s.wf(),
            forall|len: int| #[trigger] all_within(self.ranges@, len) ==> s.within(len),
    {
        if self.ranges.len() < 2 {
            return self;
        }
        let primary = self.ranges[self.primary_index];
        let sorted = sort_by_start(&self.ranges);
        proof {
            lemma_sorted_same_members(self.ranges@);
            lemma_members_within(self.ranges@, sorted@);
            assert(self.ranges@[self.primary_index as int] == primary);
            assert(self.ranges@.contains(primary));
            assert(sorted@.contains(primary));
        }
        let mut merged: Vec<Range> = Vec::new();
        let mut held = primary;
        let mut i: usize = 0;
        assert(sorted@.take(0) =~= Seq::<Range>::empty());
        while i < sorted.len()
            invariant
                i <= sorted@.len(),
                merged@ == coalesced(sorted@.take(i as int)),
                held == followed(sorted@.take(i as int), primary),
                i > 0 ==> merged@.len() > 0,
                forall|len: int| #[trigger]
                    all_within(sorted@, len) ==> all_within(merged@, len),
            decreases sorted.len() - i,
        {
            assert(sorted@.take(i + 1).drop_last() =~= sorted@.take(i as int));
            assert(sorted@.take(i + 1).last() == sorted@[i as int]);
            let next = sorted[i];
            let n = merged.len();
            if n > 0 && merged[n - 1].overlaps(&next) {
                let prev = merged[n - 1];
                let both = next.merge(&prev);
                if prev == held || next == held {
                    held = both;
                }
                merged.set(n - 1, both);
                assert(merged@ =~= coalesced(sorted@.take(i as int)).drop_last().push(both));
            } else {
                merged.push(next);
            }
            i += 1;
        }
        assert(sorted@.take(i as int) =~= sorted@);
        proof {
            lemma_followed_is_kept(sorted@, primary);
        }
        let total: usize = merged.len();
        let mut at: usize = 0;
        assert(merged@.skip(0) =~= merged@);
        while merged[at] != held
            invariant
                total == merged@.len(),
                at < merged@.len(),
                exists|k: int| at <= k < merged@.len() && merged@[k] == held,
                first_index(merged@, held) == at + first_index(merged@.skip(at as int), held),
            decreases merged@.len() - at,
        {
            proof {
                let k = choose|k: int| at <= k < merged@.len() && merged@[k] == held;
                assert(at + 1 <= k);
                assert(merged@.skip(at as int).skip(1) =~= merged@.skip(at + 1));
            }
            at += 1;
        }
        proof {
            normalized_selections_are_ordered(self.ranges@);
        }
        Selection { ranges: merged, primary_index: at }
    }

    /// Replaces each range by a grapheme-aligned one that is at least one cluster wide.
    pub fn ensure_invariants(self, text: &Text) -> (s: Selection)
        requires
            self.wf(),
            text.wf(),
            self.within(text@.len() as int),
        ensures
            s.holds(
                self.ranges@.map_values(|r: Range| r.widened(*text).aligned(*text)),
                self.primary_index as int,
            ),
            s.wf(),
            s.within(text@.len() as int),
    {
        let mut ranges: Vec<Range> = Vec::new();
        let mut i: usize = 0;
        while i < self.ranges.len()
            invariant
                i <= self.ranges@.len(),
                ranges@.len() == i,
                text.wf(),
                self.within(text@.len() as int),
                all_within(ranges@, text@.len() as int),
                forall|j: int|
                    0 <= j < i ==> ranges@[j] == self.ranges@[j].widened(*text).aligned(*text),
            decreases self.ranges.len() - i,
        {
            let r = self.ranges[i].min_width_1(text).grapheme_aligned(text);
            ranges.push(r);
            i += 1;
        }
        assert(ranges@ =~= self.ranges@.map_values(
            |r: Range| r.widened(*text).aligned(*text),
        ));
        Selection::new(ranges, self.primary_index)
    }
}

/// Sorts ranges by where they begin.
fn sort_by_start(ranges: &Vec<Range>) -> (sorted: Vec<Range>)
    ensures
        sorted@ == sorted_by_start(ranges@),
        sorted@.len() == ranges@.len(),
{
    let mut sorted: Vec<Range> = Vec::new();
    let mut i: usize = 0;
    assert(ranges@.take(0) =~= Seq::<Range>::empty());
    while i < ranges.len()
        invariant
            i <= ranges@.len(),
            sorted@.len() == i,
            sorted@ == sorted_by_start(ranges@.take(i as int)),
        decreases ranges.len() - i,
    {
        assert(ranges@.take(i + 1).drop_last() =~= ranges@.take(i as int));
        let r = ranges[i];
        let ghost before = sorted@;
        let mut at: usize = sorted.len();
        assert(before.take(at as int) =~= before);
        assert(before.skip(at as int) =~= Seq::<Range>::empty());
        assert(insert_by_start(before.take(at as int), r) + before.skip(at as int)
            =~= insert_by_start(before, r));
        while at > 0 && sorted[at - 1].from() > r.from()
            invariant
                at <= sorted@.len(),
                sorted@ == before,
                insert_by_start(before.take(at as int), r) + before.skip(at as int)
                    == insert_by_start(before, r),
            decreases at,
        {
            proof {
                let cut = before.take(at as int);
                assert(cut.drop_last() =~= before.take(at - 1));
                assert(insert_by_start(cut.drop_last(), r).push(cut.last()) + before.skip(at as int)
                    =~= insert_by_start(before.take(at - 1), r) + before.skip(at - 1));
            }
            at -= 1;
        }
        sorted.insert(at, r);
        assert(sorted@ =~= before.take(at as int).push(r) + before.skip(at as int));
        i += 1;
    }
    assert(ranges@.take(i as int) =~= ranges@);
    sorted
}

proof fn lemma_insert_members(s: Seq<Range>, r: Range)
    ensures
        insert_by_start(s, r).len() == s.len() + 1,
        forall|x: Range| #[trigger]
            insert_by_start(s, r).contains(x) <==> s.contains(x) || x == r,
    decreases s.len(),
{
    let t = insert_by_start(s, r);
    if s.len() == 0 || s.last().lo() <= r.lo() {
        assert forall|x: Range| #[trigger] t.contains(x) <==> s.contains(x) || x == r by {
            if s.contains(x) {
                let k = choose|k: int| 0 <= k < s.len() && s[k] == x;
                assert(t[k] == x);
            }
            if x == r {
                assert(t[s.len() as int] == x);
            }
        }
    } else {
        let inner = insert_by_start(s.drop_last(), r);
        lemma_insert_members(s.drop_last(), r);
        assert forall|x: Range| #[trigger] t.contains(x) <==> s.contains(x) || x == r by {
            if t.contains(x) {
                let k = choose|k: int| 0 <= k < t.len() && t[k] == x;
                if k < inner.len() {
                    assert(inner[k] == x);
                    assert(inner.contains(x));
                    if s.drop_last().contains(x) {
                        let j = choose|j: int| 0 <= j < s.len() - 1 && s.drop_last()[j] == x;
                        assert(s[j] == x);
                    }
                } else {
                    assert(s[s.len() - 1] == x);
                }
            }
            if s.contains(x) {
                let k = choose|k: int| 0 <= k < s.len() && s[k] == x;
                if k < s.len() - 1 {
                    assert(s.drop_last()[k] == x);
                    assert(s.drop_last().contains(x));
                    assert(inner.contains(x));
                    let j = choose|j: int| 0 <= j < inner.len() && inner[j] == x;
                    assert(t[j] == x);
                } else {
                    assert(t[inner.len() as int] == x);
                }
            }
            if x == r {
                assert(inner.contains(x));
                let j = choose|j: int| 0 <= j < inner.len() && inner[j] == x;
                assert(t[j] == x);
            }
        }
    }
}

/// Sorting keeps exactly the ranges there were.
pub proof fn lemma_sorted_same_members(s: Seq<Range>)
    ensures
        sorted_by_start(s).len() == s.len(),
        forall|x: Range| #[trigger] sorted_by_start(s).contains(x) <==> s.contains(x),
    decreases s.len(),
{
    if s.len() > 0 {
        let front = s.drop_last();
        lemma_sorted_same_members(front);
        lemma_insert_members(sorted_by_start(front), s.last());
        assert forall|x: Range| #[trigger] sorted_by_start(s).contains(x) <==> s.contains(x) by {
            if s.contains(x) {
                let k = choose|k: int| 0 <= k < s.len() && s[k] == x;
                if k < front.len() {
                    assert(front[k] == x);
                    assert(front.contains(x));
                }
            }
            if front.contains(x) {
                let k = choose|k: int| 0 <= k < front.len() && front[k] == x;
                assert(s[k] == x);
            }
            if x == s.last() {
                assert(s[s.len() - 1] == x);
            }
            assert(sorted_by_start(front).contains(x) <==> front.contains(x));
        }
    }
}

proof fn lemma_members_within(s: Seq<Range>, t: Seq<Range>)
    requires
        forall|x: Range| #[trigger] t.contains(x) <==> s.contains(x),
    ensures
        forall|len: int| #[trigger] all_within(s, len) ==> all_within(t, len),
{
    assert forall|len: int| #[trigger] all_within(s, len) implies all_within(t, len) by {
        assert forall|i: int| 0 <= i < t.len() implies (#[trigger] t[i]).within(len) by {
            assert(t.contains(t[i]));
            assert(s.contains(t[i]));
            let k = choose|k: int| 0 <= k < s.len() && s[k] == t[i];
            assert(s[k].within(len));
        }
    }
}

/// The range that is followed is one of the coalesced ranges.
proof fn lemma_followed_is_kept(s: Seq<Range>, primary: Range)
    requires
        s.contains(primary),
    ensures
        coalesced(s).contains(followed(s, primary)),
    decreases s.len(),
{
    let front = s.drop_last();
    let before = coalesced(front);
    let held = followed(front, primary);
    let after = coalesced(s);
    if front.contains(primary) {
        lemma_followed_is_kept(front, primary);
    } else {
        let k = choose|k: int| 0 <= k < s.len() && s[k] == primary;
        if k < front.len() {
            assert(front[k] == primary);
        }
        assert(s.last() == primary);
        lemma_followed_of_absent(front, primary);
    }
    if held == s.last() || (before.len() > 0 && held == before.last()) {
        assert(after[after.len() - 1] == followed(s, primary) || after[before.len() - 1]
            == followed(s, primary));
    } else {
        assert(before.contains(held));
        let j = choose|j: int| 0 <= j < before.len() && before[j] == held;
        assert(after[j] == held);
    }
}

proof fn lemma_followed_of_absent(s: Seq<Range>, primary: Range)
    requires
        !s.contains(primary),
    ensures
        followed(s, primary) == primary || coalesced(s).contains(followed(s, primary)),
    decreases s.len(),
{
    if s.len() > 0 {
        let front = s.drop_last();
        assert(!front.contains(primary)) by {
            if front.contains(primary) {
                let k = choose|k: int| 0 <= k < front.len() && front[k] == primary;
                assert(s[k] == primary);
            }
        }
        lemma_followed_of_absent(front, primary);
        let before = coalesced(front);
        let after = coalesced(s);
        let held = followed(front, primary);
        if before.len() > 0 && before.last().overlapping(s.last()) {
            if before.last() == held || s.last() == held {
                assert(after[after.len() - 1] == followed(s, primary));
            } else if before.contains(held) {
                let j = choose|j: int| 0 <= j < before.len() && before[j] == held;
                assert(j < before.len() - 1);
                assert(after[j] == held);
            }
        } else if before.contains(held) {
            let j = choose|j: int| 0 <= j < before.len() && before[j] == held;
            assert(after[j] == held);
        }
    }
}

spec fn rising(s: Seq<Range>) -> bool {
    forall|a: int, b: int|
        0 <= a <= b < s.len() ==> (#[trigger] s[a]).lo() <= (#[trigger] s[b]).lo()
}

proof fn lemma_insert_rising(s: Seq<Range>, r: Range)
    requires
        rising(s),
    ensures
        rising(insert_by_start(s, r)),
        s.len() > 0 ==> insert_by_start(s, r).last().lo() == max(s.last().lo(), r.lo()),
        insert_by_start(s, r).len() == s.len() + 1,
    decreases s.len(),
{
    if s.len() == 0 || s.last().lo() <= r.lo() {
    } else {
        lemma_insert_rising(s.drop_last(), r);
        if s.len() > 1 {
            assert(s[s.len() - 2].lo() <= s[s.len() - 1].lo());
        }
    }
}

proof fn lemma_sorted_rising(s: Seq<Range>)
    ensures
        rising(sorted_by_start(s)),
    decreases s.len(),
{
    if s.len() > 0 {
        lemma_sorted_rising(s.drop_last());
        lemma_insert_rising(sorted_by_start(s.drop_last()), s.last());
    }
}

/// Some range of `s` covers `r`.
pub open spec fn covered(s: Seq<Range>, r: Range) -> bool {
    exists|k: int|
        0 <= k < s.len() && (#[trigger] s[k]).lo() <= r.lo() && r.hi() <= s[k].hi()
}

/// Replacing the last of some ordered ranges by one that begins where it does keeps them ordered.
proof fn lemma_ordered_replace_last(s: Seq<Range>, r: Range)
    requires
        ordered(s),
        s.len() > 0,
        r.lo() == s.last().lo(),
    ensures
        ordered(s.drop_last().push(r)),
{
    let t = s.drop_last().push(r);
    assert forall|a: int, b: int| 0 <= a < b < t.len() implies (#[trigger] t[a]).lo() < (
    #[trigger] t[b]).lo() && t[a].hi() <= t[b].lo() by {
        assert(s[a].lo() < s[b].lo() && s[a].hi() <= s[b].lo());
    }
}

/// Adding a range behind some ordered ones keeps them ordered.
proof fn lemma_ordered_push(s: Seq<Range>, r: Range)
    requires
        ordered(s),
        s.len() > 0 ==> s.last().lo() < r.lo() && s.last().hi() <= r.lo(),
    ensures
        ordered(s.push(r)),
{
    let t = s.push(r);
    assert forall|a: int, b: int| 0 <= a < b < t.len() implies (#[trigger] t[a]).lo() < (
    #[trigger] t[b]).lo() && t[a].hi() <= t[b].lo() by {
        if b == s.len() && a < s.len() - 1 {
            assert(s[a].hi() <= s[s.len() - 1].lo());
        }
    }
}

proof fn lemma_coalesced_ordered(s: Seq<Range>)
    requires
        rising(s),
    ensures
        ordered(coalesced(s)),
        s.len() > 0 ==> coalesced(s).len() > 0 && coalesced(s).last().lo() <= s.last().lo(),
    decreases s.len(),
{
    if s.len() > 0 {
        let front = s.drop_last();
        let before = coalesced(front);
        assert(rising(front)) by {
            assert forall|a: int, b: int| 0 <= a <= b < front.len() implies (#[trigger] front[a]).lo()
                <= (#[trigger] front[b]).lo() by {
                assert(s[a].lo() <= s[b].lo());
            }
        }
        lemma_coalesced_ordered(front);
        if front.len() > 0 {
            assert(s[front.len() - 1].lo() <= s[front.len() as int].lo());
        }
        if before.len() > 0 && before.last().overlapping(s.last()) {
            merge_is_symmetric(s.last(), before.last());
            lemma_ordered_replace_last(before, s.last().merged(before.last()));
        } else {
            lemma_ordered_push(before, s.last());
        }
    }
}

proof fn lemma_coalesced_covers(s: Seq<Range>, i: int)
    requires
        0 <= i < s.len(),
    ensures
        covered(coalesced(s), s[i]),
    decreases s.len(),
{
    let front = s.drop_last();
    let before = coalesced(front);
    let after = coalesced(s);
    let merges = before.len() > 0 && before.last().overlapping(s.last());
    if merges {
        merge_is_symmetric(s.last(), before.last());
    }
    if i < front.len() {
        lemma_coalesced_covers(front, i);
        let k = choose|k: int|
            0 <= k < before.len() && (#[trigger] before[k]).lo() <= front[i].lo() && front[i].hi()
                <= before[k].hi();
        if merges && k == before.len() - 1 {
            assert(after[k] == s.last().merged(before.last()));
        } else {
            assert(after[k] == before[k]);
        }
        assert(after[k].lo() <= s[i].lo() && s[i].hi() <= after[k].hi());
    } else {
        let k = after.len() - 1;
        assert(after[k].lo() <= s[i].lo() && s[i].hi() <= after[k].hi());
    }
}

/// A selection of several ranges is in order once it is normalized: its ranges neither overlap
/// nor begin at the same place, and each of the ranges it was made from is covered by one of them.
pub proof fn normalized_selections_are_ordered(s: Seq<Range>)
    requires
        s.len() >= 2,
    ensures
        ordered(normal_ranges(s)),
        forall|i: int| 0 <= i < s.len() ==> covered(normal_ranges(s), #[trigger] s[i]),
{
    let sorted = sorted_by_start(s);
    lemma_sorted_rising(s);
    lemma_sorted_same_members(s);
    lemma_coalesced_ordered(sorted);
    assert forall|i: int| 0 <= i < s.len() implies covered(normal_ranges(s), #[trigger] s[i]) by {
        assert(s.contains(s[i]));
        assert(sorted.contains(s[i]));
        let k = choose|k: int| 0 <= k < sorted.len() && sorted[k] == s[i];
        lemma_coalesced_covers(sorted, k);
    }
}

proof fn lemma_ordered_is_sorted(s: Seq<Range>)
    requires
        ordered(s),
    ensures
        sorted_by_start(s) == s,
        coalesced(s) == s,
    decreases s.len(),
{
    if s.len() > 0 {
        let front = s.drop_last();
        assert(ordered(front)) by {
            assert forall|a: int, b: int| 0 <= a < b < front.len() implies (#[trigger] front[a]).lo()
                < (#[trigger] front[b]).lo() && front[a].hi() <= front[b].lo() by {
                assert(s[a].lo() < s[b].lo());
            }
        }
        lemma_ordered_is_sorted(front);
        if front.len() > 0 {
            assert(s[front.len() - 1].lo() < s[front.len() as int].lo());
        }
        assert(front.push(s.last()) =~= s);
    }
}

/// Normalizing ranges that are in order changes nothing.
pub proof fn ordered_ranges_are_normal(s: Seq<Range>)
    requires
        ordered(s),
    ensures
        normal_ranges(s) == s,
{
    lemma_ordered_is_sorted(s);
}

proof fn lemma_followed_covers(s: Seq<Range>, primary: Range)
    ensures
        followed(s, primary).lo() <= primary.lo(),
        primary.hi() <= followed(s, primary).hi(),
    decreases s.len(),
{
    if s.len() > 0 {
        lemma_followed_covers(s.drop_last(), primary);
        merge_is_symmetric(s.last(), coalesced(s.drop_last()).last());
    }
}

proof fn lemma_first_index(s: Seq<Range>, r: Range)
    requires
        s.contains(r),
    ensures
        0 <= first_index(s, r) < s.len(),
        s[first_index(s, r)] == r,
    decreases s.len(),
{
    if s[0] != r {
        let k = choose|k: int| 0 <= k < s.len() && s[k] == r;
        assert(s.skip(1)[k - 1] == r);
        lemma_first_index(s.skip(1), r);
    }
}

/// The range that is primary after normalizing covers the one that was primary before.
pub proof fn the_primary_range_stays_primary(s: Seq<Range>, primary: int)
    requires
        0 <= primary < s.len(),
    ensures
        0 <= normal_primary(s, primary) < normal_ranges(s).len(),
        ({
            let kept = normal_ranges(s)[normal_primary(s, primary)];
            kept.lo() <= s[primary].lo() && s[primary].hi() <= kept.hi()
        }),
{
    if s.len() >= 2 {
        let sorted = sorted_by_start(s);
        lemma_sorted_same_members(s);
        assert(s.contains(s[primary]));
        assert(sorted.contains(s[primary]));
        lemma_followed_is_kept(sorted, s[primary]);
        lemma_followed_covers(sorted, s[primary]);
        lemma_first_index(normal_ranges(s), followed(sorted, s[primary]));
    }
}

/// Ranges that are in order stay as they are, with the same one primary.
pub proof fn ordered_ranges_keep_their_primary(s: Seq<Range>, primary: int)
    requires
        ordered(s),
        0 <= primary < s.len(),
    ensures
        normal_ranges(s) == s,
        normal_primary(s, primary) == primary,
{
    ordered_ranges_are_normal(s);
    the_primary_range_stays_primary(s, primary);
    let k = normal_primary(s, primary);
    if k < primary {
        assert(s[k].lo() < s[primary].lo() && s[k].hi() <= s[primary].lo());
        if s.len() >= 2 {
            lemma_ordered_is_sorted(s);
            lemma_followed_in_order(s, s[primary]);
            assert(s.contains(s[primary]));
            lemma_first_index(s, s[primary]);
        }
    } else if k > primary {
        assert(s[primary].lo() < s[k].lo());
    }
}

proof fn lemma_followed_in_order(s: Seq<Range>, primary: Range)
    requires
        ordered(s),
    ensures
        followed(s, primary) == primary,
    decreases s.len(),
{
    if s.len() > 0 {
        let front = s.drop_last();
        assert(ordered(front)) by {
            assert forall|a: int, b: int| 0 <= a < b < front.len() implies (#[trigger] front[a]).lo()
                < (#[trigger] front[b]).lo() && front[a].hi() <= front[b].lo() by {
                assert(s[a].lo() < s[b].lo());
            }
        }
        lemma_followed_in_order(front, primary);
        lemma_ordered_is_sorted(front);
        if front.len() > 0 {
            assert(s[front.len() - 1].lo() < s[front.len() as int].lo());
        }
    }
}

/// Some range of `s` holds position `p`.
pub open spec fn selects(s: Seq<Range>, p: int) -> bool {
    exists|k: int| 0 <= k < s.len() && (#[trigger] s[k]).lo() <= p < s[k].hi()
}

proof fn lemma_coalesced_selects(s: Seq<Range>, p: int)
    requires
        selects(coalesced(s), p),
    ensures
        selects(s, p),
    decreases s.len(),
{
    if s.len() > 0 {
        let front = s.drop_last();
        let before = coalesced(front);
        let after = coalesced(s);
        let k = choose|k: int| 0 <= k < after.len() && (#[trigger] after[k]).lo() <= p < after[k].hi();
        assert(s[s.len() - 1] == s.last());
        let merges = before.len() > 0 && before.last().overlapping(s.last());
        if merges {
            merge_is_symmetric(s.last(), before.last());
        }
        let last = s.last();
        if k == after.len() - 1 && last.lo() <= p < last.hi() {
            assert(s[s.len() - 1].lo() <= p);
        } else {
            if k == after.len() - 1 {
                assert(merges);
                assert(before[before.len() - 1].lo() <= p < before[before.len() - 1].hi());
            } else {
                assert(before[k] == after[k]);
            }
            lemma_coalesced_selects(front, p);
            let j = choose|j: int| 0 <= j < front.len() && (#[trigger] front[j]).lo() <= p
                < front[j].hi();
            assert(s[j] == front[j]);
        }
    }
}

/// Normalizing selects exactly what was selected before.
pub proof fn normalizing_keeps_what_is_selected(s: Seq<Range>, p: int)
    ensures
        selects(normal_ranges(s), p) <==> selects(s, p),
{
    if s.len() >= 2 {
        let sorted = sorted_by_start(s);
        lemma_sorted_same_members(s);
        if selects(normal_ranges(s), p) {
            lemma_coalesced_selects(sorted, p);
            let k = choose|k: int| 0 <= k < sorted.len() && (#[trigger] sorted[k]).lo() <= p
                < sorted[k].hi();
            assert(sorted.contains(sorted[k]));
            let j = choose|j: int| 0 <= j < s.len() && s[j] == sorted[k];
            assert(s[j].lo() <= p);
        }
        if selects(s, p) {
            normalized_selections_are_ordered(s);
            let j = choose|j: int| 0 <= j < s.len() && (#[trigger] s[j]).lo() <= p < s[j].hi();
            assert(covered(normal_ranges(s), s[j]));
            let t = normal_ranges(s);
            let k = choose|k: int|
                0 <= k < t.len() && (#[trigger] t[k]).lo() <= s[j].lo() && s[j].hi() <= t[k].hi();
            assert(t[k].lo() <= p < t[k].hi());
        }
    }
}

} // verus!
