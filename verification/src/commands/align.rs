//! Aligning selections in columns.

use crate::range::Range;
use crate::selection::{ordered, Selection};
use crate::transaction::{
    edits, lemma_edits_push, lemma_valid_push, repeated, valid_edits, Change, Edit, Transaction,
};
use vstd::prelude::*;

verus! {

/// Where a position is shown.
#[derive(Clone, Copy, Debug, PartialEq, Eq, Structural)]
pub struct Place {
    pub row: usize,
    pub col: usize,
}

/// Which column the selection at place `i` stands in: how many stand before it on its row.
pub open spec fn column(places: Seq<Place>, i: int) -> int
    decreases i,
{
    if i <= 0 || places[i].row != places[i - 1].row {
        0
    } else {
        column(places, i - 1) + 1
    }
}

/// How far the selection at place `i` is from the one before it on its row, or from the row's
/// beginning.
pub open spec fn width(places: Seq<Place>, i: int) -> int {
    if column(places, i) == 0 {
        places[i].col as int
    } else {
        places[i].col - places[i - 1].col
    }
}

/// The greatest width in column `k` among the first `n` places.
pub open spec fn column_width(places: Seq<Place>, k: int, n: nat) -> int
    decreases n,
{
    if n == 0 {
        0
    } else {
        let before = column_width(places, k, (n - 1) as nat);
        if column(places, n - 1) == k && width(places, n - 1) > before {
            width(places, n - 1)
        } else {
            before
        }
    }
}

/// Where column `k` is aligned: behind the widths of the columns up to it.
pub open spec fn column_position(places: Seq<Place>, k: int) -> int
    decreases k + 1,
{
    if k < 0 {
        0
    } else {
        column_position(places, k - 1) + column_width(places, k, places.len())
    }
}

/// How many spaces stand before the selection at place `i`, all told.
pub open spec fn shifted(places: Seq<Place>, i: int) -> int {
    column_position(places, column(places, i)) - places[i].col
}

/// How many spaces are put in before the selection at place `i`.
pub open spec fn padding(places: Seq<Place>, i: int) -> int {
    if column(places, i) == 0 {
        shifted(places, i)
    } else {
        shifted(places, i) - shifted(places, i - 1)
    }
}

/// On one row, places follow each other.
pub open spec fn rows_advance(places: Seq<Place>) -> bool {
    forall|i: int|
        0 < i < places.len() && (#[trigger] places[i]).row == places[i - 1].row ==> places[i].col
            >= places[i - 1].col
}

/// The sum of all widths.
pub open spec fn total_width(places: Seq<Place>, n: nat) -> int
    decreases n,
{
    if n == 0 {
        0
    } else {
        total_width(places, (n - 1) as nat) + width(places, n - 1)
    }
}

/// The sum of the columns where the places are.
pub open spec fn total_columns(places: Seq<Place>, n: nat) -> int
    decreases n,
{
    if n == 0 {
        0
    } else {
        total_columns(places, (n - 1) as nat) + places[n - 1].col
    }
}

/// Spaces that bring the selections of each column under each other.
pub open spec fn alignment(ranges: Seq<Range>, places: Seq<Place>) -> Seq<Edit> {
    Seq::new(
        ranges.len(),
        |i: int|
            Edit {
                from: ranges[i].lo(),
                to: ranges[i].lo(),
                text: repeated(seq![' '], padding(places, i) as nat),
            },
    )
}

proof fn lemma_column(places: Seq<Place>, i: int)
    requires
        0 <= i < places.len(),
    ensures
        0 <= column(places, i) <= i,
    decreases i,
{
    if i > 0 && places[i].row == places[i - 1].row {
        lemma_column(places, i - 1);
    }
}

proof fn lemma_width(places: Seq<Place>, i: int)
    requires
        rows_advance(places),
        0 <= i < places.len(),
    ensures
        0 <= width(places, i) <= places[i].col,
{
    lemma_column(places, i);
}

proof fn lemma_column_width(places: Seq<Place>, i: int, n: nat)
    requires
        0 <= i < n <= places.len(),
    ensures
        width(places, i) <= column_width(places, column(places, i), n),
    decreases n,
{
    if i < n - 1 {
        lemma_column_width(places, i, (n - 1) as nat);
    }
}

proof fn lemma_column_width_nonneg(places: Seq<Place>, k: int, n: nat)
    ensures
        0 <= column_width(places, k, n),
    decreases n,
{
    if n > 0 {
        lemma_column_width_nonneg(places, k, (n - 1) as nat);
    }
}

/// What a selection is moved by reaches at least as far as it was shifted already, so no spaces
/// have to be taken away.
proof fn lemma_padding(places: Seq<Place>, i: int)
    requires
        rows_advance(places),
        0 <= i < places.len(),
    ensures
        0 <= padding(places, i) <= shifted(places, i),
        0 <= shifted(places, i),
    decreases i,
{
    let k = column(places, i);
    lemma_column(places, i);
    lemma_column_width(places, i, places.len());
    lemma_width(places, i);
    if k > 0 {
        lemma_padding(places, i - 1);
        assert(column(places, i - 1) == k - 1);
        assert(column_position(places, k) == column_position(places, k - 1) + column_width(
            places,
            k,
            places.len(),
        ));
    } else {
        assert(column_position(places, -1) == 0);
    }
}

proof fn lemma_total(places: Seq<Place>, n: nat)
    requires
        rows_advance(places),
        n <= places.len(),
    ensures
        0 <= total_width(places, n) <= total_columns(places, n),
        total_columns(places, n) <= total_columns(places, places.len()),
    decreases places.len() - n,
{
    if n < places.len() {
        lemma_total(places, n + 1);
        lemma_width(places, n as int);
    }
    lemma_total_below(places, n);
}

proof fn lemma_total_below(places: Seq<Place>, n: nat)
    requires
        rows_advance(places),
        n <= places.len(),
    ensures
        0 <= total_width(places, n) <= total_columns(places, n),
    decreases n,
{
    if n > 0 {
        lemma_total_below(places, (n - 1) as nat);
        lemma_width(places, n - 1);
    }
}

/// The sum of the first `k` widths.
spec fn sum(widths: Seq<usize>, k: int) -> int
    decreases k,
{
    if k <= 0 {
        0
    } else {
        sum(widths, k - 1) + widths[k - 1]
    }
}

proof fn lemma_sum_same(a: Seq<usize>, b: Seq<usize>, k: int)
    requires
        0 <= k <= a.len(),
        k <= b.len(),
        forall|j: int| 0 <= j < k ==> a[j] == b[j],
    ensures
        sum(a, k) == sum(b, k),
    decreases k,
{
    if k > 0 {
        lemma_sum_same(a, b, k - 1);
    }
}

proof fn lemma_sum_update(a: Seq<usize>, at: int, v: usize, k: int)
    requires
        0 <= at < k <= a.len(),
    ensures
        sum(a.update(at, v), k) == sum(a, k) - a[at] + v,
    decreases k,
{
    if k - 1 == at {
        lemma_sum_same(a.update(at, v), a, k - 1);
    } else {
        lemma_sum_update(a, at, v, k - 1);
    }
}

proof fn lemma_sum_prefix(a: Seq<usize>, j: int, k: int)
    requires
        0 <= j <= k <= a.len(),
    ensures
        0 <= sum(a, j) <= sum(a, k),
    decreases k,
{
    if j < k {
        lemma_sum_prefix(a, j, k - 1);
    } else if j > 0 {
        lemma_sum_prefix(a, j - 1, k - 1);
    }
}

/// The widths of the columns.
fn column_widths(places: &Vec<Place>) -> (widths: Vec<usize>)
    requires
        rows_advance(places@),
    ensures
        forall|k: int|
            0 <= k < widths@.len() ==> widths@[k] == column_width(places@, k, places@.len()),
        forall|i: int| 0 <= i < places@.len() ==> #[trigger] column(places@, i) < widths@.len(),
        sum(widths@, widths@.len() as int) <= total_width(places@, places@.len()),
{
    let mut widths: Vec<usize> = Vec::new();
    let mut k: usize = 0;
    let mut offset: usize = 0;
    let mut i: usize = 0;
    while i < places.len()
        invariant
            i <= places@.len(),
            rows_advance(places@),
            i > 0 ==> k == column(places@, i - 1) + 1 && offset == places@[i - 1].col,
            i == 0 ==> k == 0 && offset == 0,
            k <= widths@.len() <= i,
            forall|k: int|
                0 <= k < widths@.len() ==> widths@[k] == column_width(places@, k, i as nat),
            forall|k: int| k >= widths@.len() ==> #[trigger] column_width(places@, k, i as nat) == 0,
            forall|j: int| 0 <= j < i ==> #[trigger] column(places@, j) < widths@.len(),
            sum(widths@, widths@.len() as int) <= total_width(places@, i as nat),
        decreases places.len() - i,
    {
        proof {
            lemma_column(places@, i as int);
            lemma_width(places@, i as int);
            if i > 0 {
                lemma_column(places@, i - 1);
            }
        }
        let place = places[i];
        if i == 0 || place.row != places[i - 1].row {
            k = 0;
            offset = 0;
        }
        assert(k == column(places@, i as int));
        let w = place.col - offset;
        let ghost before = widths@;
        assert(w == width(places@, i as int));
        if k < widths.len() {
            if w > widths[k] {
                widths.set(k, w);
                proof {
                    lemma_sum_update(before, k as int, w, before.len() as int);
                }
            }
        } else {
            widths.push(w);
            proof {
                lemma_sum_same(before, widths@, before.len() as int);
                lemma_column_width_nonneg(places@, k as int, i as nat);
            }
        }
        assert forall|m: int| 0 <= m < widths@.len() implies widths@[m] == column_width(
            places@,
            m,
            (i + 1) as nat,
        ) by {
            if m < before.len() {
                assert(before[m] == column_width(places@, m, i as nat));
            } else {
                assert(column_width(places@, m, i as nat) == 0);
            }
        }
        assert forall|m: int| m >= widths@.len() implies #[trigger] column_width(
            places@,
            m,
            (i + 1) as nat,
        ) == 0 by {
            assert(column_width(places@, m, i as nat) == 0);
        }
        offset = place.col;
        k += 1;
        i += 1;
    }
    widths
}

proof fn lemma_positions(places: Seq<Place>, widths: Seq<usize>, k: int)
    requires
        0 <= k <= widths.len(),
        forall|k: int|
            0 <= k < widths.len() ==> widths[k] == column_width(places, k, places.len()),
    ensures
        sum(widths, k) == column_position(places, k - 1),
    decreases k,
{
    if k > 0 {
        lemma_positions(places, widths, k - 1);
    }
}

/// Where the columns are aligned.
fn column_positions(places: &Vec<Place>) -> (positions: Vec<usize>)
    requires
        rows_advance(places@),
        total_columns(places@, places@.len()) <= usize::MAX,
    ensures
        forall|k: int| 0 <= k < positions@.len() ==> positions@[k] == column_position(places@, k),
        forall|i: int| 0 <= i < places@.len() ==> #[trigger] column(places@, i) < positions@.len(),
{
    let widths = column_widths(places);
    let mut positions: Vec<usize> = Vec::new();
    let mut total: usize = 0;
    let mut k: usize = 0;
    proof {
        lemma_total(places@, places@.len());
        assert(column_position(places@, -1) == 0);
    }
    while k < widths.len()
        invariant
            k <= widths@.len(),
            total == sum(widths@, k as int),
            sum(widths@, widths@.len() as int) <= usize::MAX,
            positions@.len() == k,
            forall|k: int|
                0 <= k < widths@.len() ==> widths@[k] == column_width(places@, k, places@.len()),
            forall|j: int| 0 <= j < k ==> positions@[j] == column_position(places@, j),
        decreases widths.len() - k,
    {
        proof {
            lemma_sum_prefix(widths@, k + 1, widths@.len() as int);
            lemma_positions(places@, widths@, k + 1);
        }
        total += widths[k];
        positions.push(total);
        k += 1;
    }
    positions
}

/// Aligns the selections in columns: spaces are put in before each selection until all selections
/// that come equally late on their rows are shown in the same column. `heads` and `anchors` are
/// the places where the ends of the selections are shown.
pub fn align_selections(
    selection: &Selection,
    heads: &Vec<Place>,
    anchors: &Vec<Place>,
    len: usize,
) -> (aligned: Result<Transaction, &'static str>)
    requires
        selection.wf(),
        selection.within(len as int),
        heads@.len() == selection.ranges@.len(),
        anchors@.len() == selection.ranges@.len(),
        rows_advance(heads@),
        total_columns(heads@, heads@.len()) <= usize::MAX,
    ensures
        match aligned {
            Err(e) => {
                &&& exists|i: int|
                    0 <= i < heads@.len() && (#[trigger] heads@[i]).row != anchors@[i].row
                &&& e@ == "align cannot work with multi line selections"@
            },
            Ok(t) => {
                &&& forall|i: int|
                    0 <= i < heads@.len() ==> (#[trigger] heads@[i]).row == anchors@[i].row
                &&& t.edits() == alignment(selection.ranges@, heads@)
                &&& valid_edits(t.edits(), len as int)
                &&& t.selection is None
            },
        },
{
    let mut i: usize = 0;
    while i < heads.len()
        invariant
            i <= heads@.len() == anchors@.len(),
            forall|j: int| 0 <= j < i ==> (#[trigger] heads@[j]).row == anchors@[j].row,
        decreases heads.len() - i,
    {
        if heads[i].row != anchors[i].row {
            assert(heads@[i as int].row != anchors@[i as int].row);
            return Err("align cannot work with multi line selections");
        }
        i += 1;
    }
    let positions = column_positions(heads);
    let mut changes: Vec<Change> = Vec::new();
    let mut space: Vec<char> = Vec::new();
    space.push(' ');
    let mut k: usize = 0;
    let mut offset: usize = 0;
    let mut i: usize = 0;
    let ghost ranges = selection.ranges@;
    assert(edits(changes@) =~= alignment(ranges, heads@).take(0));
    while i < selection.ranges.len()
        invariant
            i <= ranges.len() == heads@.len(),
            ranges == selection.ranges@,
            ordered(ranges),
            selection.within(len as int),
            rows_advance(heads@),
            space@ == seq![' '],
            forall|k: int| 0 <= k < positions@.len() ==> positions@[k] == column_position(heads@, k),
            forall|i: int| 0 <= i < heads@.len() ==> #[trigger] column(heads@, i) < positions@.len(),
            i > 0 ==> k == column(heads@, i - 1) + 1 && offset == shifted(heads@, i - 1),
            edits(changes@) == alignment(ranges, heads@).take(i as int),
            valid_edits(edits(changes@), len as int),
        decreases selection.ranges.len() - i,
    {
        proof {
            lemma_column(heads@, i as int);
            lemma_padding(heads@, i as int);
            assert(column(heads@, i as int) < positions@.len());
            assert(ranges[i as int].within(len as int));
            if i > 0 {
                assert(ranges[i - 1].lo() < ranges[i as int].lo());
            }
        }
        if i == 0 || heads[i].row != heads[i - 1].row {
            k = 0;
            offset = 0;
        }
        let inserts = positions[k] - heads[i].col - offset;
        assert(inserts == padding(heads@, i as int));
        let at = selection.ranges[i].from();
        let change = Change { from: at, to: at, text: crate::transaction::repeat(&space, inserts) };
        proof {
            lemma_edits_push(changes@, change);
            lemma_valid_push(edits(changes@), change@, len as int);
            let all = alignment(ranges, heads@);
            assert(all.take(i + 1) =~= all.take(i as int).push(all[i as int]));
        }
        changes.push(change);
        k += 1;
        offset += inserts;
        i += 1;
    }
    assert(alignment(ranges, heads@).take(i as int) =~= alignment(ranges, heads@));
    Ok(Transaction { changes, selection: None })
}

/// The spaces put in before the selection at place `i` and before those that come earlier on its
/// row.
pub open spec fn padding_up_to(places: Seq<Place>, i: int) -> int
    decreases i,
{
    if column(places, i) == 0 || i <= 0 {
        padding(places, i)
    } else {
        padding_up_to(places, i - 1) + padding(places, i)
    }
}

/// After alignment, selections that come equally late on their rows are shown in the same column.
pub proof fn aligned_selections_stand_under_each_other(places: Seq<Place>, i: int, j: int)
    requires
        rows_advance(places),
        0 <= i < places.len(),
        0 <= j < places.len(),
        column(places, i) == column(places, j),
    ensures
        places[i].col + padding_up_to(places, i) == places[j].col + padding_up_to(places, j),
        padding(places, i) >= 0,
{
    lemma_padding_up_to(places, i);
    lemma_padding_up_to(places, j);
    lemma_padding(places, i);
}

proof fn lemma_padding_up_to(places: Seq<Place>, i: int)
    requires
        0 <= i < places.len(),
    ensures
        padding_up_to(places, i) == shifted(places, i),
    decreases i,
{
    lemma_column(places, i);
    if column(places, i) > 0 {
        lemma_padding_up_to(places, i - 1);
    }
}

/// The column of a selection counts those before it on its row: so many places back its row
/// begins.
pub proof fn columns_count_from_the_row_start(places: Seq<Place>, i: int)
    requires
        0 <= i < places.len(),
    ensures
        ({
            let first = i - column(places, i);
            &&& 0 <= first <= i
            &&& forall|j: int| first <= j <= i ==> (#[trigger] places[j]).row == places[i].row
            &&& first > 0 ==> places[first - 1].row != places[first].row
        }),
    decreases i,
{
    if i > 0 && places[i].row == places[i - 1].row {
        columns_count_from_the_row_start(places, i - 1);
    }
}

/// Selections are moved no further than they have to: a column is as wide as its widest selection,
/// and the first column stands where the furthest of its selections stood.
pub proof fn columns_are_as_wide_as_their_widest(places: Seq<Place>, k: int, n: nat)
    requires
        n <= places.len(),
    ensures
        forall|i: int|
            0 <= i < n && #[trigger] column(places, i) == k ==> width(places, i) <= column_width(
                places,
                k,
                n,
            ),
        column_width(places, k, n) > 0 ==> exists|i: int|
            0 <= i < n && #[trigger] column(places, i) == k && width(places, i) == column_width(
                places,
                k,
                n,
            ),
        column_width(places, k, n) >= 0,
    decreases n,
{
    if n > 0 {
        columns_are_as_wide_as_their_widest(places, k, (n - 1) as nat);
    }
}

/// The first selection of each row is brought to the same column, that of the row where it stands
/// furthest: there nothing is put in. Spaces are all that is put in, right before the selections.
pub proof fn only_spaces_are_put_in(ranges: Seq<Range>, places: Seq<Place>, i: int)
    requires
        rows_advance(places),
        ranges.len() == places.len(),
        0 <= i < ranges.len(),
    ensures
        ({
            let e = alignment(ranges, places)[i];
            &&& e.from == ranges[i].lo() && e.to == ranges[i].lo()
            &&& e.text.len() == padding(places, i)
            &&& forall|k: int| 0 <= k < e.text.len() ==> e.text[k] == ' '
            &&& column(places, i) == 0 && (forall|j: int|
                0 <= j < places.len() && #[trigger] column(places, j) == 0 ==> places[j].col
                    <= places[i].col) ==> e.text.len() == 0
        }),
{
    lemma_padding(places, i);
    lemma_repeated_spaces(padding(places, i) as nat);
    if column(places, i) == 0 {
        columns_are_as_wide_as_their_widest(places, 0, places.len());
        assert(column_position(places, -1) == 0);
        assert(column_position(places, 0) == column_width(places, 0, places.len()));
    }
}

proof fn lemma_repeated_spaces(n: nat)
    ensures
        repeated(seq![' '], n).len() == n,
        forall|k: int| 0 <= k < n ==> repeated(seq![' '], n)[k] == ' ',
    decreases n,
{
    if n > 0 {
        lemma_repeated_spaces((n - 1) as nat);
    }
}

} // verus!
