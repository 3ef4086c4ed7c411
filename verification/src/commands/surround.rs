//! Putting pairs around selections, and replacing or deleting the pairs around them.

use crate::commands::textobjects::shown_lines;
use crate::range::{range, Range};
use crate::selection::{all_within, ordered, Selection};
use crate::text::LineEnding;
use crate::transaction::{
    applied, changes_are_undone, copy_chars, edits, growth, inserted_text_stands, inverse,
    lemma_changed_front, lemma_edits_push, lemma_valid_push, valid_edits, Change, Edit, Transaction,
};
use vstd::prelude::*;

verus! {

/// The key that a surrounding is asked for with: a character, with the pair it belongs to, or
/// Enter.
#[derive(Clone, Copy, Debug, PartialEq, Eq, Structural)]
pub enum SurroundKey {
    Pair(char, char),
    Enter,
    Other,
}

/// What is put before and behind.
pub open spec fn surrounding(key: SurroundKey, ending: LineEnding) -> Option<(Seq<char>, Seq<char>)> {
    match key {
        SurroundKey::Pair(open, close) => Some((seq![open], seq![close])),
        SurroundKey::Enter => Some((ending.chars(), ending.chars())),
        SurroundKey::Other => None,
    }
}

/// Puts a text before and another behind each of the first `n` ranges.
pub open spec fn surround_edits(
    ranges: Seq<Range>,
    open: Seq<char>,
    close: Seq<char>,
    n: nat,
) -> Seq<Edit>
    decreases n,
{
    if n == 0 {
        Seq::empty()
    } else {
        let r = ranges[n - 1];
        surround_edits(ranges, open, close, (n - 1) as nat).push(
            Edit { from: r.lo(), to: r.lo(), text: open },
        ).push(Edit { from: r.hi(), to: r.hi(), text: close })
    }
}

/// The ranges together with what surrounds them now.
pub open spec fn surrounded(ranges: Seq<Range>, len: int) -> Seq<Range> {
    Seq::new(
        ranges.len(),
        |i: int|
            range(ranges[i].lo() + i * len, ranges[i].hi() + (i + 1) * len).facing(
                ranges[i].faces(),
            ),
    )
}

/// Surrounds every selected range with a pair, or with line endings; the ranges grow over what was
/// put around them.
pub fn surround_add(selection: &Selection, key: SurroundKey, ending: LineEnding, len: usize) -> (t: Option<
    Transaction,
>)
    requires
        selection.wf(),
        selection.within(len as int),
        len + 4 * selection.ranges@.len() <= usize::MAX,
    ensures
        match surrounding(key, ending) {
            None => t is None,
            Some((open, close)) => {
                &&& t is Some
                &&& t->0.edits() == surround_edits(
                    selection.ranges@,
                    open,
                    close,
                    selection.ranges@.len(),
                )
                &&& valid_edits(t->0.edits(), len as int)
                &&& t->0.selection matches Some(s) && s.wf() && s.holds(
                    surrounded(selection.ranges@, (open.len() + close.len()) as int),
                    selection.primary_index as int,
                )
            },
        },
{
    let mut open: Vec<char> = Vec::new();
    let mut close: Vec<char> = Vec::new();
    match key {
        SurroundKey::Pair(o, c) => {
            open.push(o);
            close.push(c);
            assert(open@ =~= seq![o]);
            assert(close@ =~= seq![c]);
        },
        SurroundKey::Enter => {
            open = ending.as_chars();
            close = ending.as_chars();
        },
        SurroundKey::Other => {
            return None;
        },
    }
    let added: usize = open.len() + close.len();
    let ghost ranges = selection.ranges@;
    let mut changes: Vec<Change> = Vec::new();
    let mut grown: Vec<Range> = Vec::new();
    let mut offset: usize = 0;
    let mut i: usize = 0;
    assert(edits(changes@) =~= Seq::<Edit>::empty());
    while i < selection.ranges.len()
        invariant
            i <= ranges.len(),
            ranges == selection.ranges@,
            ordered(ranges),
            selection.within(len as int),
            len + 4 * ranges.len() <= usize::MAX,
            added == open@.len() + close@.len(),
            added <= 4,
            offset == i * added,
            edits(changes@) == surround_edits(ranges, open@, close@, i as nat),
            valid_edits(edits(changes@), len as int),
            edits(changes@).len() > 0 ==> i > 0 && edits(changes@).last().to <= ranges[i - 1].hi(),
            grown@.len() == i,
            forall|j: int| 0 <= j < i ==> grown@[j] == surrounded(ranges, added as int)[j],
        decreases selection.ranges.len() - i,
    {
        let r = selection.ranges[i];
        proof {
            assert(r.within(len as int));
            if i > 0 {
                assert(ranges[i - 1].hi() <= ranges[i as int].lo());
            }
            assert((i + 1) * added == i * added + added) by (nonlinear_arith);
            assert((i + 1) * added <= 4 * ranges.len()) by (nonlinear_arith)
                requires
                    i + 1 <= ranges.len(),
                    0 <= added <= 4,
            ;
        }
        let before = Change { from: r.from(), to: r.from(), text: copy_chars(&open) };
        let behind = Change { from: r.to(), to: r.to(), text: copy_chars(&close) };
        proof {
            lemma_edits_push(changes@, before);
            lemma_valid_push(edits(changes@), before@, len as int);
            lemma_edits_push(changes@.push(before), behind);
            lemma_valid_push(edits(changes@.push(before)), behind@, len as int);
        }
        changes.push(before);
        changes.push(behind);
        grown.push(
            Range::new(offset + r.from(), offset + r.to() + added).with_direction(r.direction()),
        );
        offset += added;
        i += 1;
    }
    assert(grown@ =~= surrounded(ranges, added as int));
    let after = Selection::new(grown, selection.primary_index);
    Some(Transaction { changes, selection: Some(after) })
}

/// The character whose pair is looked for: any, when the closest pair is wanted.
pub fn surround_character(key: Option<char>) -> (wanted: Option<Option<char>>)
    ensures
        wanted == match key {
            None => None,
            Some(c) => if c == 'm' {
                Some(None)
            } else {
                Some(Some(c))
            },
        },
{
    match key {
        None => None,
        Some(c) => if c == 'm' {
            Some(None)
        } else {
            Some(Some(c))
        },
    }
}

/// Selects the two characters of every pair that is to be replaced.
pub fn select_surround(positions: &Vec<usize>, primary_index: usize) -> (s: Selection)
    requires
        2 * primary_index < positions@.len(),
    ensures
        s.wf(),
        s.holds(
            positions@.map_values(|p: usize| Range { anchor: p, head: p }),
            2 * primary_index,
        ),
{
    let mut points: Vec<Range> = Vec::new();
    let mut i: usize = 0;
    while i < positions.len()
        invariant
            i <= positions@.len(),
            points@.len() == i,
            forall|j: int|
                0 <= j < i ==> points@[j] == (Range { anchor: positions@[j], head: positions@[j] }),
        decreases positions.len() - i,
    {
        points.push(Range::point(positions[i]));
        i += 1;
    }
    assert(points@ =~= positions@.map_values(|p: usize| Range { anchor: p, head: p }));
    Selection::new(points, primary_index * 2)
}

/// A character that takes another's place.
#[derive(Clone, Copy, Debug, PartialEq, Eq, Structural)]
pub struct PairEnd {
    pub pos: usize,
    pub open: bool,
}

/// Ends of pairs in the order of their positions.
pub open spec fn ends_ordered(ends: Seq<PairEnd>) -> bool {
    forall|a: int, b: int|
        0 <= a < b < ends.len() ==> (#[trigger] ends[a]).pos <= (#[trigger] ends[b]).pos
}

/// The ends of pairs: positions come in twos, where each pair opens and where it closes.
pub open spec fn pair_ends(positions: Seq<usize>) -> Seq<PairEnd> {
    Seq::new(positions.len(), |i: int| PairEnd { pos: positions[i], open: i % 2 == 0 })
}

fn insert_end(sorted: &mut Vec<PairEnd>, e: PairEnd)
    requires
        ends_ordered(old(sorted)@),
    ensures
        ends_ordered(final(sorted)@),
        final(sorted)@.to_multiset() == old(sorted)@.to_multiset().insert(e),
{
    let ghost before = sorted@;
    let mut at: usize = sorted.len();
    while at > 0 && sorted[at - 1].pos > e.pos
        invariant
            at <= sorted@.len(),
            sorted@ == before,
            ends_ordered(before),
            forall|k: int| at <= k < before.len() ==> (#[trigger] before[k]).pos > e.pos,
        decreases at,
    {
        at -= 1;
    }
    sorted.insert(at, e);
    proof {
        let after = sorted@;
        assert forall|a: int, b: int| 0 <= a < b < after.len() implies (#[trigger] after[a]).pos <= (
        #[trigger] after[b]).pos by {
            if b < at {
                assert(before[a].pos <= before[b].pos);
            } else if a > at {
                assert(before[a - 1].pos <= before[b - 1].pos);
            } else if a == at {
                assert(before[b - 1].pos > e.pos);
            } else if b == at {
                if a < at - 1 {
                    assert(before[a].pos <= before[at - 1].pos);
                }
            } else {
                assert(before[a].pos <= before[b - 1].pos);
            }
        }
        assert(after =~= before.insert(at as int, e));
        lemma_insert_end(before, at as int, e);
    }
}

proof fn lemma_insert_end(s: Seq<PairEnd>, at: int, e: PairEnd)
    requires
        0 <= at <= s.len(),
    ensures
        s.insert(at, e).to_multiset() == s.to_multiset().insert(e),
{
    broadcast use vstd::seq_lib::group_to_multiset_ensures;

    let t = s.insert(at, e);
    assert(t.remove(at) =~= s);
    assert(t[at] == e);
    assert(t.remove(at).to_multiset() == t.to_multiset().remove(e));
    assert(t.to_multiset() =~= t.to_multiset().remove(e).insert(e));
}

proof fn lemma_push_end(s: Seq<PairEnd>, e: PairEnd)
    ensures
        s.push(e).to_multiset() == s.to_multiset().insert(e),
{
    broadcast use vstd::seq_lib::group_to_multiset_ensures;

}

/// Sorts the ends of pairs, so that nested pairs are changed in the order of the text.
fn sort_ends(positions: &Vec<usize>) -> (sorted: Vec<PairEnd>)
    ensures
        ends_ordered(sorted@),
        sorted@.to_multiset() == pair_ends(positions@).to_multiset(),
        sorted@.len() == positions@.len(),
{
    let ghost all = pair_ends(positions@);
    let mut sorted: Vec<PairEnd> = Vec::new();
    let mut i: usize = 0;
    assert(all.take(0) =~= Seq::<PairEnd>::empty());
    assert(sorted@ =~= Seq::<PairEnd>::empty());
    while i < positions.len()
        invariant
            i <= positions@.len(),
            all == pair_ends(positions@),
            ends_ordered(sorted@),
            sorted@.to_multiset() == all.take(i as int).to_multiset(),
        decreases positions.len() - i,
    {
        let e = PairEnd { pos: positions[i], open: i % 2 == 0 };
        proof {
            assert(all.take(i + 1) =~= all.take(i as int).push(e));
            lemma_push_end(all.take(i as int), e);
        }
        insert_end(&mut sorted, e);
        i += 1;
    }
    assert(all.take(i as int) =~= all);
    proof {
        sorted@.to_multiset_ensures();
        all.to_multiset_ensures();
    }
    sorted
}

/// The character that takes the place of each end; none, when the pairs are deleted.
pub open spec fn end_edits(ends: Seq<PairEnd>, pair: Option<(char, char)>) -> Seq<Edit> {
    Seq::new(
        ends.len(),
        |i: int|
            Edit {
                from: ends[i].pos as int,
                to: ends[i].pos + 1,
                text: match pair {
                    Some((open, close)) => if ends[i].open {
                        seq![open]
                    } else {
                        seq![close]
                    },
                    None => Seq::empty(),
                },
            },
    )
}

/// The edits change the ends of the pairs, each once, in the order of the text.
pub open spec fn changes_ends(es: Seq<Edit>, positions: Seq<usize>, pair: Option<(char, char)>) -> bool {
    exists|ends: Seq<PairEnd>|
        ends_ordered(ends) && ends.to_multiset() == pair_ends(positions).to_multiset() && es
            == #[trigger] end_edits(ends, pair)
}

/// Replaces the pairs at the given positions by another pair, or deletes them.
pub fn surround_replace(positions: &Vec<usize>, pair: Option<(char, char)>) -> (t: Transaction)
    requires
        forall|i: int| 0 <= i < positions@.len() ==> (#[trigger] positions@[i]) < usize::MAX,
    ensures
        changes_ends(t.edits(), positions@, pair),
        t.selection is None,
{
    let ends = sort_ends(positions);
    proof {
        lemma_ends_below(ends@, positions@);
    }
    let ghost all = end_edits(ends@, pair);
    let mut changes: Vec<Change> = Vec::new();
    let mut i: usize = 0;
    assert(edits(changes@) =~= all.take(0));
    while i < ends.len()
        invariant
            i <= ends@.len(),
            forall|i: int| 0 <= i < ends@.len() ==> (#[trigger] ends@[i]).pos < usize::MAX,
            all == end_edits(ends@, pair),
            edits(changes@) == all.take(i as int),
        decreases ends.len() - i,
    {
        let mut text: Vec<char> = Vec::new();
        match pair {
            Some((open, close)) => {
                if ends[i].open {
                    text.push(open);
                } else {
                    text.push(close);
                }
            },
            None => {},
        }
        let change = Change { from: ends[i].pos, to: ends[i].pos + 1, text };
        proof {
            assert(change@.text =~= all[i as int].text);
            lemma_edits_push(changes@, change);
            assert(all.take(i + 1) =~= all.take(i as int).push(all[i as int]));
        }
        changes.push(change);
        i += 1;
    }
    assert(all.take(i as int) =~= all);
    Transaction { changes, selection: None }
}

proof fn lemma_ends_below(ends: Seq<PairEnd>, positions: Seq<usize>)
    requires
        ends.to_multiset() == pair_ends(positions).to_multiset(),
        forall|i: int| 0 <= i < positions.len() ==> (#[trigger] positions[i]) < usize::MAX,
    ensures
        forall|i: int| 0 <= i < ends.len() ==> (#[trigger] ends[i]).pos < usize::MAX,
{
    broadcast use vstd::seq_lib::group_to_multiset_ensures;

    assert forall|i: int| 0 <= i < ends.len() implies (#[trigger] ends[i]).pos < usize::MAX by {
        assert(ends.contains(ends[i]));
        assert(ends.to_multiset().contains(ends[i]));
        assert(pair_ends(positions).contains(ends[i]));
    }
}

/// Deletes the pairs at the given positions.
pub fn surround_delete(positions: &Vec<usize>) -> (t: Transaction)
    requires
        forall|i: int| 0 <= i < positions@.len() ==> (#[trigger] positions@[i]) < usize::MAX,
    ensures
        changes_ends(t.edits(), positions@, None),
        t.selection is None,
{
    surround_replace(positions, None)
}

/// The edits of ends at different positions of a text do not overlap.
pub proof fn distinct_ends_do_not_overlap(ends: Seq<PairEnd>, pair: Option<(char, char)>, len: int)
    requires
        ends_ordered(ends),
        forall|i: int| 0 <= i < ends.len() ==> (#[trigger] ends[i]).pos < len,
        forall|a: int, b: int|
            0 <= a < b < ends.len() ==> (#[trigger] ends[a]).pos != (#[trigger] ends[b]).pos,
    ensures
        valid_edits(end_edits(ends, pair), len),
{
    let es = end_edits(ends, pair);
    assert forall|i: int| 0 <= i < es.len() implies 0 <= (#[trigger] es[i]).from <= es[i].to
        <= len by {
        assert(ends[i].pos < len);
    }
    assert forall|i: int, j: int| 0 <= i < j < es.len() implies (#[trigger] es[i]).to <= (
    #[trigger] es[j]).from by {
        assert(ends[i].pos <= ends[j].pos);
        assert(ends[i].pos != ends[j].pos);
    }
}

/// The edits of surrounding ranges by single characters, one by one.
proof fn lemma_surround_edits(ranges: Seq<Range>, open: Seq<char>, close: Seq<char>, n: nat)
    requires
        n <= ranges.len(),
        open.len() == 1,
        close.len() == 1,
    ensures
        ({
            let es = surround_edits(ranges, open, close, n);
            &&& es.len() == 2 * n
            &&& forall|k: int|
                0 <= k < es.len() ==> (#[trigger] es[k]).from == es[k].to && es[k].from == (if k % 2
                    == 0 {
                    ranges[k / 2].lo()
                } else {
                    ranges[k / 2].hi()
                }) && es[k].text.len() == 1
        }),
    decreases n,
{
    if n > 0 {
        lemma_surround_edits(ranges, open, close, (n - 1) as nat);
        let before = surround_edits(ranges, open, close, (n - 1) as nat);
        let r = ranges[n - 1];
        let first = before.push(Edit { from: r.lo(), to: r.lo(), text: open });
        let es = first.push(Edit { from: r.hi(), to: r.hi(), text: close });
        assert(es == surround_edits(ranges, open, close, n));
        assert forall|k: int| 0 <= k < es.len() implies (#[trigger] es[k]).from == es[k].to
            && es[k].from == (if k % 2 == 0 {
            ranges[k / 2].lo()
        } else {
            ranges[k / 2].hi()
        }) && es[k].text.len() == 1 by {
            if k < before.len() {
                assert(es[k] == before[k]);
            }
        }
    }
}

/// The first edits put in one character each.
proof fn lemma_single_growth(es: Seq<Edit>, k: int)
    requires
        0 <= k <= es.len(),
        forall|i: int|
            0 <= i < es.len() ==> (#[trigger] es[i]).from == es[i].to && es[i].text.len() == 1,
    ensures
        growth(es.take(k)) == k,
    decreases k,
{
    if k > 0 {
        lemma_single_growth(es, k - 1);
        assert(es.take(k).drop_last() =~= es.take(k - 1));
        assert(es.take(k).last() == es[k - 1]);
    }
}

/// Ends of pairs at rising positions have one order.
proof fn lemma_one_order(ends: Seq<PairEnd>, all: Seq<PairEnd>)
    requires
        ends_ordered(ends),
        ends.to_multiset() == all.to_multiset(),
        forall|a: int, b: int|
            0 <= a < b < all.len() ==> (#[trigger] all[a]).pos < (#[trigger] all[b]).pos,
    ensures
        ends == all,
    decreases all.len(),
{
    ends.to_multiset_ensures();
    all.to_multiset_ensures();
    assert(ends.len() == all.len());
    if all.len() > 0 {
        let n = all.len() - 1;
        let last = all[n];
        assert(all.contains(last));
        assert(ends.to_multiset().count(last) > 0);
        assert(ends.contains(last));
        let k = choose|k: int| 0 <= k < ends.len() && ends[k] == last;
        assert(ends.contains(ends[n]));
        assert(all.to_multiset().count(ends[n]) > 0);
        assert(all.contains(ends[n]));
        let j = choose|j: int| 0 <= j < all.len() && all[j] == ends[n];
        assert(j == n) by {
            if k < n {
                assert(ends[k].pos <= ends[n].pos);
            }
            if j < n {
                assert(all[j].pos < all[n].pos);
            }
        }
        assert(ends.remove(n) =~= ends.drop_last());
        assert(all.remove(n) =~= all.drop_last());
        lemma_one_order(ends.drop_last(), all.drop_last());
        assert(ends =~= ends.drop_last().push(last));
        assert(all =~= all.drop_last().push(last));
    } else {
        assert(ends =~= all);
    }
}

/// Where pairs stand that were put around ranges.
pub open spec fn pair_places(ranges: Seq<Range>) -> Seq<usize> {
    Seq::new(
        2 * ranges.len(),
        |k: int|
            (k + if k % 2 == 0 {
                ranges[k / 2].lo()
            } else {
                ranges[k / 2].hi()
            }) as usize,
    )
}

/// Deleting the pairs that were put around ranges gives back the text.
pub proof fn deleting_pairs_undoes_adding_them(
    s: Seq<char>,
    ranges: Seq<Range>,
    open: char,
    close: char,
    deletion: Seq<Edit>,
)
    requires
        ordered(ranges),
        all_within(ranges, s.len() as int),
        s.len() + 2 * ranges.len() <= usize::MAX,
        changes_ends(deletion, pair_places(ranges), None),
    ensures
        applied(
            applied(s, surround_edits(ranges, seq![open], seq![close], ranges.len())),
            deletion,
        ) == s,
{
    let es = surround_edits(ranges, seq![open], seq![close], ranges.len());
    lemma_surround_edits(ranges, seq![open], seq![close], ranges.len());
    let places = pair_places(ranges);
    let all = pair_ends(places);
    assert forall|k: int| 0 <= k < es.len() implies 0 <= (#[trigger] es[k]).from <= es[k].to
        <= s.len() by {
        assert(ranges[k / 2].within(s.len() as int));
    }
    assert forall|a: int, b: int| 0 <= a < b < es.len() implies (#[trigger] es[a]).to <= (
    #[trigger] es[b]).from by {
        if a / 2 < b / 2 {
            assert(ranges[a / 2].hi() <= ranges[b / 2].lo());
        }
    }
    assert forall|a: int, b: int| 0 <= a < b < all.len() implies (#[trigger] all[a]).pos < (
    #[trigger] all[b]).pos by {
        assert(es[a].to <= es[b].from);
        assert(0 <= es[a].from <= es[a].to <= s.len());
        assert(0 <= es[b].from <= es[b].to <= s.len());
        assert(places[a] == a + es[a].from);
        assert(places[b] == b + es[b].from);
    }
    let ends = choose|ends: Seq<PairEnd>|
        ends_ordered(ends) && ends.to_multiset() == pair_ends(places).to_multiset() && deletion
            == #[trigger] end_edits(ends, None);
    lemma_one_order(ends, all);
    assert(deletion =~= inverse(s, es)) by {
        assert forall|k: int| 0 <= k < es.len() implies #[trigger] deletion[k] == inverse(s, es)[k] by {
            lemma_single_growth(es, k);
            assert(0 <= es[k].from <= es[k].to <= s.len());
            assert(places[k] == k + es[k].from);
            assert(s.subrange(es[k].from, es[k].to) =~= Seq::<char>::empty());
        }
    }
    changes_are_undone(s, es);
}

/// What is done to the pairs around the selections.
#[derive(Clone, Copy, Debug, PartialEq, Eq, Structural)]
pub enum SurroundHelp {
    Surround,
    ReplaceWith,
    Replace,
    Delete,
}

/// The keys that name a pair.
pub open spec fn pair_help() -> Seq<(Seq<char>, Seq<char>)> {
    Seq::empty().push(("( or )"@, "Parentheses"@))
    .push(("{ or }"@, "Curly braces"@))
    .push(("< or >"@, "Angled brackets"@))
    .push(("[ or ]"@, "Square brackets"@))
    .push((" "@, "... or any character"@))
}

/// The help on the keys that name a pair; a pair that is looked for can also be the nearest one.
pub fn surround_help(help: SurroundHelp) -> (info: (&'static str, Vec<(&'static str, &'static str)>))
    ensures
        info.0@ == (match help {
            SurroundHelp::Surround => "Surround selections with"@,
            SurroundHelp::ReplaceWith => "Replace with a pair of"@,
            SurroundHelp::Replace => "Replace surrounding pair of"@,
            SurroundHelp::Delete => "Delete surrounding pair of"@,
        }),
        shown_lines(info.1@) == (match help {
            SurroundHelp::Surround | SurroundHelp::ReplaceWith => pair_help(),
            _ => seq![("m"@, "Nearest matching pair"@)] + pair_help(),
        }),
{
    let mut lines: Vec<(&'static str, &'static str)> = Vec::new();
    let title = match help {
        SurroundHelp::Surround => "Surround selections with",
        SurroundHelp::ReplaceWith => "Replace with a pair of",
        SurroundHelp::Replace => {
            lines.push(("m", "Nearest matching pair"));
            "Replace surrounding pair of"
        },
        SurroundHelp::Delete => {
            lines.push(("m", "Nearest matching pair"));
            "Delete surrounding pair of"
        },
    };
    lines.push(("( or )", "Parentheses"));
    lines.push(("{ or }", "Curly braces"));
    lines.push(("< or >", "Angled brackets"));
    lines.push(("[ or ]", "Square brackets"));
    lines.push((" ", "... or any character"));
    assert(shown_lines(lines@) =~= (match help {
        SurroundHelp::Surround | SurroundHelp::ReplaceWith => pair_help(),
        _ => seq![("m"@, "Nearest matching pair"@)] + pair_help(),
    }));
    (title, lines)
}

/// A character that names a pair surrounds with the pair's own two characters, and the enter key
/// puts a line ending on either side.
pub proof fn surroundings_are_asked_for_by_key(open: char, close: char, ending: LineEnding)
    ensures
        surrounding(SurroundKey::Pair(open, close), ending) == Some((seq![open], seq![close])),
        surrounding(SurroundKey::Enter, ending) matches Some((a, b)) && a == b && a.last() == '\n'
            && crate::text::newlines(a) == 1,
        surrounding(SurroundKey::Other, ending) is None,
{
    crate::commands::insert::line_endings_hold_one_feed(ending);
}

proof fn lemma_surround_edit(ranges: Seq<Range>, open: Seq<char>, close: Seq<char>, n: nat)
    requires
        n <= ranges.len(),
    ensures
        ({
            let es = surround_edits(ranges, open, close, n);
            &&& es.len() == 2 * n
            &&& forall|i: int|
                0 <= i < n ==> es[2 * i] == (Edit {
                    from: (#[trigger] ranges[i]).lo(),
                    to: ranges[i].lo(),
                    text: open,
                }) && es[2 * i + 1] == (Edit {
                    from: ranges[i].hi(),
                    to: ranges[i].hi(),
                    text: close,
                })
        }),
    decreases n,
{
    if n > 0 {
        lemma_surround_edit(ranges, open, close, (n - 1) as nat);
        let before = surround_edits(ranges, open, close, (n - 1) as nat);
        let es = surround_edits(ranges, open, close, n);
        assert forall|i: int| 0 <= i < n implies es[2 * i] == (Edit {
            from: (#[trigger] ranges[i]).lo(),
            to: ranges[i].lo(),
            text: open,
        }) && es[2 * i + 1] == (Edit { from: ranges[i].hi(), to: ranges[i].hi(), text: close }) by {
            if i < n - 1 {
                assert(es[2 * i] == before[2 * i]);
                assert(es[2 * i + 1] == before[2 * i + 1]);
            }
        }
    }
}

proof fn lemma_surround_growth(ranges: Seq<Range>, open: Seq<char>, close: Seq<char>, i: nat)
    requires
        i <= ranges.len(),
    ensures
        growth(surround_edits(ranges, open, close, i)) == i * (open.len() + close.len()),
    decreases i,
{
    if i > 0 {
        let k = (i - 1) as nat;
        lemma_surround_growth(ranges, open, close, k);
        let before = surround_edits(ranges, open, close, k);
        let es = surround_edits(ranges, open, close, i);
        let r = ranges[k as int];
        let first = before.push(Edit { from: r.lo(), to: r.lo(), text: open });
        assert(es.drop_last() =~= first);
        assert(first.drop_last() =~= before);
        assert(growth(es) == growth(first) + close.len());
        assert(growth(first) == growth(before) + open.len());
        assert(i * (open.len() + close.len()) == k * (open.len() + close.len()) + (open.len()
            + close.len())) by (nonlinear_arith)
            requires
                i == k + 1,
        ;
    } else {
        assert(i * (open.len() + close.len()) == 0) by (nonlinear_arith)
            requires
                i == 0,
        ;
    }
}

/// After surrounding, each range holds what it held before, between the two texts that were put
/// around it, and faces as it did.
pub proof fn pairs_stand_around_their_ranges(
    s: Seq<char>,
    ranges: Seq<Range>,
    open: Seq<char>,
    close: Seq<char>,
    i: int,
)
    requires
        ordered(ranges),
        all_within(ranges, s.len() as int),
        0 <= i < ranges.len(),
        s.len() + ranges.len() * (open.len() + close.len()) <= usize::MAX,
    ensures
        ({
            let after = applied(s, surround_edits(ranges, open, close, ranges.len()));
            let (r, new) = (
                ranges[i],
                surrounded(ranges, (open.len() + close.len()) as int)[i],
            );
            &&& 0 <= new.lo() <= new.hi() <= after.len()
            &&& after.subrange(new.lo(), new.hi()) == open + s.subrange(r.lo(), r.hi()) + close
            &&& r.lo() < r.hi() ==> new.faces() == r.faces()
        }),
{
    let len = open.len() + close.len();
    let n = ranges.len();
    let r = ranges[i];
    let es = surround_edits(ranges, open, close, n);
    lemma_surround_edit(ranges, open, close, n);
    lemma_surround_valid(ranges, open, close, s.len() as int);
    assert(r.within(s.len() as int));
    let after = applied(s, es);
    assert(es[2 * i] == (Edit { from: ranges[i].lo(), to: ranges[i].lo(), text: open }));
    assert(es[2 * i + 1] == (Edit { from: ranges[i].hi(), to: ranges[i].hi(), text: close }));
    lemma_surround_prefix(ranges, open, close, i as nat);
    lemma_surround_growth(ranges, open, close, i as nat);
    lemma_changed_front(s, es, 2 * i + 1);
    lemma_changed_front(s, es, 2 * i);
    inserted_text_stands(s, es, 2 * i + 1);
    let before = es.take(2 * i);
    assert(es.take(2 * i + 1).drop_last() =~= before);
    assert(es.take(2 * i + 1).last() == es[2 * i]);
    let shift = growth(before);
    let (lo, hi) = (r.lo() + shift, r.hi() + shift);
    let front = applied(s.take(r.lo()), before);
    assert(after.take(lo) == front);
    let wide = applied(s.take(r.hi()), es.take(2 * i + 1));
    assert(s.take(r.hi()).take(r.lo()) =~= s.take(r.lo()));
    assert(wide =~= front + open + s.take(r.hi()).skip(r.lo()));
    assert(s.take(r.hi()).skip(r.lo()) =~= s.subrange(r.lo(), r.hi()));
    let mid = hi + open.len();
    assert(growth(es.take(2 * i + 1)) == shift + open.len());
    assert(after.take(mid) == wide);
    assert(after.subrange(mid, mid + close.len()) == close);
    let end = mid + close.len();
    assert(front.len() == lo);
    let whole = after.subrange(lo, end);
    assert(whole =~= open + s.subrange(r.lo(), r.hi()) + close) by {
        assert(whole.len() == open.len() + (r.hi() - r.lo()) + close.len());
        assert forall|k: int| 0 <= k < whole.len() implies whole[k] == (open + s.subrange(
            r.lo(),
            r.hi(),
        ) + close)[k] by {
            if k < mid - lo {
                assert(whole[k] == after.take(mid)[lo + k]);
                assert(wide[lo + k] == (open + s.subrange(r.lo(), r.hi()))[k]);
            } else {
                assert(whole[k] == after.subrange(mid, end)[k - (mid - lo)]);
            }
        }
    }
    assert(i * len == shift);
    assert((i + 1) * len == shift + len) by (nonlinear_arith)
        requires
            i * len == shift,
    ;
    assert((i + 1) * len <= n * len) by (nonlinear_arith)
        requires
            i + 1 <= n,
            len >= 0,
    ;
    assert(0 <= i * len) by (nonlinear_arith)
        requires
            i >= 0,
            len >= 0,
    ;
}

proof fn lemma_surround_prefix(ranges: Seq<Range>, open: Seq<char>, close: Seq<char>, i: nat)
    requires
        i <= ranges.len(),
    ensures
        surround_edits(ranges, open, close, ranges.len()).take((2 * i) as int) == surround_edits(
            ranges,
            open,
            close,
            i,
        ),
    decreases ranges.len() - i,
{
    let es = surround_edits(ranges, open, close, ranges.len());
    lemma_surround_edit(ranges, open, close, ranges.len());
    lemma_surround_edit(ranges, open, close, i);
    let part = surround_edits(ranges, open, close, i);
    assert(es.take((2 * i) as int) =~= part) by {
        assert forall|k: int| 0 <= k < 2 * i implies es[k] == part[k] by {
            let j = k / 2;
            assert(es[2 * j] == (Edit { from: ranges[j].lo(), to: ranges[j].lo(), text: open }));
            assert(k == 2 * j || k == 2 * j + 1);
        }
    }
}

proof fn lemma_surround_valid(ranges: Seq<Range>, open: Seq<char>, close: Seq<char>, len: int)
    requires
        ordered(ranges),
        all_within(ranges, len),
    ensures
        valid_edits(surround_edits(ranges, open, close, ranges.len()), len),
{
    let es = surround_edits(ranges, open, close, ranges.len());
    lemma_surround_edit(ranges, open, close, ranges.len());
    assert forall|k: int| 0 <= k < es.len() implies es[k].from == es[k].to && (#[trigger] es[k]).from
        == (if k % 2 == 0 {
        ranges[k / 2].lo()
    } else {
        ranges[k / 2].hi()
    }) by {
        let j = k / 2;
        assert(es[2 * j] == (Edit { from: ranges[j].lo(), to: ranges[j].lo(), text: open }));
        assert(k == 2 * j || k == 2 * j + 1);
    }
    assert forall|k: int| 0 <= k < es.len() implies 0 <= (#[trigger] es[k]).from <= es[k].to
        <= len by {
        assert(ranges[k / 2].within(len));
    }
    assert forall|a: int, b: int| 0 <= a < b < es.len() implies (#[trigger] es[a]).to <= (
    #[trigger] es[b]).from by {
        if a / 2 < b / 2 {
            assert(ranges[a / 2].hi() <= ranges[b / 2].lo());
        }
    }
}

/// Replacing a pair puts the new opening character where the pair opens and the closing one where
/// it closes; deleting it takes these two characters away, and nothing else.
pub proof fn both_ends_of_a_pair_are_changed(
    s: Seq<char>,
    a: usize,
    b: usize,
    pair: Option<(char, char)>,
    es: Seq<Edit>,
)
    requires
        a < b < s.len(),
        s.len() <= usize::MAX,
        changes_ends(es, seq![a, b], pair),
    ensures
        ({
            let (open, close) = match pair {
                Some((open, close)) => (seq![open], seq![close]),
                None => (Seq::empty(), Seq::empty()),
            };
            applied(s, es) == s.take(a as int) + open + s.subrange(a + 1, b as int) + close + s.skip(
                b + 1,
            )
        }),
{
    let positions = seq![a, b];
    let all = pair_ends(positions);
    let ends = choose|ends: Seq<PairEnd>|
        ends_ordered(ends) && ends.to_multiset() == pair_ends(positions).to_multiset() && es
            == #[trigger] end_edits(ends, pair);
    lemma_one_order(ends, all);
    let (first, second) = (es[0], es[1]);
    assert(es.len() == 2);
    assert(all[0].open && !all[1].open);
    assert(es.last() == second);
    assert(es.drop_last() =~= seq![first]);
    assert(seq![first].drop_last() =~= Seq::<Edit>::empty());
    assert(seq![first].last() == first);
    let front = s.take(second.from);
    assert(applied(front.take(first.from), seq![first].drop_last()) == front.take(first.from));
    assert(applied(front, seq![first]) == front.take(first.from) + first.text + front.skip(first.to));
    assert(front.take(first.from) =~= s.take(a as int));
    assert(front.skip(first.to) =~= s.subrange(a + 1, b as int));
}

} // verus!
