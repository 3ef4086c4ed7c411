//! Changes to a text, in the order in which they stand in it.

use crate::selection::Selection;
use crate::text::{lemma_newlines_add, newlines};
use vstd::prelude::*;

verus! {

/// Replaces the characters from `from` up to `to` by `text`.
pub struct Change {
    pub from: usize,
    pub to: usize,
    pub text: Vec<char>,
}

/// What a change does, as plain values.
#[verifier::ext_equal]
pub struct Edit {
    pub from: int,
    pub to: int,
    pub text: Seq<char>,
}

impl View for Change {
    type V = Edit;

    open spec fn view(&self) -> Edit {
        Edit { from: self.from as int, to: self.to as int, text: self.text@ }
    }
}

/// What each of the changes does.
pub open spec fn edits(changes: Seq<Change>) -> Seq<Edit> {
    changes.map_values(|c: Change| c@)
}

/// The edits lie in a text of `len` characters, in order and without overlap.
pub open spec fn valid_edits(edits: Seq<Edit>, len: int) -> bool {
    &&& forall|i: int|
        0 <= i < edits.len() ==> 0 <= (#[trigger] edits[i]).from <= edits[i].to <= len
    &&& forall|i: int, j: int|
        0 <= i < j < edits.len() ==> (#[trigger] edits[i]).to <= (#[trigger] edits[j]).from
}

/// The text `s` after the edits.
pub open spec fn applied(s: Seq<char>, edits: Seq<Edit>) -> Seq<char>
    decreases edits.len(),
{
    if edits.len() == 0 {
        s
    } else {
        let last = edits.last();
        applied(s.take(last.from), edits.drop_last()) + last.text + s.skip(last.to)
    }
}

/// How much longer the edits make a text.
pub open spec fn growth(edits: Seq<Edit>) -> int
    decreases edits.len(),
{
    if edits.len() == 0 {
        0
    } else {
        let last = edits.last();
        growth(edits.drop_last()) + last.text.len() - (last.to - last.from)
    }
}

/// Changes to a text, and the selection that is to hold after them.
pub struct Transaction {
    pub changes: Vec<Change>,
    pub selection: Option<Selection>,
}

impl Transaction {
    /// What the changes do.
    pub open spec fn edits(&self) -> Seq<Edit> {
        edits(self.changes@)
    }
}

pub proof fn lemma_edits_push(changes: Seq<Change>, c: Change)
    ensures
        edits(changes.push(c)) == edits(changes).push(c@),
{
    assert(edits(changes.push(c)) =~= edits(changes).push(c@));
}

/// Pushing an edit behind valid ones keeps them valid.
pub proof fn lemma_valid_push(edits: Seq<Edit>, e: Edit, len: int)
    requires
        valid_edits(edits, len),
        0 <= e.from <= e.to <= len,
        edits.len() > 0 ==> edits.last().to <= e.from,
    ensures
        valid_edits(edits.push(e), len),
{
    let all = edits.push(e);
    assert forall|i: int, j: int| 0 <= i < j < all.len() implies (#[trigger] all[i]).to <= (
    #[trigger] all[j]).from by {
        if j == edits.len() && i < edits.len() - 1 {
            assert(edits[i].to <= edits[edits.len() - 1].from);
        }
    }
}

/// Puts the characters of `part` behind `out`.
pub fn append(out: &mut Vec<char>, part: &Vec<char>)
    ensures
        final(out)@ == old(out)@ + part@,
{
    let mut i: usize = 0;
    while i < part.len()
        invariant
            i <= part@.len(),
            out@ == old(out)@ + part@.take(i as int),
        decreases part.len() - i,
    {
        out.push(part[i]);
        assert(part@.take(i + 1) =~= part@.take(i as int).push(part@[i as int]));
        i += 1;
    }
    assert(part@.take(i as int) =~= part@);
}

/// A copy of some characters.
pub fn copy_chars(part: &Vec<char>) -> (copy: Vec<char>)
    ensures
        copy@ == part@,
{
    let mut copy: Vec<char> = Vec::new();
    append(&mut copy, part);
    copy
}

/// `part`, `count` times over.
pub open spec fn repeated(part: Seq<char>, count: nat) -> Seq<char>
    decreases count,
{
    if count == 0 {
        Seq::empty()
    } else {
        repeated(part, (count - 1) as nat) + part
    }
}

pub proof fn lemma_repeated_len(part: Seq<char>, count: nat)
    ensures
        repeated(part, count).len() == part.len() * count,
    decreases count,
{
    if count > 0 {
        lemma_repeated_len(part, (count - 1) as nat);
        assert(part.len() * count == part.len() * (count - 1) + part.len()) by (nonlinear_arith)
            requires
                count > 0,
        ;
    } else {
        assert(part.len() * count == 0) by (nonlinear_arith)
            requires
                count == 0,
        ;
    }
}

/// `part`, `count` times over.
pub fn repeat(part: &Vec<char>, count: usize) -> (out: Vec<char>)
    ensures
        out@ == repeated(part@, count as nat),
{
    let mut out: Vec<char> = Vec::new();
    let mut i: usize = 0;
    while i < count
        invariant
            i <= count,
            out@ == repeated(part@, i as nat),
        decreases count - i,
    {
        append(&mut out, part);
        i += 1;
    }
    out
}

/// Makes the changes in `text`.
pub fn apply(text: &Vec<char>, changes: &Vec<Change>) -> (out: Vec<char>)
    requires
        valid_edits(edits(changes@), text@.len() as int),
    ensures
        out@ == applied(text@, edits(changes@)),
{
    let ghost all = edits(changes@);
    let mut out: Vec<char> = Vec::new();
    let mut at: usize = 0;
    let mut i: usize = 0;
    assert(text@.take(0) =~= Seq::<char>::empty());
    assert(all.take(0) =~= Seq::<Edit>::empty());
    while i < changes.len()
        invariant
            i <= changes@.len(),
            at <= text@.len(),
            all == edits(changes@),
            valid_edits(all, text@.len() as int),
            i == 0 ==> at == 0,
            i > 0 ==> at == changes@[i - 1].to,
            out@ == applied(text@.take(at as int), all.take(i as int)),
        decreases changes.len() - i,
    {
        assert(all[i as int] == changes@[i as int]@);
        if i > 0 {
            assert(all[i - 1] == changes@[i - 1]@);
            assert(all[i - 1].to <= all[i as int].from);
        }
        let from = changes[i].from;
        let to = changes[i].to;
        proof {
            assert(all.take(i + 1).drop_last() =~= all.take(i as int));
            assert(all.take(i + 1).last() == all[i as int]);
        }
        let ghost before = out@;
        let mut k: usize = at;
        assert(text@.subrange(at as int, at as int) =~= Seq::<char>::empty());
        while k < from
            invariant
                at <= k <= from <= text@.len(),
                out@ == before + text@.subrange(at as int, k as int),
            decreases from - k,
        {
            out.push(text[k]);
            assert(text@.subrange(at as int, k + 1) =~= text@.subrange(at as int, k as int).push(
                text@[k as int],
            ));
            k += 1;
        }
        proof {
            lemma_apply_longer(text@, all.take(i as int), at as int, from as int);
        }
        append(&mut out, &changes[i].text);
        proof {
            let t = text@.take(to as int);
            assert(t.take(from as int) =~= text@.take(from as int));
            assert(t.skip(to as int) =~= Seq::<char>::empty());
            assert(out@ =~= applied(t, all.take(i + 1)));
        }
        at = to;
        i += 1;
    }
    let ghost before = out@;
    let mut k: usize = at;
    assert(text@.subrange(at as int, at as int) =~= Seq::<char>::empty());
    while k < text.len()
        invariant
            at <= k <= text@.len(),
            out@ == before + text@.subrange(at as int, k as int),
        decreases text.len() - k,
    {
        out.push(text[k]);
        assert(text@.subrange(at as int, k + 1) =~= text@.subrange(at as int, k as int).push(
            text@[k as int],
        ));
        k += 1;
    }
    proof {
        assert(all.take(i as int) =~= all);
        lemma_apply_longer(text@, all, at as int, text@.len() as int);
        assert(text@.take(text@.len() as int) =~= text@);
    }
    out
}

/// What stands behind the last edit stays as it is.
pub proof fn lemma_apply_longer(s: Seq<char>, edits: Seq<Edit>, at: int, end: int)
    requires
        0 <= at <= end <= s.len(),
        edits.len() > 0 ==> 0 <= edits.last().from <= edits.last().to <= at,
    ensures
        applied(s.take(end), edits) == applied(s.take(at), edits) + s.subrange(at, end),
{
    if edits.len() == 0 {
        assert(s.take(end) =~= s.take(at) + s.subrange(at, end));
    } else {
        let last = edits.last();
        assert(s.take(end).take(last.from) =~= s.take(at).take(last.from));
        assert(s.take(end).skip(last.to) =~= s.take(at).skip(last.to) + s.subrange(at, end));
        assert(applied(s.take(end), edits) =~= applied(s.take(at), edits) + s.subrange(at, end));
    }
}

/// The length of a changed text.
pub proof fn changed_length(s: Seq<char>, edits: Seq<Edit>)
    requires
        valid_edits(edits, s.len() as int),
    ensures
        applied(s, edits).len() == s.len() + growth(edits),
    decreases edits.len(),
{
    if edits.len() > 0 {
        let last = edits.last();
        let rest = edits.drop_last();
        assert(edits[edits.len() - 1] == last);
        assert(valid_edits(rest, last.from)) by {
            assert forall|i: int| 0 <= i < rest.len() implies 0 <= (#[trigger] rest[i]).from
                <= rest[i].to <= last.from by {
                assert(edits[i].to <= edits[edits.len() - 1].from);
            }
            assert forall|i: int, j: int| 0 <= i < j < rest.len() implies (#[trigger] rest[i]).to
                <= (#[trigger] rest[j]).from by {
                assert(edits[i].to <= edits[j].from);
            }
        }
        changed_length(s.take(last.from), rest);
    }
}

/// The line feeds that edits put in.
pub open spec fn added_feeds(edits: Seq<Edit>) -> int
    decreases edits.len(),
{
    if edits.len() == 0 {
        0
    } else {
        added_feeds(edits.drop_last()) + newlines(edits.last().text)
    }
}

/// The line feeds of `s` that edits take away.
pub open spec fn removed_feeds(s: Seq<char>, edits: Seq<Edit>) -> int
    decreases edits.len(),
{
    if edits.len() == 0 {
        0
    } else {
        let last = edits.last();
        removed_feeds(s, edits.drop_last()) + newlines(s.subrange(last.from, last.to))
    }
}

proof fn lemma_removed_feeds_prefix(s: Seq<char>, edits: Seq<Edit>, at: int)
    requires
        0 <= at <= s.len(),
        forall|i: int|
            0 <= i < edits.len() ==> 0 <= (#[trigger] edits[i]).from <= edits[i].to <= at,
    ensures
        removed_feeds(s, edits) == removed_feeds(s.take(at), edits),
    decreases edits.len(),
{
    if edits.len() > 0 {
        let last = edits.last();
        assert(edits[edits.len() - 1] == last);
        lemma_removed_feeds_prefix(s, edits.drop_last(), at);
        assert(s.take(at).subrange(last.from, last.to) =~= s.subrange(last.from, last.to));
    }
}

/// The line feeds of a changed text: those that were there, without those taken away and with
/// those put in.
pub proof fn line_feeds_after_changes(s: Seq<char>, edits: Seq<Edit>)
    requires
        valid_edits(edits, s.len() as int),
    ensures
        newlines(applied(s, edits)) == newlines(s) + added_feeds(edits) - removed_feeds(s, edits),
    decreases edits.len(),
{
    if edits.len() > 0 {
        let last = edits.last();
        let rest = edits.drop_last();
        assert(edits[edits.len() - 1] == last);
        assert forall|i: int| 0 <= i < rest.len() implies 0 <= (#[trigger] rest[i]).from
            <= rest[i].to <= last.from by {
            assert(edits[i].to <= edits[edits.len() - 1].from);
        }
        assert forall|i: int, j: int| 0 <= i < j < rest.len() implies (#[trigger] rest[i]).to <= (
        #[trigger] rest[j]).from by {
            assert(edits[i].to <= edits[j].from);
        }
        let front = s.take(last.from);
        line_feeds_after_changes(front, rest);
        lemma_removed_feeds_prefix(s, rest, last.from);
        let gone = s.subrange(last.from, last.to);
        lemma_newlines_add(applied(front, rest), last.text);
        lemma_newlines_add(applied(front, rest) + last.text, s.skip(last.to));
        lemma_newlines_add(front, gone);
        lemma_newlines_add(front + gone, s.skip(last.to));
        assert(front + gone + s.skip(last.to) =~= s);
    }
}

/// Repeating a text a number of times and some more gives the text that many times in a row.
pub proof fn repeated_texts_repeat(part: Seq<char>, a: nat, b: nat)
    ensures
        repeated(part, 0) == Seq::<char>::empty(),
        repeated(part, 1) == part,
        repeated(part, a + b) == repeated(part, a) + repeated(part, b),
    decreases b,
{
    reveal_with_fuel(repeated, 2);
    assert(repeated(part, 1) =~= part);
    if b == 0 {
        assert(repeated(part, a) =~= repeated(part, a) + repeated(part, 0));
    } else {
        repeated_texts_repeat(part, a, (b - 1) as nat);
        assert(((a + b) - 1) as nat == a + (b - 1) as nat);
        assert(repeated(part, a + b) =~= repeated(part, a) + repeated(part, b));
    }
}

/// Edits that each put in at least `n` line feeds put in that many together, and edits that take
/// none away take none away together.
pub proof fn lemma_feeds_of_each(s: Seq<char>, edits: Seq<Edit>, n: nat)
    ensures
        (forall|i: int| 0 <= i < edits.len() ==> newlines((#[trigger] edits[i]).text) >= n)
            ==> added_feeds(edits) >= n * edits.len(),
        (forall|i: int| 0 <= i < edits.len() ==> newlines((#[trigger] edits[i]).text) == n)
            ==> added_feeds(edits) == n * edits.len(),
        (forall|i: int|
            0 <= i < edits.len() ==> newlines(
                s.subrange((#[trigger] edits[i]).from, edits[i].to),
            ) == 0) ==> removed_feeds(s, edits) == 0,
        (forall|i: int|
            0 <= i < edits.len() ==> newlines(
                s.subrange((#[trigger] edits[i]).from, edits[i].to),
            ) == n) ==> removed_feeds(s, edits) == n * edits.len(),
    decreases edits.len(),
{
    if edits.len() > 0 {
        let rest = edits.drop_last();
        lemma_feeds_of_each(s, rest, n);
        assert(edits[edits.len() - 1] == edits.last());
        assert forall|i: int| 0 <= i < rest.len() implies #[trigger] rest[i] == edits[i] by {}
        assert(n * edits.len() == n * rest.len() + n) by (nonlinear_arith)
            requires
                edits.len() == rest.len() + 1,
        ;
    }
}

/// The text that an edit puts in stands in the changed text, moved by what the edits before it
/// add and take away.
pub proof fn inserted_text_stands(s: Seq<char>, edits: Seq<Edit>, k: int)
    requires
        valid_edits(edits, s.len() as int),
        0 <= k < edits.len(),
    ensures
        ({
            let at = edits[k].from + growth(edits.take(k));
            &&& 0 <= at
            &&& at + edits[k].text.len() <= applied(s, edits).len()
            &&& applied(s, edits).subrange(at, at + edits[k].text.len()) == edits[k].text
        }),
    decreases edits.len(),
{
    let last = edits.last();
    let rest = edits.drop_last();
    assert(edits[edits.len() - 1] == last);
    assert(valid_edits(rest, last.from)) by {
        assert forall|i: int| 0 <= i < rest.len() implies 0 <= (#[trigger] rest[i]).from
            <= rest[i].to <= last.from by {
            assert(edits[i].to <= edits[edits.len() - 1].from);
        }
        assert forall|i: int, j: int| 0 <= i < j < rest.len() implies (#[trigger] rest[i]).to <= (
        #[trigger] rest[j]).from by {
            assert(edits[i].to <= edits[j].from);
        }
    }
    let head = applied(s.take(last.from), rest);
    changed_length(s.take(last.from), rest);
    if k == edits.len() - 1 {
        assert(edits.take(k) =~= rest);
        let at = head.len() as int;
        assert(applied(s, edits).subrange(at, at + last.text.len()) =~= last.text);
    } else {
        inserted_text_stands(s.take(last.from), rest, k);
        assert(rest.take(k) =~= edits.take(k));
        assert(rest[k] == edits[k]);
        let at = edits[k].from + growth(edits.take(k));
        assert(applied(s, edits).subrange(at, at + edits[k].text.len()) =~= head.subrange(
            at,
            at + edits[k].text.len(),
        ));
    }
}

/// The characters that the edits put in.
pub open spec fn inserted(edits: Seq<Edit>) -> int
    decreases edits.len(),
{
    if edits.len() == 0 {
        0
    } else {
        inserted(edits.drop_last()) + edits.last().text.len()
    }
}

/// A text grows by no more than what is put in, and what lies before the end of the last edit
/// cannot shrink below nothing.
pub proof fn lemma_growth_bounds(edits: Seq<Edit>, len: int)
    requires
        0 <= len,
        valid_edits(edits, len),
    ensures
        growth(edits) <= inserted(edits),
        inserted(edits) >= 0,
        edits.len() > 0 ==> growth(edits) >= -edits.last().to,
        growth(edits) >= -len,
    decreases edits.len(),
{
    if edits.len() > 0 {
        let rest = edits.drop_last();
        let last = edits.last();
        assert(edits[edits.len() - 1] == last);
        assert(valid_edits(rest, len)) by {
            assert forall|i: int| 0 <= i < rest.len() implies 0 <= (#[trigger] rest[i]).from
                <= rest[i].to <= len by {
                assert(edits[i].to <= len);
            }
            assert forall|i: int, j: int| 0 <= i < j < rest.len() implies (#[trigger] rest[i]).to
                <= (#[trigger] rest[j]).from by {
                assert(edits[i].to <= edits[j].from);
            }
        }
        lemma_growth_bounds(rest, len);
        if rest.len() > 0 {
            assert(edits[edits.len() - 2].to <= edits[edits.len() - 1].from);
            assert(rest.last() == edits[edits.len() - 2]);
        }
    }
}

/// Deletions in order, each cut to what the ones before it left; one that lies wholly behind them
/// is dropped.
pub open spec fn deletion_edits(spans: Seq<(usize, usize)>) -> (Seq<Edit>, int)
    decreases spans.len(),
{
    if spans.len() == 0 {
        (Seq::empty(), 0)
    } else {
        let (before, last) = deletion_edits(spans.drop_last());
        let (from, to) = (spans.last().0 as int, spans.last().1 as int);
        if last > to {
            (before, last)
        } else {
            let start = if last > from {
                last
            } else {
                from
            };
            (before.push(Edit { from: start, to, text: Seq::empty() }), to)
        }
    }
}

/// Deletions put nothing in, and those that do not overlap are made as they are.
pub proof fn separate_deletions_are_made(spans: Seq<(usize, usize)>)
    ensures
        forall|i: int|
            0 <= i < deletion_edits(spans).0.len() ==> (#[trigger] deletion_edits(
                spans,
            ).0[i]).text.len() == 0,
        (forall|i: int, j: int|
            0 <= i < j < spans.len() ==> (#[trigger] spans[i]).1 <= (#[trigger] spans[j]).0) && (forall|
            i: int,
        |
            0 <= i < spans.len() ==> (#[trigger] spans[i]).0 <= spans[i].1) ==> {
            let es = deletion_edits(spans).0;
            &&& es.len() == spans.len()
            &&& forall|i: int|
                0 <= i < es.len() ==> (#[trigger] es[i]).from == spans[i].0 && es[i].to == spans[i].1
            &&& deletion_edits(spans).1 == (if spans.len() > 0 {
                spans.last().1 as int
            } else {
                0
            })
        },
    decreases spans.len(),
{
    if spans.len() > 0 {
        let front = spans.drop_last();
        separate_deletions_are_made(front);
        if (forall|i: int, j: int|
            0 <= i < j < spans.len() ==> (#[trigger] spans[i]).1 <= (#[trigger] spans[j]).0) && (forall|
            i: int,
        |
            0 <= i < spans.len() ==> (#[trigger] spans[i]).0 <= spans[i].1) {
            assert forall|i: int, j: int| 0 <= i < j < front.len() implies (#[trigger] front[i]).1
                <= (#[trigger] front[j]).0 by {
                assert(spans[i].1 <= spans[j].0);
            }
            assert forall|i: int| 0 <= i < front.len() implies (#[trigger] front[i]).0
                <= front[i].1 by {
                assert(spans[i].0 <= spans[i].1);
            }
            assert(spans[spans.len() - 1].0 <= spans[spans.len() - 1].1);
            if front.len() > 0 {
                assert(spans[front.len() - 1].1 <= spans[front.len() as int].0);
            }
        }
    }
}

/// Turns deletions into changes that do not overlap.
pub fn delete(spans: &Vec<(usize, usize)>, len: usize) -> (changes: Vec<Change>)
    requires
        forall|i: int|
            0 <= i < spans@.len() ==> (#[trigger] spans@[i]).0 <= spans@[i].1 && spans@[i].1 <= len,
    ensures
        edits(changes@) == deletion_edits(spans@).0,
        valid_edits(edits(changes@), len as int),
{
    let mut changes: Vec<Change> = Vec::new();
    let mut last: usize = 0;
    let mut i: usize = 0;
    assert(spans@.take(0) =~= Seq::<(usize, usize)>::empty());
    assert(edits(changes@) =~= Seq::<Edit>::empty());
    while i < spans.len()
        invariant
            i <= spans@.len(),
            forall|i: int|
                0 <= i < spans@.len() ==> (#[trigger] spans@[i]).0 <= spans@[i].1 && spans@[i].1
                    <= len,
            (edits(changes@), last as int) == deletion_edits(spans@.take(i as int)),
            valid_edits(edits(changes@), len as int),
            edits(changes@).len() > 0 ==> edits(changes@).last().to <= last,
        decreases spans.len() - i,
    {
        assert(spans@.take(i + 1).drop_last() =~= spans@.take(i as int));
        let from = spans[i].0;
        let to = spans[i].1;
        if last <= to {
            let start = if last > from {
                last
            } else {
                from
            };
            let change = Change { from: start, to, text: Vec::new() };
            proof {
                assert(change@.text =~= Seq::<char>::empty());
                lemma_edits_push(changes@, change);
                lemma_valid_push(edits(changes@), change@, len as int);
            }
            changes.push(change);
            last = to;
        }
        i += 1;
    }
    assert(spans@.take(i as int) =~= spans@);
    changes
}

proof fn lemma_inserted_nonneg(es: Seq<Edit>)
    ensures
        0 <= inserted(es),
    decreases es.len(),
{
    if es.len() > 0 {
        lemma_inserted_nonneg(es.drop_last());
    }
}

/// The first edits insert no more than all of them.
pub proof fn lemma_inserted_prefix(es: Seq<Edit>, k: int)
    requires
        0 <= k <= es.len(),
    ensures
        0 <= inserted(es.take(k)) <= inserted(es),
    decreases es.len() - k,
{
    lemma_inserted_nonneg(es.take(k));
    if k < es.len() {
        lemma_inserted_prefix(es, k + 1);
        assert(es.take(k + 1).drop_last() =~= es.take(k));
    } else {
        assert(es.take(k) =~= es);
    }
}

/// The edits that take others back: what those put in gives way to what stood in its place.
pub open spec fn inverse(s: Seq<char>, edits: Seq<Edit>) -> Seq<Edit> {
    Seq::new(
        edits.len(),
        |i: int|
            {
                let at = edits[i].from + growth(edits.take(i));
                Edit {
                    from: at,
                    to: at + edits[i].text.len(),
                    text: s.subrange(edits[i].from, edits[i].to),
                }
            },
    )
}

/// Changes are undone by their inverse.
pub proof fn changes_are_undone(s: Seq<char>, edits: Seq<Edit>)
    requires
        valid_edits(edits, s.len() as int),
    ensures
        valid_edits(inverse(s, edits), applied(s, edits).len() as int),
        applied(applied(s, edits), inverse(s, edits)) == s,
    decreases edits.len(),
{
    let back = inverse(s, edits);
    if edits.len() == 0 {
        assert(back =~= Seq::<Edit>::empty());
    } else {
        let n = edits.len() - 1;
        let last = edits[n];
        let rest = edits.drop_last();
        let front = s.take(last.from);
        assert(valid_edits(rest, last.from)) by {
            assert forall|i: int| 0 <= i < rest.len() implies 0 <= (#[trigger] rest[i]).from
                <= rest[i].to <= last.from by {
                assert(edits[i].to <= edits[n].from);
            }
            assert forall|i: int, j: int| 0 <= i < j < rest.len() implies (#[trigger] rest[i]).to
                <= (#[trigger] rest[j]).from by {
                assert(edits[i].to <= edits[j].from);
            }
        }
        changes_are_undone(front, rest);
        changed_length(front, rest);
        let a = applied(front, rest);
        let whole = applied(s, edits);
        assert(whole == a + last.text + s.skip(last.to));
        assert(edits.take(n) =~= rest);
        assert(back[n].from == a.len());
        let back_rest = inverse(front, rest);
        assert(back.drop_last() =~= back_rest) by {
            assert forall|i: int| 0 <= i < rest.len() implies #[trigger] back.drop_last()[i]
                == back_rest[i] by {
                assert(edits.take(i) =~= rest.take(i));
                assert(edits[i].to <= edits[n].from);
                assert(s.subrange(edits[i].from, edits[i].to) =~= front.subrange(
                    rest[i].from,
                    rest[i].to,
                ));
            }
        }
        assert(whole.take(a.len() as int) =~= a);
        assert(whole.skip(a.len() as int + last.text.len()) =~= s.skip(last.to));
        assert(back.last() == back[n]);
        assert(front + s.subrange(last.from, last.to) + s.skip(last.to) =~= s);
        assert(applied(whole, back) =~= s);
        assert forall|i: int| 0 <= i < back.len() implies 0 <= (#[trigger] back[i]).from
            <= back[i].to <= whole.len() by {
            if i < n {
                assert(back[i] == back_rest[i]);
            }
        }
        assert forall|i: int, j: int| 0 <= i < j < back.len() implies (#[trigger] back[i]).to <= (
        #[trigger] back[j]).from by {
            assert(back[i] == back_rest[i]);
            if j < n {
                assert(back[j] == back_rest[j]);
            }
        }
    }
}

/// What stands before an edit in the changed text is what the edits before it made of what stood
/// before it.
pub proof fn lemma_changed_front(s: Seq<char>, edits: Seq<Edit>, k: int)
    requires
        valid_edits(edits, s.len() as int),
        0 <= k < edits.len(),
    ensures
        ({
            let at = edits[k].from + growth(edits.take(k));
            &&& 0 <= at <= applied(s, edits).len()
            &&& applied(s, edits).take(at) == applied(s.take(edits[k].from), edits.take(k))
        }),
    decreases edits.len(),
{
    let n = edits.len() - 1;
    let last = edits[n];
    let rest = edits.drop_last();
    let front = s.take(last.from);
    assert(valid_edits(rest, last.from)) by {
        assert forall|i: int| 0 <= i < rest.len() implies 0 <= (#[trigger] rest[i]).from
            <= rest[i].to <= last.from by {
            assert(edits[i].to <= edits[n].from);
        }
        assert forall|i: int, j: int| 0 <= i < j < rest.len() implies (#[trigger] rest[i]).to <= (
        #[trigger] rest[j]).from by {
            assert(edits[i].to <= edits[j].from);
        }
    }
    changed_length(front, rest);
    let a = applied(front, rest);
    assert(applied(s, edits) == a + last.text + s.skip(last.to));
    if k == n {
        assert(edits.take(k) =~= rest);
        assert((a + last.text + s.skip(last.to)).take(a.len() as int) =~= a);
    } else {
        lemma_changed_front(front, rest, k);
        assert(rest.take(k) =~= edits.take(k));
        assert(edits[k].to <= edits[n].from);
        assert(front.take(edits[k].from) =~= s.take(edits[k].from));
        let at = edits[k].from + growth(edits.take(k));
        assert((a + last.text + s.skip(last.to)).take(at) =~= a.take(at));
    }
}

} // verus!
