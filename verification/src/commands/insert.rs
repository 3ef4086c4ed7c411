//! Inserting characters and lines, continuing indentation and comments, and deleting while
//! inserting.

use crate::chars::{
    count_leading_whitespace, count_trailing_whitespace, leading_whitespace, trailing_whitespace,
    whitespace,
};
use crate::range::{cursor_lies_in_range, max, range, Range};
use crate::selection::{ordered, Selection};
use crate::text::{line_at, line_end, line_of, line_start, newlines, LineEnding, Text};
use crate::transaction::{
    append, applied, copy_chars, edits, growth, inserted, lemma_edits_push, lemma_growth_bounds,
    lemma_inserted_prefix, lemma_valid_push, repeat, repeated, valid_edits, Change, Edit,
    Transaction,
};
use vstd::prelude::*;

verus! {

/// What a new line takes over from the one it is opened at: the leader of a comment, if the line
/// is one, and the indentation that the syntax asks for.
pub struct Continuation {
    pub token: Option<Vec<char>>,
    pub indent: Vec<char>,
}

/// What new lines of a document look like.
pub struct NewlineStyle {
    pub line_ending: LineEnding,
    /// One level of indentation.
    pub unit: Vec<char>,
    /// Pairs of brackets and quotes; a later pair hides an earlier one that shares a character.
    pub pairs: Vec<(char, char)>,
    pub continue_comments: bool,
}

/// The last pair with `c` at one of its ends.
pub open spec fn pair_of(pairs: Seq<(char, char)>, c: char) -> Option<(char, char)>
    decreases pairs.len(),
{
    if pairs.len() == 0 {
        None
    } else if pairs.last().0 == c || pairs.last().1 == c {
        Some(pairs.last())
    } else {
        pair_of(pairs.drop_last(), c)
    }
}

/// Position `pos` lies between the two ends of a pair.
pub open spec fn between_pair(s: Seq<char>, pairs: Seq<(char, char)>, pos: int) -> bool {
    let prev = if pos == 0 {
        ' '
    } else {
        s[pos - 1]
    };
    let curr = if pos < s.len() {
        s[pos]
    } else {
        ' '
    };
    match pair_of(pairs, prev) {
        Some(pair) => pair.0 == prev && pair.1 == curr,
        None => false,
    }
}

/// The leader that a line carries on: that of its comment, unless the line is blank.
pub open spec fn leader(enabled: bool, line: Seq<char>, c: Continuation) -> Option<Seq<char>> {
    if enabled && leading_whitespace(line) < line.len() {
        match c.token {
            Some(token) => Some(token@),
            None => None,
        }
    } else {
        None
    }
}

/// The indentation of the new line: that of a comment which goes on, else what the syntax asks
/// for.
pub open spec fn new_indent(enabled: bool, line: Seq<char>, c: Continuation) -> Seq<char> {
    if leader(enabled, line, c) is Some {
        line.take(leading_whitespace(line))
    } else {
        c.indent@
    }
}

/// What the enter key does at one range, when the trailing whitespace of its line was already
/// taken up to `last`: the edit, and how many of its characters stand before the cursor.
pub open spec fn newline_edit(
    text: Text,
    style: NewlineStyle,
    r: Range,
    c: Continuation,
    last: int,
) -> (Edit, int) {
    let pos = r.cursor_in(text);
    let line = line_of(text@, pos);
    let start = line_start(text@, line);
    let before = text@.subrange(start, pos);
    let ending = style.line_ending.chars();
    if trailing_whitespace(before) < before.len() {
        let whole = line_at(text@, line);
        let indent = new_indent(style.continue_comments, whole, c);
        let from = max(pos - trailing_whitespace(before), last);
        match leader(style.continue_comments, whole, c) {
            Some(token) => {
                let out = ending + indent + token + seq![' '];
                (Edit { from, to: pos, text: out }, out.len() as int)
            },
            None => if between_pair(text@, style.pairs@, pos) {
                let inner = ending + indent + style.unit@;
                (Edit { from, to: pos, text: inner + ending + indent }, inner.len() as int)
            } else {
                let out = ending + indent;
                (Edit { from, to: pos, text: out }, out.len() as int)
            },
        }
    } else {
        (Edit { from: start, to: start, text: ending }, ending.len() as int)
    }
}

/// Whether the line of the range has more than whitespace before the cursor.
pub open spec fn after_text(text: Text, r: Range) -> bool {
    let pos = r.cursor_in(text);
    let before = text@.subrange(line_start(text@, line_of(text@, pos)), pos);
    trailing_whitespace(before) < before.len()
}

/// Up to where the first `n` ranges have taken whitespace.
pub open spec fn newline_last(text: Text, ranges: Seq<Range>, n: nat) -> int
    decreases n,
{
    if n == 0 {
        0
    } else if after_text(text, ranges[n - 1]) {
        ranges[n - 1].cursor_in(text)
    } else {
        newline_last(text, ranges, (n - 1) as nat)
    }
}

/// The edits of the enter key for the first `n` ranges.
pub open spec fn newline_edits(
    text: Text,
    style: NewlineStyle,
    ranges: Seq<Range>,
    cs: Seq<Continuation>,
    n: nat,
) -> Seq<Edit> {
    Seq::new(
        n,
        |i: int|
            newline_edit(text, style, ranges[i], cs[i], newline_last(text, ranges, i as nat)).0,
    )
}

/// Where a range stands after the enter key: it slides behind the text that was put in before the
/// cursor, or grows over it when the cursor is beyond the anchor. `shift` is what the ranges before
/// it moved it by.
pub open spec fn newline_range(text: Text, r: Range, e: Edit, ahead: int, shift: int) -> Range {
    let slide = ahead - (e.to - e.from);
    if r.cursor_in(text) > r.anchor {
        range(r.anchor + shift, r.head + slide + shift)
    } else {
        range(r.anchor + slide + shift, r.head + slide + shift)
    }
}

/// The ranges after the enter key.
pub open spec fn newline_ranges(
    text: Text,
    style: NewlineStyle,
    ranges: Seq<Range>,
    cs: Seq<Continuation>,
    n: nat,
) -> Seq<Range> {
    Seq::new(
        n,
        |i: int|
            {
                let (e, ahead) = newline_edit(
                    text,
                    style,
                    ranges[i],
                    cs[i],
                    newline_last(text, ranges, i as nat),
                );
                newline_range(
                    text,
                    ranges[i],
                    e,
                    ahead,
                    growth(newline_edits(text, style, ranges, cs, i as nat)),
                )
            },
    )
}

/// The last pair with `c` at one of its ends.
fn find_pair(pairs: &Vec<(char, char)>, c: char) -> (found: Option<(char, char)>)
    ensures
        found == pair_of(pairs@, c),
{
    let mut n: usize = pairs.len();
    assert(pairs@.take(n as int) =~= pairs@);
    while n > 0
        invariant
            n <= pairs@.len(),
            pair_of(pairs@, c) == pair_of(pairs@.take(n as int), c),
        decreases n,
    {
        let pair = pairs[n - 1];
        assert(pairs@.take(n as int).drop_last() =~= pairs@.take(n - 1));
        if pair.0 == c || pair.1 == c {
            return Some(pair);
        }
        n -= 1;
    }
    None
}

/// Whether `pos` lies between the two ends of a pair.
fn is_between_pair(text: &Text, pairs: &Vec<(char, char)>, pos: usize) -> (b: bool)
    requires
        pos <= text@.len(),
    ensures
        b == between_pair(text@, pairs@, pos as int),
{
    let prev = if pos == 0 {
        ' '
    } else {
        text.chars[pos - 1]
    };
    let curr = if pos < text.chars.len() {
        text.chars[pos]
    } else {
        ' '
    };
    match find_pair(pairs, prev) {
        Some(pair) => pair.0 == prev && pair.1 == curr,
        None => false,
    }
}

/// Whether nothing but whitespace stands in `s`.
pub open spec fn blank(s: Seq<char>) -> bool {
    forall|i: int| 0 <= i < s.len() ==> whitespace(#[trigger] s[i])
}

/// Only a blank text consists of trailing whitespace alone.
pub proof fn lemma_trailing_whitespace(s: Seq<char>)
    ensures
        0 <= trailing_whitespace(s) <= s.len(),
        trailing_whitespace(s) == s.len() <==> blank(s),
        trailing_whitespace(s) < s.len() ==> !whitespace(s[s.len() - trailing_whitespace(s) - 1]),
    decreases s.len(),
{
    if s.len() > 0 && whitespace(s.last()) {
        let front = s.drop_last();
        lemma_trailing_whitespace(front);
        if blank(front) {
            assert forall|i: int| 0 <= i < s.len() implies whitespace(#[trigger] s[i]) by {
                if i < front.len() {
                    assert(whitespace(front[i]));
                }
            }
        }
        if blank(s) {
            assert forall|i: int| 0 <= i < front.len() implies whitespace(#[trigger] front[i]) by {
                assert(whitespace(s[i]));
            }
        }
    } else if s.len() > 0 {
        assert(!whitespace(s[s.len() - 1]));
    }
}

/// The cursors of a selection that fits the text follow one another.
pub proof fn lemma_cursors_ordered(text: Text, ranges: Seq<Range>, i: int, j: int)
    requires
        text.wf(),
        ordered(ranges),
        forall|k: int| 0 <= k < ranges.len() ==> (#[trigger] ranges[k]).fits(text),
        0 <= i < j < ranges.len(),
    ensures
        ranges[i].cursor_in(text) <= ranges[i].hi() <= ranges[j].lo() <= ranges[j].cursor_in(text),
{
    cursor_lies_in_range(ranges[i], text);
    cursor_lies_in_range(ranges[j], text);
}

/// The edits of two neighbouring ranges do not overlap.
proof fn lemma_newline_step(
    text: Text,
    style: NewlineStyle,
    ranges: Seq<Range>,
    cs: Seq<Continuation>,
    i: int,
)
    requires
        text.wf(),
        ordered(ranges),
        forall|k: int| 0 <= k < ranges.len() ==> (#[trigger] ranges[k]).fits(text),
        0 <= i < ranges.len(),
    ensures
        ({
            let e = newline_edit(
                text,
                style,
                ranges[i],
                cs[i],
                newline_last(text, ranges, i as nat),
            ).0;
            &&& 0 <= e.from <= e.to <= ranges[i].cursor_in(text) <= text@.len()
            &&& i > 0 ==> newline_edit(
                text,
                style,
                ranges[i - 1],
                cs[i - 1],
                newline_last(text, ranges, (i - 1) as nat),
            ).0.to <= e.from
        }),
        0 <= newline_last(text, ranges, i as nat) <= ranges[i].cursor_in(text),
        i > 0 ==> newline_last(text, ranges, i as nat) <= ranges[i - 1].cursor_in(text),
    decreases i,
{
    let pos = ranges[i].cursor_in(text);
    cursor_lies_in_range(ranges[i], text);
    crate::text::lemma_line_of_bounds(text@, pos);
    crate::text::lemma_line_start_monotonic(text@, line_of(text@, pos), line_of(text@, pos));
    let start = line_start(text@, line_of(text@, pos));
    let before = text@.subrange(start, pos);
    lemma_trailing_whitespace(before);
    if i > 0 {
        lemma_newline_step(text, style, ranges, cs, i - 1);
        lemma_cursors_ordered(text, ranges, i - 1, i);
        let prev = ranges[i - 1].cursor_in(text);
        cursor_lies_in_range(ranges[i - 1], text);
        crate::text::lemma_line_of_bounds(text@, prev);
        crate::text::lemma_newlines_prefix_le(text@, prev, pos);
        let prev_start = line_start(text@, line_of(text@, prev));
        let prev_before = text@.subrange(prev_start, prev);
        lemma_trailing_whitespace(prev_before);
        if line_of(text@, prev) == line_of(text@, pos) {
            if after_text(text, ranges[i - 1]) && !after_text(text, ranges[i]) {
                let k = prev_before.len() - trailing_whitespace(prev_before) - 1;
                assert(before[k] == prev_before[k]);
                assert(blank(before));
                assert(false);
            }
        } else {
            crate::text::lemma_line_start_monotonic(
                text@,
                line_of(text@, prev) + 1,
                line_of(text@, pos),
            );
            assert(prev <= start);
        }
    }
}

/// The edits of the enter key are valid.
proof fn lemma_newline_valid(
    text: Text,
    style: NewlineStyle,
    ranges: Seq<Range>,
    cs: Seq<Continuation>,
    n: nat,
)
    requires
        text.wf(),
        ordered(ranges),
        forall|k: int| 0 <= k < ranges.len() ==> (#[trigger] ranges[k]).fits(text),
        n <= ranges.len(),
    ensures
        valid_edits(newline_edits(text, style, ranges, cs, n), text@.len() as int),
        n > 0 ==> newline_edits(text, style, ranges, cs, n).last().to <= ranges[n
            - 1].cursor_in(text),
    decreases n,
{
    let es = newline_edits(text, style, ranges, cs, n);
    if n > 0 {
        lemma_newline_valid(text, style, ranges, cs, (n - 1) as nat);
        lemma_newline_step(text, style, ranges, cs, n - 1);
        let rest = newline_edits(text, style, ranges, cs, (n - 1) as nat);
        lemma_valid_push(rest, es.last(), text@.len() as int);
        assert(rest.push(es.last()) =~= es);
    }
}

/// What the enter key does at one range: the change, how many of its characters stand before the
/// cursor, and whether whitespace before the cursor was looked at.
fn newline_at(
    text: &Text,
    style: &NewlineStyle,
    r: &Range,
    c: &Continuation,
    last: usize,
) -> (done: (Change, usize, bool))
    requires
        text.wf(),
        r.fits(*text),
        last <= r.cursor_in(*text),
    ensures
        (done.0@, done.1 as int) == newline_edit(*text, *style, *r, *c, last as int),
        done.1 <= done.0@.text.len(),
        done.2 == after_text(*text, *r),
        done.2 ==> done.0.to == r.cursor_in(*text),
        done.0.from <= done.0.to,
{
    let ghost e = newline_edit(*text, *style, *r, *c, last as int).0;
    proof {
        cursor_lies_in_range(*r, *text);
    }
    let pos = r.cursor(text);
    let line = text.char_to_line(pos);
    let start = text.line_to_char(line);
    proof {
        crate::text::lemma_line_of_bounds(text@, pos as int);
        crate::text::lemma_line_start_monotonic(text@, line as int, line + 1);
    }
    let next = if pos < text.chars.len() {
        text.line_to_char(line + 1)
    } else {
        pos
    };
    let ending = style.line_ending.as_chars();
    let mut out: Vec<char> = copy_chars(&ending);
    let trailing = count_trailing_whitespace(&text.chars, start, pos);
    if trailing >= pos - start {
        let ahead = out.len();
        return (Change { from: start, to: start, text: out }, ahead, false);
    }
    let from = if pos - trailing >= last {
        pos - trailing
    } else {
        last
    };
    let leading = count_leading_whitespace(&text.chars, start, next);
    let ghost whole = line_at(text@, line as int);
    assert(whole =~= text@.subrange(start as int, next as int));
    if style.continue_comments && leading < next - start {
        if let Some(token) = &c.token {
            let indent = text.slice(start, start + leading);
            assert(indent@ =~= whole.take(leading as int));
            append(&mut out, &indent);
            append(&mut out, token);
            out.push(' ');
            let ahead = out.len();
            assert(out@ =~= e.text);
            return (Change { from, to: pos, text: out }, ahead, true);
        }
    }
    append(&mut out, &c.indent);
    let ahead: usize;
    if is_between_pair(text, &style.pairs, pos) {
        append(&mut out, &style.unit);
        ahead = out.len();
        append(&mut out, &ending);
        append(&mut out, &c.indent);
    } else {
        ahead = out.len();
    }
    assert(out@ =~= e.text);
    (Change { from, to: pos, text: out }, ahead, true)
}

/// The enter key: breaks the line at every cursor and drops the whitespace before it. The new
/// line is indented and goes on with a comment; between the ends of a pair it stands on a line of
/// its own. On a blank line the break goes to its beginning, so that the indentation moves along.
pub fn insert_newline(
    text: &Text,
    selection: &Selection,
    style: &NewlineStyle,
    continuations: &Vec<Continuation>,
) -> (t: Transaction)
    requires
        text.wf(),
        selection.wf(),
        selection.fits(*text),
        continuations@.len() == selection.ranges@.len(),
        text@.len() + newline_room(*text, *style, continuations@) <= usize::MAX,
    ensures
        t.edits() == newline_edits(
            *text,
            *style,
            selection.ranges@,
            continuations@,
            selection.ranges@.len(),
        ),
        valid_edits(t.edits(), text@.len() as int),
        t.selection matches Some(s) && s.wf() && s.holds(
            newline_ranges(
                *text,
                *style,
                selection.ranges@,
                continuations@,
                selection.ranges@.len(),
            ),
            selection.primary_index as int,
        ),
{
    let ghost rs = selection.ranges@;
    let ghost cs = continuations@;
    let mut changes: Vec<Change> = Vec::new();
    let mut ranges: Vec<Range> = Vec::new();
    let mut shift: i128 = 0;
    let mut last: usize = 0;
    let mut i: usize = 0;
    assert(edits(changes@) =~= newline_edits(*text, *style, rs, cs, 0));
    assert(ranges@ =~= newline_ranges(*text, *style, rs, cs, 0));
    while i < selection.ranges.len()
        invariant
            i <= rs.len(),
            rs == selection.ranges@,
            cs == continuations@,
            cs.len() == rs.len(),
            text.wf(),
            selection.wf(),
            selection.fits(*text),
            edits(changes@) == newline_edits(*text, *style, rs, cs, i as nat),
            ranges@ == newline_ranges(*text, *style, rs, cs, i as nat),
            shift == growth(newline_edits(*text, *style, rs, cs, i as nat)),
            last == newline_last(*text, rs, i as nat),
            text@.len() + newline_room(*text, *style, cs) <= usize::MAX,
        decreases selection.ranges.len() - i,
    {
        let r = selection.ranges[i];
        proof {
            assert(rs[i as int].fits(*text));
            lemma_newline_step(*text, *style, rs, cs, i as int);
            lemma_newline_bounds(*text, *style, rs, cs, i as int);
        }
        let (change, ahead, taken) = newline_at(text, style, &r, &continuations[i], last);
        let moved = newline_slide(text, &r, &change, ahead, shift);
        ranges.push(moved);
        shift = shift + change.text.len() as i128 - (change.to - change.from) as i128;
        if taken {
            last = change.to;
        }
        proof {
            lemma_edits_push(changes@, change);
            assert(ranges@ =~= newline_ranges(*text, *style, rs, cs, (i + 1) as nat));
        }
        changes.push(change);
        i += 1;
    }
    proof {
        lemma_newline_valid(*text, *style, rs, cs, rs.len());
    }
    let s = Selection::new(ranges, selection.primary_index);
    Transaction { changes, selection: Some(s) }
}

/// Moves a range past the text that the enter key put in before its cursor.
fn newline_slide(text: &Text, r: &Range, change: &Change, ahead: usize, shift: i128) -> (moved:
    Range)
    requires
        text.wf(),
        change.from <= change.to,
        -usize::MAX <= shift <= usize::MAX,
        0 <= r.head + (ahead - (change.to - change.from)) + shift <= usize::MAX,
        r.cursor_in(*text) > r.anchor ==> 0 <= r.anchor + shift <= usize::MAX,
        r.cursor_in(*text) <= r.anchor ==> 0 <= r.anchor + (ahead - (change.to - change.from))
            + shift <= usize::MAX,
    ensures
        moved == newline_range(*text, *r, change@, ahead as int, shift as int),
{
    let slide: i128 = ahead as i128 - (change.to - change.from) as i128;
    let head = (r.head as i128 + slide + shift) as usize;
    if r.cursor(text) > r.anchor {
        Range::new((r.anchor as i128 + shift) as usize, head)
    } else {
        Range::new((r.anchor as i128 + slide + shift) as usize, head)
    }
}

/// The moved ranges lie in the changed text.
proof fn lemma_newline_bounds(
    text: Text,
    style: NewlineStyle,
    rs: Seq<Range>,
    cs: Seq<Continuation>,
    i: int,
)
    requires
        text.wf(),
        ordered(rs),
        forall|k: int| 0 <= k < rs.len() ==> (#[trigger] rs[k]).fits(text),
        0 <= i < rs.len() == cs.len(),
        text@.len() + newline_room(text, style, cs) <= usize::MAX,
    ensures
        ({
            let before = newline_edits(text, style, rs, cs, i as nat);
            let (e, ahead) = newline_edit(
                text,
                style,
                rs[i],
                cs[i],
                newline_last(text, rs, i as nat),
            );
            let r = rs[i];
            let shift = growth(before);
            let slide = ahead - (e.to - e.from);
            &&& -usize::MAX <= shift <= usize::MAX
            &&& 0 <= r.head + slide + shift <= usize::MAX
            &&& r.cursor_in(text) > r.anchor ==> 0 <= r.anchor + shift <= usize::MAX
            &&& r.cursor_in(text) <= r.anchor ==> 0 <= r.anchor + slide + shift <= usize::MAX
            &&& before.push(e) == newline_edits(text, style, rs, cs, (i + 1) as nat)
            &&& growth(newline_edits(text, style, rs, cs, (i + 1) as nat)) == shift + e.text.len()
                - (e.to - e.from)
        }),
{
    let total = newline_edits(text, style, rs, cs, rs.len());
    let before = newline_edits(text, style, rs, cs, i as nat);
    let after = newline_edits(text, style, rs, cs, (i + 1) as nat);
    let (e, ahead) = newline_edit(text, style, rs[i], cs[i], newline_last(text, rs, i as nat));
    assert(before.push(e) =~= after);
    assert(after.drop_last() =~= before);
    assert(after.last() == e);
    cursor_lies_in_range(rs[i], text);
    lemma_newline_step(text, style, rs, cs, i);
    lemma_newline_valid(text, style, rs, cs, i as nat);
    lemma_inserted_prefix(total, i + 1);
    assert(total.take(i + 1) =~= after);
    lemma_growth_bounds(before, text@.len() as int);
    lemma_newline_room(text, style, rs, cs, rs.len());
    assert(cs.take(rs.len() as int) =~= cs);
    assert(ahead <= e.text.len());
    if i > 0 {
        lemma_cursors_ordered(text, rs, i - 1, i);
        assert(before.last() == newline_edit(
            text,
            style,
            rs[i - 1],
            cs[i - 1],
            newline_last(text, rs, (i - 1) as nat),
        ).0);
    }
}

/// What the enter key puts in takes no more than this many characters.
pub open spec fn newline_room(text: Text, style: NewlineStyle, cs: Seq<Continuation>) -> int
    decreases cs.len(),
{
    if cs.len() == 0 {
        0
    } else {
        let token = match cs.last().token {
            Some(token) => token@.len(),
            None => 0,
        };
        newline_room(text, style, cs.drop_last()) + text@.len() + style.unit@.len() + token + 2
            * cs.last().indent@.len() + 5
    }
}

proof fn lemma_newline_room(
    text: Text,
    style: NewlineStyle,
    rs: Seq<Range>,
    cs: Seq<Continuation>,
    n: nat,
)
    requires
        text.wf(),
        ordered(rs),
        forall|k: int| 0 <= k < rs.len() ==> (#[trigger] rs[k]).fits(text),
        n <= rs.len() == cs.len(),
    ensures
        inserted(newline_edits(text, style, rs, cs, n)) <= newline_room(
            text,
            style,
            cs.take(n as int),
        ),
    decreases n,
{
    if n > 0 {
        let k = n - 1;
        let all = newline_edits(text, style, rs, cs, n);
        lemma_newline_room(text, style, rs, cs, k as nat);
        assert(cs.take(n as int).drop_last() =~= cs.take(k));
        assert(all.drop_last() =~= newline_edits(text, style, rs, cs, k as nat));
        let pos = rs[k].cursor_in(text);
        cursor_lies_in_range(rs[k], text);
        let line = line_of(text@, pos);
        crate::text::lemma_line_start_monotonic(text@, line, line + 1);
        crate::chars::lemma_leading_whitespace(line_at(text@, line));
    }
}

/// With nothing but the cursor at a range, the enter key leaves the cursor right behind the
/// indentation, the comment leader, or the deeper indentation between a pair, that it put in.
pub proof fn newline_cursor_follows_its_line(
    text: Text,
    style: NewlineStyle,
    ranges: Seq<Range>,
    cs: Seq<Continuation>,
    i: int,
)
    requires
        text.wf(),
        ordered(ranges),
        forall|k: int| 0 <= k < ranges.len() ==> (#[trigger] ranges[k]).fits(text),
        cs.len() == ranges.len(),
        text@.len() + newline_room(text, style, cs) <= usize::MAX,
        0 <= i < ranges.len(),
        ranges[i].anchor == ranges[i].head,
        after_text(text, ranges[i]),
    ensures
        ({
            let all = newline_edits(text, style, ranges, cs, ranges.len());
            let new = newline_ranges(text, style, ranges, cs, ranges.len())[i];
            let (e, ahead) = newline_edit(
                text,
                style,
                ranges[i],
                cs[i],
                newline_last(text, ranges, i as nat),
            );
            let at = e.from + growth(all.take(i));
            &&& 0 <= at
            &&& at + ahead <= applied(text@, all).len()
            &&& applied(text@, all).subrange(at, at + ahead) == e.text.take(ahead)
            &&& new.head == at + ahead
            &&& new.anchor == new.head
        }),
{
    let all = newline_edits(text, style, ranges, cs, ranges.len());
    let (e, ahead) = newline_edit(
        text,
        style,
        ranges[i],
        cs[i],
        newline_last(text, ranges, i as nat),
    );
    lemma_newline_valid(text, style, ranges, cs, ranges.len());
    lemma_newline_bounds(text, style, ranges, cs, i);
    assert(all.take(i) =~= newline_edits(text, style, ranges, cs, i as nat));
    assert(all[i] == e);
    crate::transaction::inserted_text_stands(text@, all, i);
    let at = e.from + growth(all.take(i));
    assert(applied(text@, all).subrange(at, at + ahead) =~= applied(text@, all).subrange(
        at,
        at + e.text.len(),
    ).take(ahead));
}

/// A pair that the cursor stands between is one of the pairs, with its ends on either side of the
/// cursor; and a pair whose opening character no other pair holds is recognized.
pub proof fn pairs_stand_around_the_cursor(s: Seq<char>, pairs: Seq<(char, char)>, pos: int)
    requires
        0 <= pos <= s.len(),
    ensures
        between_pair(s, pairs, pos) ==> exists|k: int|
            0 <= k < pairs.len() && (#[trigger] pairs[k]).0 == (if pos == 0 {
                ' '
            } else {
                s[pos - 1]
            }) && pairs[k].1 == (if pos < s.len() {
                s[pos]
            } else {
                ' '
            }),
        forall|k: int|
            0 < pos < s.len() && 0 <= k < pairs.len() && #[trigger] pairs[k] == (s[pos - 1], s[pos])
                && (forall|m: int|
                0 <= m < pairs.len() && m != k ==> (#[trigger] pairs[m]).0 != s[pos - 1]
                    && pairs[m].1 != s[pos - 1]) ==> between_pair(s, pairs, pos),
{
    let prev = if pos == 0 {
        ' '
    } else {
        s[pos - 1]
    };
    lemma_pair_of(pairs, prev);
    assert forall|k: int|
        0 < pos < s.len() && 0 <= k < pairs.len() && #[trigger] pairs[k] == (s[pos - 1], s[pos]) && (
        forall|m: int|
            0 <= m < pairs.len() && m != k ==> (#[trigger] pairs[m]).0 != s[pos - 1] && pairs[m].1
                != s[pos - 1]) implies between_pair(s, pairs, pos) by {
        let found = pair_of(pairs, prev);
        assert(found is Some);
        let m = choose|m: int| 0 <= m < pairs.len() && #[trigger] pairs[m] == found->0;
        assert(m == k);
    }
}

proof fn lemma_pair_of(pairs: Seq<(char, char)>, c: char)
    ensures
        pair_of(pairs, c) matches Some(pair) ==> pairs.contains(pair) && (pair.0 == c || pair.1 == c),
        pair_of(pairs, c) is None ==> forall|m: int|
            0 <= m < pairs.len() ==> (#[trigger] pairs[m]).0 != c && pairs[m].1 != c,
    decreases pairs.len(),
{
    if pairs.len() > 0 {
        lemma_pair_of(pairs.drop_last(), c);
        let front = pairs.drop_last();
        assert(pairs[pairs.len() - 1] == pairs.last());
        if pair_of(pairs, c) is None {
            assert forall|m: int| 0 <= m < pairs.len() implies (#[trigger] pairs[m]).0 != c
                && pairs[m].1 != c by {
                if m < front.len() {
                    assert(front[m] == pairs[m]);
                }
            }
        } else if front.contains(pair_of(pairs, c)->0) {
            let k = choose|k: int| 0 <= k < front.len() && front[k] == pair_of(pairs, c)->0;
            assert(pairs[k] == front[k]);
        }
    }
}

/// Something other than whitespace stands before `pos` on its line.
pub open spec fn text_before(s: Seq<char>, pos: int) -> bool {
    exists|k: int| line_start(s, line_of(s, pos)) <= k < pos && !whitespace(#[trigger] s[k])
}

proof fn lemma_before_cursor(s: Seq<char>, pos: int)
    requires
        0 <= pos <= s.len(),
    ensures
        ({
            let start = line_start(s, line_of(s, pos));
            let before = s.subrange(start, pos);
            let n = trailing_whitespace(before);
            &&& 0 <= start <= pos
            &&& 0 <= n <= before.len()
            &&& n < before.len() <==> text_before(s, pos)
            &&& forall|k: int| pos - n <= k < pos ==> whitespace(#[trigger] s[k])
            &&& forall|k: int| start <= k < pos ==> #[trigger] s[k] != '\n'
            &&& n < before.len() ==> start < pos - n && !whitespace(s[pos - n - 1])
        }),
{
    let start = line_start(s, line_of(s, pos));
    let before = s.subrange(start, pos);
    crate::text::positions_lie_in_their_line(s, pos);
    crate::chars::whitespace_at_the_ends_is_counted(before);
    let n = trailing_whitespace(before);
    assert forall|k: int| pos - n <= k < pos implies whitespace(#[trigger] s[k]) by {
        assert(before[k - start] == s[k]);
    }
    if n < before.len() {
        assert(before[before.len() - n - 1] == s[pos - n - 1]);
    }
}

proof fn lemma_line_indent(s: Seq<char>, pos: int)
    requires
        0 <= pos <= s.len(),
        text_before(s, pos),
    ensures
        ({
            let start = line_start(s, line_of(s, pos));
            let whole = line_at(s, line_of(s, pos));
            let n = leading_whitespace(whole);
            &&& 0 <= n < whole.len()
            &&& start + n < pos
            &&& !whitespace(s[start + n])
            &&& forall|k: int| start <= k < start + n ==> whitespace(#[trigger] s[k]) && s[k] != '\n'
            &&& whole.take(n) == s.subrange(start, start + n)
        }),
{
    let start = line_start(s, line_of(s, pos));
    let whole = line_at(s, line_of(s, pos));
    crate::text::positions_lie_in_their_line(s, pos);
    crate::chars::whitespace_at_the_ends_is_counted(whole);
    let n = leading_whitespace(whole);
    let k = choose|k: int| start <= k < pos && !whitespace(#[trigger] s[k]);
    if k < s.len() {
        assert(whole[k - start] == s[k]);
    }
    assert(n <= k - start);
    assert(whole[n] == s[start + n]);
    assert forall|k: int| start <= k < start + n implies whitespace(#[trigger] s[k]) && s[k]
        != '\n' by {
        assert(whole[k - start] == s[k]);
    }
    assert(whole.take(n) =~= s.subrange(start, start + n));
}

/// The enter key at the range at place `i`: a line ending is put in, right before the cursor, or
/// before the line where nothing but whitespace stands before the cursor. What is taken away is
/// whitespace of the cursor's line, right before the cursor.
pub proof fn enter_breaks_the_line(
    text: Text,
    style: NewlineStyle,
    ranges: Seq<Range>,
    cs: Seq<Continuation>,
    i: int,
)
    requires
        text.wf(),
        ordered(ranges),
        forall|k: int| 0 <= k < ranges.len() ==> (#[trigger] ranges[k]).fits(text),
        cs.len() == ranges.len(),
        0 <= i < ranges.len(),
    ensures
        ({
            let e = newline_edits(text, style, ranges, cs, ranges.len())[i];
            let ending = style.line_ending.chars();
            let pos = ranges[i].cursor_in(text);
            let start = line_start(text@, line_of(text@, pos));
            &&& e.text.len() >= ending.len() && e.text.take(ending.len() as int) == ending
            &&& 0 <= start <= e.from <= e.to <= pos
            &&& forall|k: int| e.from <= k < e.to ==> whitespace(#[trigger] text@[k]) && text@[k] != '\n'
            &&& !text_before(text@, pos) ==> e.from == start && e.to == start && e.text == ending
            &&& text_before(text@, pos) ==> e.to == pos
            &&& text_before(text@, pos) && i == 0 ==> start < e.from && !whitespace(
                text@[e.from - 1],
            )
        }),
{
    let last = newline_last(text, ranges, i as nat);
    let e = newline_edit(text, style, ranges[i], cs[i], last).0;
    lemma_newline_step(text, style, ranges, cs, i);
    let pos = ranges[i].cursor_in(text);
    lemma_before_cursor(text@, pos);
    let ending = style.line_ending.chars();
    assert(e.text.take(ending.len() as int) =~= ending);
}

/// The line that the enter key begins: it goes on with the whitespace and the token of a comment,
/// or with the indentation that is asked for; only between the ends of a pair there are two new
/// lines.
#[verifier::rlimit(40)]
pub proof fn enter_goes_on_with_the_line(
    text: Text,
    style: NewlineStyle,
    ranges: Seq<Range>,
    cs: Seq<Continuation>,
    i: int,
)
    requires
        text.wf(),
        ordered(ranges),
        forall|k: int| 0 <= k < ranges.len() ==> (#[trigger] ranges[k]).fits(text),
        cs.len() == ranges.len(),
        0 <= i < ranges.len(),
        text_before(text@, ranges[i].cursor_in(text)),
    ensures
        ({
            let e = newline_edits(text, style, ranges, cs, ranges.len())[i];
            let ending = style.line_ending.chars();
            let pos = ranges[i].cursor_in(text);
            let start = line_start(text@, line_of(text@, pos));
            if style.continue_comments && cs[i].token is Some {
                exists|n: int|
                    start <= n < pos && !whitespace(#[trigger] text@[n]) && (forall|k: int|
                        start <= k < n ==> whitespace(#[trigger] text@[k])) && e.text == ending
                        + text@.subrange(start, n) + cs[i].token->0@ + seq![' ']
            } else if between_pair(text@, style.pairs@, pos) {
                e.text == ending + cs[i].indent@ + style.unit@ + ending + cs[i].indent@
            } else {
                e.text == ending + cs[i].indent@
            }
        }),
{
    let last = newline_last(text, ranges, i as nat);
    let e = newline_edit(text, style, ranges[i], cs[i], last).0;
    lemma_newline_step(text, style, ranges, cs, i);
    let pos = ranges[i].cursor_in(text);
    lemma_before_cursor(text@, pos);
    lemma_line_indent(text@, pos);
    let start = line_start(text@, line_of(text@, pos));
    let whole = line_at(text@, line_of(text@, pos));
    let n = start + leading_whitespace(whole);
    let ending = style.line_ending.chars();
    if style.continue_comments && cs[i].token is Some {
        assert(e.text =~= ending + text@.subrange(start, n) + cs[i].token->0@ + seq![' ']);
        assert(!whitespace(text@[n]));
    } else if between_pair(text@, style.pairs@, pos) {
        assert(e.text =~= ending + cs[i].indent@ + style.unit@ + ending + cs[i].indent@);
    } else {
        assert(e.text =~= ending + cs[i].indent@);
    }
}

/// A line ending holds one line feed, which it ends with.
pub proof fn line_endings_hold_one_feed(ending: LineEnding)
    ensures
        newlines(ending.chars()) == 1,
        ending.chars().last() == '\n',
{
    let s = ending.chars();
    crate::text::line_feeds_are_counted(seq!['\r'], seq!['\n'], '\n');
    crate::text::line_feeds_are_counted(seq!['\r'], seq!['\n'], '\r');
    match ending {
        LineEnding::Crlf => {
            assert(s =~= seq!['\r'] + seq!['\n']);
        },
        LineEnding::LF => {},
    }
}

/// The enter key adds a line at every cursor, on blank lines too, and takes no line away.
pub proof fn enter_adds_lines(
    text: Text,
    style: NewlineStyle,
    ranges: Seq<Range>,
    cs: Seq<Continuation>,
)
    requires
        text.wf(),
        ordered(ranges),
        forall|k: int| 0 <= k < ranges.len() ==> (#[trigger] ranges[k]).fits(text),
        cs.len() == ranges.len(),
    ensures
        newlines(
            applied(text@, newline_edits(text, style, ranges, cs, ranges.len())),
        ) >= newlines(text@) + ranges.len(),
{
    let es = newline_edits(text, style, ranges, cs, ranges.len());
    lemma_newline_valid(text, style, ranges, cs, ranges.len());
    assert forall|i: int| 0 <= i < es.len() implies newlines((#[trigger] es[i]).text) >= 1
        && newlines(text@.subrange(es[i].from, es[i].to)) == 0 by {
        enter_breaks_the_line(text, style, ranges, cs, i);
        let ending = style.line_ending.chars();
        let rest = es[i].text.skip(ending.len() as int);
        line_endings_hold_one_feed(style.line_ending);
        crate::text::lemma_newlines_add(ending, rest);
        assert(es[i].text =~= ending + rest);
        let gone = text@.subrange(es[i].from, es[i].to);
        assert forall|m: int| 0 <= m < gone.len() implies gone[m] != '\n' by {
            assert(gone[m] == text@[es[i].from + m]);
        }
        crate::text::lemma_no_newlines(gone);
    }
    crate::transaction::lemma_feeds_of_each(text@, es, 1);
    crate::transaction::line_feeds_after_changes(text@, es);
}

/// On a line with nothing but whitespace before the cursor, a cursor moves down with its line.
pub proof fn enter_on_a_blank_line_moves_the_cursor_down(
    text: Text,
    style: NewlineStyle,
    ranges: Seq<Range>,
    cs: Seq<Continuation>,
    i: int,
)
    requires
        text.wf(),
        ordered(ranges),
        forall|k: int| 0 <= k < ranges.len() ==> (#[trigger] ranges[k]).fits(text),
        cs.len() == ranges.len(),
        text@.len() + newline_room(text, style, cs) <= usize::MAX,
        0 <= i < ranges.len(),
        ranges[i].anchor == ranges[i].head,
        forall|k: int|
            line_start(text@, line_of(text@, ranges[i].head as int)) <= k < ranges[i].head
                ==> whitespace(#[trigger] text@[k]),
    ensures
        ({
            let es = newline_edits(text, style, ranges, cs, ranges.len());
            let new = newline_ranges(text, style, ranges, cs, ranges.len())[i];
            &&& new.head == ranges[i].head + growth(es.take(i)) + style.line_ending.chars().len()
            &&& new.anchor == new.head
        }),
{
    enter_breaks_the_line(text, style, ranges, cs, i);
    lemma_newline_bounds(text, style, ranges, cs, i);
    let es = newline_edits(text, style, ranges, cs, ranges.len());
    assert(es.take(i) =~= newline_edits(text, style, ranges, cs, i as nat));
    cursor_lies_in_range(ranges[i], text);
    lemma_before_cursor(text@, ranges[i].cursor_in(text));
}

/// Whether new lines open below a line or above it.
#[derive(Clone, Copy, Debug, PartialEq, Eq, Structural)]
pub enum Open {
    Below,
    Above,
}

/// Whether a line that is opened goes on with the comment it is opened at.
#[derive(Clone, Copy, Debug, PartialEq, Eq, Structural)]
pub enum CommentContinuation {
    Enabled,
    Disabled,
}

/// How many bytes a character takes in UTF-8.
pub open spec fn char_bytes(c: char) -> int {
    if (c as u32) < 0x80 {
        1
    } else if (c as u32) < 0x800 {
        2
    } else if (c as u32) < 0x10000 {
        3
    } else {
        4
    }
}

/// How many bytes a text takes in UTF-8.
pub open spec fn bytes(s: Seq<char>) -> int
    decreases s.len(),
{
    if s.len() == 0 {
        0
    } else {
        bytes(s.drop_last()) + char_bytes(s.last())
    }
}

pub proof fn lemma_bytes(s: Seq<char>)
    ensures
        s.len() <= bytes(s) <= 4 * s.len(),
    decreases s.len(),
{
    if s.len() > 0 {
        lemma_bytes(s.drop_last());
    }
}

/// How many bytes `chars` take in UTF-8.
pub fn count_bytes(chars: &Vec<char>) -> (n: usize)
    requires
        4 * chars@.len() <= usize::MAX,
    ensures
        n == bytes(chars@),
{
    let mut n: usize = 0;
    let mut i: usize = 0;
    assert(chars@.take(0) =~= Seq::<char>::empty());
    while i < chars.len()
        invariant
            i <= chars@.len(),
            4 * chars@.len() <= usize::MAX,
            n == bytes(chars@.take(i as int)),
            n <= 4 * i,
        decreases chars.len() - i,
    {
        assert(chars@.take(i + 1).drop_last() =~= chars@.take(i as int));
        let code = chars[i] as u32;
        n += if code < 0x80 {
            1usize
        } else if code < 0x800 {
            2usize
        } else if code < 0x10000 {
            3usize
        } else {
            4usize
        };
        i += 1;
    }
    assert(chars@.take(i as int) =~= chars@);
    n
}

/// How the lines that are opened look, and how many are opened at each range.
pub struct OpenStyle {
    pub open: Open,
    pub comment_continuation: CommentContinuation,
    pub continue_comments: bool,
    pub line_ending: LineEnding,
    pub count: usize,
}

impl OpenStyle {
    pub open spec fn continues(&self) -> bool {
        self.comment_continuation == CommentContinuation::Enabled && self.continue_comments
    }
}

/// The line at which a range opens new ones.
pub open spec fn open_line(text: Text, r: Range, open: Open) -> int {
    match open {
        Open::Below => line_of(text@, crate::text::prev_boundary(text.breaks@, r.hi())),
        Open::Above => line_of(text@, r.lo()),
    }
}

/// Where the new lines are put in: behind the line they open below, which is none for the lines
/// above the first one.
pub open spec fn open_at(text: Text, r: Range, open: Open) -> int {
    let line = open_line(text, r, open);
    match open {
        Open::Below => line_end(text@, line),
        Open::Above => if line == 0 {
            0
        } else {
            line_end(text@, line - 1)
        },
    }
}

/// Whether the new lines become the first of the text.
pub open spec fn opens_first(text: Text, r: Range, open: Open) -> bool {
    open == Open::Above && open_line(text, r, open) == 0
}

/// The indentation of the new lines, and the comment leader that they begin with.
pub open spec fn open_prefix(text: Text, style: OpenStyle, r: Range, c: Continuation) -> (
    Seq<char>,
    Seq<char>,
) {
    let line = line_at(text@, open_line(text, r, style.open));
    (
        new_indent(style.continues(), line, c),
        match leader(style.continues(), line, c) {
            Some(token) => token + seq![' '],
            None => Seq::empty(),
        },
    )
}

/// One new line.
pub open spec fn open_piece(text: Text, style: OpenStyle, r: Range, c: Continuation) -> Seq<char> {
    let (indent, lead) = open_prefix(text, style, r, c);
    if opens_first(text, r, style.open) {
        indent + lead + style.line_ending.chars()
    } else {
        style.line_ending.chars() + indent + lead
    }
}

/// What opening lines at a range puts in.
pub open spec fn open_edit(text: Text, style: OpenStyle, r: Range, c: Continuation) -> Edit {
    let at = open_at(text, r, style.open);
    Edit { from: at, to: at, text: repeated(open_piece(text, style, r, c), style.count as nat) }
}

pub open spec fn open_edits(
    text: Text,
    style: OpenStyle,
    ranges: Seq<Range>,
    cs: Seq<Continuation>,
    n: nat,
) -> Seq<Edit> {
    Seq::new(n, |i: int| open_edit(text, style, ranges[i], cs[i]))
}

/// How far a new line's cursor is from where the line begins: behind its indentation and its
/// comment leader.
pub open spec fn open_indent(text: Text, style: OpenStyle, r: Range, c: Continuation) -> int {
    let (indent, lead) = open_prefix(text, style, r, c);
    (indent.len() + lead.len()) as int
}

/// The cursors on the lines that one range opens, `offs` characters having been put in before.
pub open spec fn open_cursors(
    text: Text,
    style: OpenStyle,
    r: Range,
    c: Continuation,
    offs: int,
) -> Seq<Range> {
    let width = if opens_first(text, r, style.open) {
        0
    } else {
        style.line_ending.chars().len() as int
    };
    let pos = offs + open_at(text, r, style.open) + width;
    let indent = open_indent(text, style, r, c);
    Seq::new(
        style.count as nat,
        |k: int|
            {
                let at = pos + k * (style.line_ending.chars().len() + indent) + indent;
                range(at, at)
            },
    )
}

/// The cursors on all the lines that the first `n` ranges open.
pub open spec fn open_ranges(
    text: Text,
    style: OpenStyle,
    ranges: Seq<Range>,
    cs: Seq<Continuation>,
    n: nat,
) -> Seq<Range>
    decreases n,
{
    if n == 0 {
        Seq::empty()
    } else {
        let k = (n - 1) as nat;
        open_ranges(text, style, ranges, cs, k) + open_cursors(
            text,
            style,
            ranges[k as int],
            cs[k as int],
            inserted(open_edits(text, style, ranges, cs, k)),
        )
    }
}

/// Opening lines reaches no position beyond the end of the text plus this.
pub open spec fn open_room(text: Text, style: OpenStyle, cs: Seq<Continuation>) -> int
    decreases cs.len(),
{
    if cs.len() == 0 {
        2
    } else {
        let token = match cs.last().token {
            Some(token) => token@.len(),
            None => 0,
        };
        open_room(text, style, cs.drop_last()) + style.count * (3 + text@.len() + token
            + cs.last().indent@.len())
    }
}

/// The widths of what a range opens.
proof fn lemma_open_widths(text: Text, style: OpenStyle, r: Range, c: Continuation)
    requires
        text.wf(),
        r.within(text@.len() as int),
    ensures
        ({
            let (indent, lead) = open_prefix(text, style, r, c);
            let token = match c.token {
                Some(token) => token@.len(),
                None => 0,
            };
            let per_line = style.line_ending.chars().len() + open_indent(text, style, r, c);
            &&& indent.len() <= text@.len() + c.indent@.len()
            &&& open_piece(text, style, r, c).len() == per_line
            &&& 0 <= open_indent(text, style, r, c)
            &&& per_line <= 3 + text@.len() + token + c.indent@.len()
        }),
        0 <= open_line(text, r, style.open) <= crate::text::newlines(text@),
        0 <= open_at(text, r, style.open) <= text@.len(),
{
    let s = text@;
    let line = open_line(text, r, style.open);
    crate::text::lemma_prev_boundary(text, r.hi());
    crate::text::lemma_line_of_bounds(s, crate::text::prev_boundary(text.breaks@, r.hi()));
    crate::text::lemma_line_of_bounds(s, r.lo());
    crate::text::lemma_line_start_monotonic(s, line, line + 1);
    crate::text::lemma_line_end_bounds(s, line);
    crate::text::lemma_line_end_bounds(s, line - 1);
    crate::chars::lemma_leading_whitespace(line_at(s, line));
    let (indent, lead) = open_prefix(text, style, r, c);
    assert(lead.len() <= 1 + match leader(style.continues(), line_at(s, line), c) {
        Some(token) => token.len(),
        None => 0,
    });
}

proof fn lemma_open_inserted(
    text: Text,
    style: OpenStyle,
    rs: Seq<Range>,
    cs: Seq<Continuation>,
    n: nat,
)
    requires
        text.wf(),
        n <= rs.len() == cs.len(),
        crate::selection::all_within(rs, text@.len() as int),
    ensures
        0 <= inserted(open_edits(text, style, rs, cs, n)),
        inserted(open_edits(text, style, rs, cs, n)) + 2 <= open_room(
            text,
            style,
            cs.take(n as int),
        ),
        open_room(text, style, cs.take(n as int)) <= open_room(text, style, cs),
        open_ranges(text, style, rs, cs, n).len() == n * style.count,
    decreases n,
{
    lemma_open_room_prefix(text, style, cs, n as int);
    if n > 0 {
        let k = (n - 1) as nat;
        lemma_open_inserted(text, style, rs, cs, k);
        let all = open_edits(text, style, rs, cs, n);
        assert(all.drop_last() =~= open_edits(text, style, rs, cs, k));
        assert(cs.take(n as int).drop_last() =~= cs.take(k as int));
        let r = rs[k as int];
        let c = cs[k as int];
        lemma_open_widths(text, style, r, c);
        let piece = open_piece(text, style, r, c);
        crate::transaction::lemma_repeated_len(piece, style.count as nat);
        let token = match c.token {
            Some(token) => token@.len(),
            None => 0,
        };
        let most = 3 + text@.len() + token + c.indent@.len();
        assert(piece.len() * style.count <= style.count * most) by (nonlinear_arith)
            requires
                piece.len() <= most,
                0 <= style.count,
        ;
        assert(n * style.count == k * style.count + style.count) by (nonlinear_arith)
            requires
                n == k + 1,
        ;
    }
}

proof fn lemma_open_room_prefix(text: Text, style: OpenStyle, cs: Seq<Continuation>, n: int)
    requires
        0 <= n <= cs.len(),
    ensures
        open_room(text, style, cs.take(n)) <= open_room(text, style, cs),
        2 <= open_room(text, style, cs),
    decreases cs.len(),
{
    if cs.len() > 0 {
        let token = match cs.last().token {
            Some(token) => token@.len(),
            None => 0,
        };
        let most = 3 + text@.len() + token + cs.last().indent@.len();
        assert(style.count * most >= 0) by (nonlinear_arith)
            requires
                0 <= most,
                0 <= style.count,
        ;
        if n < cs.len() {
            lemma_open_room_prefix(text, style, cs.drop_last(), n);
            assert(cs.drop_last().take(n) =~= cs.take(n));
        } else {
            lemma_open_room_prefix(text, style, cs.drop_last(), cs.len() - 1);
            assert(cs.take(n) =~= cs);
        }
    }
}

/// Ranges in order open lines in order.
proof fn lemma_open_ordered(text: Text, ranges: Seq<Range>, open: Open, i: int, j: int)
    requires
        text.wf(),
        ordered(ranges),
        crate::selection::all_within(ranges, text@.len() as int),
        0 <= i < j < ranges.len(),
    ensures
        open_at(text, ranges[i], open) <= open_at(text, ranges[j], open),
{
    let (a, b) = (ranges[i], ranges[j]);
    assert(a.lo() < b.lo() && a.hi() <= b.lo());
    crate::text::lemma_prev_boundary(text, a.hi());
    crate::text::lemma_prev_boundary(text, b.hi());
    let pa = crate::text::prev_boundary(text.breaks@, a.hi());
    let pb = crate::text::prev_boundary(text.breaks@, b.hi());
    if pa > pb {
        crate::text::lemma_prev_boundary_above(text, pa as usize, b.hi());
    }
    crate::text::lemma_newlines_prefix_le(text@, pa, max(pa, pb));
    crate::text::lemma_newlines_prefix_le(text@, a.lo(), b.lo());
    let (la, lb) = (open_line(text, a, open), open_line(text, b, open));
    crate::text::lemma_line_end_monotonic(text@, la, lb);
    crate::text::lemma_line_end_monotonic(text@, la - 1, lb - 1);
    if la == 0 {
        crate::text::lemma_line_end_bounds(text@, lb - 1);
        crate::text::lemma_line_end_bounds(text@, 0);
    }
}

/// What opening lines at one range puts in: where, one line of it, whether the lines become the
/// first of the text, and the width of their indentation and comment leader.
fn open_parts(text: &Text, style: &OpenStyle, r: &Range, c: &Continuation) -> (parts: (
    usize,
    Vec<char>,
    bool,
    usize,
))
    requires
        text.wf(),
        r.within(text@.len() as int),
        3 + text@.len() + (match c.token {
            Some(token) => token@.len(),
            None => 0,
        }) + c.indent@.len() <= usize::MAX,
    ensures
        parts.0 == open_at(*text, *r, style.open),
        parts.1@ == open_piece(*text, *style, *r, *c),
        parts.2 == opens_first(*text, *r, style.open),
        parts.3 == open_indent(*text, *style, *r, *c),
{
    proof {
        lemma_open_widths(*text, *style, *r, *c);
    }
    let line = match style.open {
        Open::Below => text.char_to_line(text.prev_grapheme_boundary(r.to())),
        Open::Above => text.char_to_line(r.from()),
    };
    let first: bool = match style.open {
        Open::Below => false,
        Open::Above => line == 0,
    };
    let at = if first {
        0
    } else {
        match style.open {
            Open::Below => text.line_end_char_index(line),
            Open::Above => text.line_end_char_index(line - 1),
        }
    };
    let start = text.line_to_char(line);
    let next = text.line_to_char(line + 1);
    proof {
        crate::text::lemma_line_start_monotonic(text@, line as int, line + 1);
    }
    let leading = count_leading_whitespace(&text.chars, start, next);
    let ghost whole = line_at(text@, line as int);
    let continues: bool = style.comment_continuation == CommentContinuation::Enabled
        && style.continue_comments;
    let mut indent: Vec<char> = copy_chars(&c.indent);
    let mut lead: Vec<char> = Vec::new();
    if continues && leading < next - start {
        if let Some(token) = &c.token {
            indent = text.slice(start, start + leading);
            assert(indent@ =~= whole.take(leading as int));
            lead = copy_chars(token);
            lead.push(' ');
            assert(lead@ =~= token@ + seq![' ']);
        }
    }
    assert((indent@, lead@) == open_prefix(*text, *style, *r, *c));
    let width = indent.len() + lead.len();
    let ending = style.line_ending.as_chars();
    let mut piece: Vec<char> = Vec::new();
    if first {
        append(&mut piece, &indent);
        append(&mut piece, &lead);
        append(&mut piece, &ending);
    } else {
        append(&mut piece, &ending);
        append(&mut piece, &indent);
        append(&mut piece, &lead);
    }
    assert(piece@ =~= open_piece(*text, *style, *r, *c));
    (at, piece, first, width)
}

/// Puts the cursors on the lines that one range opens behind `ranges`.
fn push_open_cursors(ranges: &mut Vec<Range>, pos: usize, ending: usize, indent: usize, count: usize)
    requires
        pos + count * (ending + indent) <= usize::MAX,
    ensures
        final(ranges)@ == old(ranges)@ + Seq::new(
            count as nat,
            |k: int|
                {
                    let at = pos + k * (ending + indent) + indent;
                    range(at, at)
                },
        ),
{
    let ghost all = Seq::new(
        count as nat,
        |k: int|
            {
                let at = pos + k * (ending + indent) + indent;
                range(at, at)
            },
    );
    let mut k: usize = 0;
    assert(all.take(0) =~= Seq::<Range>::empty());
    while k < count
        invariant
            k <= count,
            pos + count * (ending + indent) <= usize::MAX,
            all == Seq::new(
                count as nat,
                |k: int|
                    {
                        let at = pos + k * (ending + indent) + indent;
                        range(at, at)
                    },
            ),
            ranges@ == old(ranges)@ + all.take(k as int),
        decreases count - k,
    {
        proof {
            let w = ending + indent;
            assert((k + 1) * w <= count * w && (k + 1) * w == k * w + w && 0 <= k * w)
                by (nonlinear_arith)
                requires
                    0 <= k < count,
                    0 <= w,
            ;
        }
        let at = pos + k * (ending + indent) + indent;
        ranges.push(Range::point(at));
        assert(all.take(k + 1) =~= all.take(k as int).push(all[k as int]));
        k += 1;
    }
    assert(all.take(k as int) =~= all);
}

/// Opens `count` new lines at every range, and puts a cursor on each of them.
pub fn open(
    text: &Text,
    selection: &Selection,
    style: &OpenStyle,
    continuations: &Vec<Continuation>,
) -> (t: Transaction)
    requires
        text.wf(),
        selection.wf(),
        selection.within(text@.len() as int),
        continuations@.len() == selection.ranges@.len(),
        style.count >= 1,
        text@.len() + open_room(*text, *style, continuations@) <= usize::MAX,
    ensures
        t.edits() == open_edits(
            *text,
            *style,
            selection.ranges@,
            continuations@,
            selection.ranges@.len(),
        ),
        valid_edits(t.edits(), text@.len() as int),
        t.selection matches Some(s) && s.wf() && s.holds(
            open_ranges(
                *text,
                *style,
                selection.ranges@,
                continuations@,
                selection.ranges@.len(),
            ),
            selection.primary_index as int,
        ),
{
    let ghost rs = selection.ranges@;
    let ghost cs = continuations@;
    let ghost len = text@.len() as int;
    let mut changes: Vec<Change> = Vec::new();
    let mut ranges: Vec<Range> = Vec::new();
    let mut offs: usize = 0;
    let mut i: usize = 0;
    assert(edits(changes@) =~= open_edits(*text, *style, rs, cs, 0));
    while i < selection.ranges.len()
        invariant
            i <= rs.len(),
            rs == selection.ranges@,
            cs == continuations@,
            cs.len() == rs.len(),
            len == text@.len(),
            text.wf(),
            selection.wf(),
            selection.within(len),
            style.count >= 1,
            edits(changes@) == open_edits(*text, *style, rs, cs, i as nat),
            valid_edits(edits(changes@), len),
            ranges@ == open_ranges(*text, *style, rs, cs, i as nat),
            offs == inserted(open_edits(*text, *style, rs, cs, i as nat)),
            len + open_room(*text, *style, cs) <= usize::MAX,
        decreases selection.ranges.len() - i,
    {
        let r = selection.ranges[i];
        let ghost c = cs[i as int];
        proof {
            assert(rs[i as int].within(len));
            lemma_open_inserted(*text, *style, rs, cs, i as nat);
            lemma_open_inserted(*text, *style, rs, cs, (i + 1) as nat);
            lemma_open_widths(*text, *style, r, c);
            lemma_open_reach(*text, *style, rs, cs, i as int);
            if i > 0 {
                lemma_open_ordered(*text, rs, style.open, i - 1, i as int);
            }
        }
        let (at, piece, first, indent) = open_parts(text, style, &r, &continuations[i]);
        let out = repeat(&piece, style.count);
        let ending = style.line_ending.len_chars();
        let pos = if first {
            offs + at
        } else {
            offs + at + ending
        };
        push_open_cursors(&mut ranges, pos, ending, indent, style.count);
        proof {
            let all = open_edits(*text, *style, rs, cs, (i + 1) as nat);
            assert(all.drop_last() =~= open_edits(*text, *style, rs, cs, i as nat));
            assert(ranges@ =~= open_ranges(*text, *style, rs, cs, (i + 1) as nat));
        }
        offs = offs + out.len();
        let change = Change { from: at, to: at, text: out };
        proof {
            assert(change@ =~= open_edit(*text, *style, r, c));
            lemma_edits_push(changes@, change);
            lemma_valid_push(edits(changes@), change@, len);
            assert(edits(changes@).push(change@) =~= open_edits(*text, *style, rs, cs, (i + 1) as nat));
        }
        changes.push(change);
        i += 1;
    }
    proof {
        lemma_open_inserted(*text, *style, rs, cs, rs.len());
        assert(rs.len() * style.count >= rs.len()) by (nonlinear_arith)
            requires
                style.count >= 1,
        ;
    }
    let s = Selection::new(ranges, selection.primary_index);
    Transaction { changes, selection: Some(s) }
}

/// The cursors that the next range gets fit a machine word.
proof fn lemma_open_reach(
    text: Text,
    style: OpenStyle,
    rs: Seq<Range>,
    cs: Seq<Continuation>,
    i: int,
)
    requires
        text.wf(),
        0 <= i < rs.len() == cs.len(),
        crate::selection::all_within(rs, text@.len() as int),
        style.count >= 1,
        text@.len() + open_room(text, style, cs) <= usize::MAX,
    ensures
        ({
            let per_line = style.line_ending.chars().len() + open_indent(text, style, rs[i], cs[i]);
            let token = match cs[i].token {
                Some(token) => token@.len(),
                None => 0,
            };
            &&& text@.len() + inserted(open_edits(text, style, rs, cs, i as nat)) + 2 + style.count
                * per_line <= usize::MAX
            &&& 3 + text@.len() + token + cs[i].indent@.len() <= usize::MAX
            &&& inserted(open_edits(text, style, rs, cs, (i + 1) as nat)) <= usize::MAX
        }),
{
    let c = cs[i];
    let token = match c.token {
        Some(token) => token@.len(),
        None => 0,
    };
    let most = 3 + text@.len() + token + c.indent@.len();
    let per_line = style.line_ending.chars().len() + open_indent(text, style, rs[i], c);
    lemma_open_widths(text, style, rs[i], c);
    lemma_open_inserted(text, style, rs, cs, i as nat);
    lemma_open_inserted(text, style, rs, cs, (i + 1) as nat);
    assert(cs.take(i + 1).drop_last() =~= cs.take(i));
    assert(style.count * per_line <= style.count * most && most <= style.count * most)
        by (nonlinear_arith)
        requires
            per_line <= most,
            1 <= style.count,
            0 <= most,
    ;
}

proof fn lemma_repeated_prefix(part: Seq<char>, k: nat, n: nat)
    requires
        k <= n,
    ensures
        repeated(part, k).len() <= repeated(part, n).len(),
        repeated(part, n).take(repeated(part, k).len() as int) == repeated(part, k),
    decreases n,
{
    let whole = repeated(part, n);
    if k < n {
        lemma_repeated_prefix(part, k, (n - 1) as nat);
        let before = repeated(part, (n - 1) as nat);
        assert(whole.take(repeated(part, k).len() as int) =~= before.take(
            repeated(part, k).len() as int,
        ));
    } else {
        assert(whole.take(whole.len() as int) =~= whole);
    }
}

/// The cursor on each line that a range opens stands right behind the indentation and the comment
/// leader of that line: of what is put in, the new lines before it and the beginning of its own
/// stand before the cursor.
pub proof fn opened_cursors_follow_the_indentation(
    text: Text,
    style: OpenStyle,
    r: Range,
    c: Continuation,
    offs: int,
    k: int,
)
    requires
        text.wf(),
        r.within(text@.len() as int),
        0 <= k < style.count,
        0 <= offs,
        offs + open_at(text, r, style.open) + open_edit(text, style, r, c).text.len() <= usize::MAX,
    ensures
        ({
            let cursor = open_cursors(text, style, r, c, offs)[k];
            let put_in = open_edit(text, style, r, c).text;
            let before = put_in.take(cursor.head - offs - open_at(text, r, style.open));
            let (indent, lead) = open_prefix(text, style, r, c);
            let lines = repeated(open_piece(text, style, r, c), k as nat);
            &&& cursor.anchor == cursor.head
            &&& before == if opens_first(text, r, style.open) {
                lines + indent + lead
            } else {
                lines + style.line_ending.chars() + indent + lead
            }
        }),
{
    lemma_open_widths(text, style, r, c);
    let piece = open_piece(text, style, r, c);
    let (indent, lead) = open_prefix(text, style, r, c);
    let ending = style.line_ending.chars();
    let put_in = repeated(piece, style.count as nat);
    let lines = repeated(piece, k as nat);
    let next = repeated(piece, (k + 1) as nat);
    crate::transaction::lemma_repeated_len(piece, k as nat);
    lemma_repeated_prefix(piece, (k + 1) as nat, style.count as nat);
    assert(next == lines + piece);
    let width = ending.len() + open_indent(text, style, r, c);
    assert(lines.len() == k * width) by (nonlinear_arith)
        requires
            lines.len() == piece.len() * k,
            piece.len() == width,
    ;
    let at = lines.len() + (piece.len() - (if opens_first(text, r, style.open) {
        ending.len() as int
    } else {
        0
    }));
    assert(open_cursors(text, style, r, c, offs)[k] == range(
        offs + open_at(text, r, style.open) + at,
        offs + open_at(text, r, style.open) + at,
    ));
    assert(put_in.take(at) =~= next.take(at)) by {
        assert(put_in.take(next.len() as int).take(at) =~= put_in.take(at));
    }
    if opens_first(text, r, style.open) {
        assert(next.take(at) =~= lines + indent + lead);
    } else {
        assert(next.take(at) =~= lines + ending + indent + lead);
    }
}

/// Opens lines below the ranges, going on with comments.
pub fn open_below(
    text: &Text,
    selection: &Selection,
    continue_comments: bool,
    line_ending: LineEnding,
    count: usize,
    continuations: &Vec<Continuation>,
) -> (t: Transaction)
    requires
        text.wf(),
        selection.wf(),
        selection.within(text@.len() as int),
        continuations@.len() == selection.ranges@.len(),
        count >= 1,
        text@.len() + open_room(
            *text,
            open_style(Open::Below, continue_comments, line_ending, count),
            continuations@,
        ) <= usize::MAX,
    ensures
        t.edits() == open_edits(
            *text,
            open_style(Open::Below, continue_comments, line_ending, count),
            selection.ranges@,
            continuations@,
            selection.ranges@.len(),
        ),
        t.selection matches Some(s) && s.wf() && s.holds(
            open_ranges(
                *text,
                open_style(Open::Below, continue_comments, line_ending, count),
                selection.ranges@,
                continuations@,
                selection.ranges@.len(),
            ),
            selection.primary_index as int,
        ),
{
    let style = OpenStyle {
        open: Open::Below,
        comment_continuation: CommentContinuation::Enabled,
        continue_comments,
        line_ending,
        count,
    };
    open(text, selection, &style, continuations)
}

/// How the commands that open lines open them.
pub open spec fn open_style(
    open: Open,
    continue_comments: bool,
    line_ending: LineEnding,
    count: usize,
) -> OpenStyle {
    OpenStyle {
        open,
        comment_continuation: CommentContinuation::Enabled,
        continue_comments,
        line_ending,
        count,
    }
}

/// Opens lines above the ranges, going on with comments.
pub fn open_above(
    text: &Text,
    selection: &Selection,
    continue_comments: bool,
    line_ending: LineEnding,
    count: usize,
    continuations: &Vec<Continuation>,
) -> (t: Transaction)
    requires
        text.wf(),
        selection.wf(),
        selection.within(text@.len() as int),
        continuations@.len() == selection.ranges@.len(),
        count >= 1,
        text@.len() + open_room(
            *text,
            open_style(Open::Above, continue_comments, line_ending, count),
            continuations@,
        ) <= usize::MAX,
    ensures
        t.edits() == open_edits(
            *text,
            open_style(Open::Above, continue_comments, line_ending, count),
            selection.ranges@,
            continuations@,
            selection.ranges@.len(),
        ),
        t.selection matches Some(s) && s.wf() && s.holds(
            open_ranges(
                *text,
                open_style(Open::Above, continue_comments, line_ending, count),
                selection.ranges@,
                continuations@,
                selection.ranges@.len(),
            ),
            selection.primary_index as int,
        ),
{
    let style = OpenStyle {
        open: Open::Above,
        comment_continuation: CommentContinuation::Enabled,
        continue_comments,
        line_ending,
        count,
    };
    open(text, selection, &style, continuations)
}

proof fn lemma_repeated_line_feeds(piece: Seq<char>, n: nat)
    ensures
        newlines(repeated(piece, n)) == newlines(piece) * n,
    decreases n,
{
    if n > 0 {
        let k = (n - 1) as nat;
        lemma_repeated_line_feeds(piece, k);
        crate::text::lemma_newlines_add(repeated(piece, k), piece);
        assert(newlines(piece) * n == newlines(piece) * k + newlines(piece)) by (nonlinear_arith)
            requires
                n == k + 1,
        ;
    } else {
        assert(newlines(piece) * n == 0) by (nonlinear_arith)
            requires
                n == 0,
        ;
    }
}

/// Opened lines begin with the indentation that is asked for; where a comment goes on, with the
/// whitespace that the comment's line begins with, the comment's token and a space.
pub proof fn opened_lines_carry_the_indentation(
    text: Text,
    style: OpenStyle,
    r: Range,
    c: Continuation,
)
    requires
        text.wf(),
        r.within(text@.len() as int),
    ensures
        ({
            let s = text@;
            let line = open_line(text, r, style.open);
            let (start, next) = (line_start(s, line), line_start(s, line + 1));
            let (indent, lead) = open_prefix(text, style, r, c);
            let comments = style.comment_continuation == CommentContinuation::Enabled
                && style.continue_comments && c.token is Some && exists|k: int|
                start <= k < next && !whitespace(#[trigger] s[k]);
            &&& !comments ==> indent == c.indent@ && lead == Seq::<char>::empty()
            &&& comments ==> {
                let n = start + indent.len();
                &&& lead == c.token->0@ + seq![' ']
                &&& n < next && !whitespace(s[n])
                &&& indent == s.subrange(start, n)
                &&& forall|k: int| start <= k < n ==> whitespace(#[trigger] s[k]) && s[k] != '\n'
            }
        }),
{
    let s = text@;
    lemma_open_widths(text, style, r, c);
    let line = open_line(text, r, style.open);
    let start = line_start(s, line);
    let next = line_start(s, line + 1);
    crate::text::lemma_line_end_bounds(s, line);
    crate::text::lines_lie_between_line_feeds(s, line);
    let whole = line_at(s, line);
    crate::chars::whitespace_at_the_ends_is_counted(whole);
    let n = leading_whitespace(whole);
    assert(forall|k: int| 0 <= k < whole.len() ==> whole[k] == s[start + k]);
    if exists|k: int| start <= k < next && !whitespace(#[trigger] s[k]) {
        let k = choose|k: int| start <= k < next && !whitespace(#[trigger] s[k]);
        assert(whole[k - start] == s[k]);
        assert(n < whole.len());
        assert(whole[n] == s[start + n]);
        assert(whole.take(n) =~= s.subrange(start, start + n));
        assert forall|k: int| start <= k < start + n implies whitespace(#[trigger] s[k]) && s[k]
            != '\n' by {
            assert(whole[k - start] == s[k]);
            crate::text::lemma_line_has_no_inner_feed(s, line, k);
        }
    } else {
        assert forall|k: int| 0 <= k < whole.len() implies whitespace(#[trigger] whole[k]) by {
            assert(whole[k] == s[start + k]);
        }
        if n < whole.len() {
            assert(whitespace(whole[n]));
        }
    }
}

/// Each line that is opened holds one line feed.
proof fn lemma_opened_line_feeds(text: Text, style: OpenStyle, r: Range, c: Continuation)
    requires
        text.wf(),
        r.fits(text),
        newlines(c.indent@) == 0,
        c.token matches Some(token) ==> newlines(token@) == 0,
    ensures
        newlines(open_piece(text, style, r, c)) == 1,
        newlines(open_edit(text, style, r, c).text) == style.count,
{
    let s = text@;
    cursor_lies_in_range(r, text);
    lemma_open_widths(text, style, r, c);
    let line = open_line(text, r, style.open);
    crate::text::lines_lie_between_line_feeds(s, line);
    let (indent, lead) = open_prefix(text, style, r, c);
    let ending = style.line_ending.chars();
    opened_lines_carry_the_indentation(text, style, r, c);
    assert(newlines(indent) == 0) by {
        if indent != c.indent@ {
            let start = line_start(s, line);
            assert forall|k: int| 0 <= k < indent.len() implies indent[k] != '\n' by {
                assert(indent[k] == s[start + k]);
                assert(whitespace(s[start + k]));
            }
            crate::text::lemma_no_newlines(indent);
        }
    }
    assert(newlines(lead) == 0) by {
        if lead.len() > 0 {
            crate::text::lemma_newlines_add(c.token->0@, seq![' ']);
            crate::text::line_feeds_are_counted(lead, lead, ' ');
        } else {
            crate::text::lemma_no_newlines(lead);
        }
    }
    line_endings_hold_one_feed(style.line_ending);
    let piece = open_piece(text, style, r, c);
    crate::text::lemma_newlines_add(indent, lead);
    crate::text::lemma_newlines_add(indent + lead, ending);
    crate::text::lemma_newlines_add(ending, indent);
    crate::text::lemma_newlines_add(ending + indent, lead);
    assert(newlines(piece) == 1);
    lemma_repeated_line_feeds(piece, style.count as nat);
}

/// Opening lines puts in as many line feeds as the count says and takes nothing away. Below, the
/// lines are put in where the line of the range's last character ends; above, before the line
/// that the range begins in.
pub proof fn lines_are_opened_beside_the_range(
    text: Text,
    style: OpenStyle,
    r: Range,
    c: Continuation,
)
    requires
        text.wf(),
        r.fits(text),
        newlines(c.indent@) == 0,
        c.token matches Some(token) ==> newlines(token@) == 0,
    ensures
        ({
            let s = text@;
            let e = open_edit(text, style, r, c);
            &&& 0 <= e.from == e.to <= s.len()
            &&& newlines(applied(s, seq![e])) == newlines(s) + style.count
            &&& style.open == Open::Below ==> {
                let last = crate::text::prev_boundary(text.breaks@, r.hi());
                &&& forall|k: int| last <= k < e.from ==> s[k] != '\n'
                &&& e.from == s.len() || s[e.from] == '\n' || (s[e.from] == '\r' && s[e.from + 1]
                    == '\n')
            }
            &&& style.open == Open::Above ==> if e.from == 0 && newlines(s.take(r.lo())) == 0 {
                e.text.len() > 0 ==> e.text.last() == '\n'
            } else {
                &&& e.from < r.lo()
                &&& newlines(s.subrange(e.from, r.lo())) == 1
                &&& s[e.from] == '\n' || (s[e.from] == '\r' && s[e.from + 1] == '\n')
            }
        }),
{
    let s = text@;
    let e = open_edit(text, style, r, c);
    cursor_lies_in_range(r, text);
    lemma_open_widths(text, style, r, c);
    let line = open_line(text, r, style.open);
    crate::text::lines_lie_between_line_feeds(s, line);
    let piece = open_piece(text, style, r, c);
    lemma_opened_line_feeds(text, style, r, c);
    let es = seq![e];
    assert(valid_edits(es, s.len() as int));
    crate::transaction::line_feeds_after_changes(s, es);
    assert(es.drop_last() =~= Seq::<Edit>::empty());
    reveal_with_fuel(crate::transaction::added_feeds, 2);
    reveal_with_fuel(crate::transaction::removed_feeds, 2);
    assert(s.subrange(e.from, e.to) =~= Seq::<char>::empty());
    assert(newlines(e.text) == style.count);
    match style.open {
        Open::Below => {
            let last = crate::text::prev_boundary(text.breaks@, r.hi());
            crate::text::lemma_prev_boundary(text, r.hi());
            crate::text::positions_lie_in_their_line(s, last);
        },
        Open::Above => {
            crate::text::positions_lie_in_their_line(s, r.lo());
            if line == 0 {
                if style.count > 0 {
                    assert(repeated(piece, style.count as nat).last() == piece.last());
                }
            } else {
                crate::text::lines_lie_between_line_feeds(s, line - 1);
                let at = line_end(s, line - 1);
                let start = line_start(s, line);
                let one = s.subrange(at, start - 1);
                let rest = s.subrange(start, r.lo());
                assert(s.subrange(at, r.lo()) =~= one + seq!['\n'] + rest);
                crate::text::lemma_newlines_add(one, seq!['\n']);
                crate::text::lemma_newlines_add(one + seq!['\n'], rest);
                crate::text::line_feeds_are_counted(one, rest, '\n');
                crate::text::lemma_no_newlines(one);
                crate::text::lemma_no_newlines(rest);
            }
        },
    }
}

/// An empty range that the enter key moves stays empty, and one whose cursor is beyond its anchor
/// keeps its anchor: only its head goes with the text.
pub proof fn enter_moves_the_head_with_the_text(
    text: Text,
    r: Range,
    e: Edit,
    ahead: int,
    shift: int,
)
    requires
        0 <= r.anchor + shift,
        0 <= r.head + shift + ahead - (e.to - e.from) <= usize::MAX,
        0 <= r.anchor + shift + ahead - (e.to - e.from) <= usize::MAX,
        r.anchor + shift <= usize::MAX,
    ensures
        ({
            let new = newline_range(text, r, e, ahead, shift);
            &&& new.head == r.head + shift + ahead - (e.to - e.from)
            &&& r.cursor_in(text) > r.anchor ==> new.anchor == r.anchor + shift
            &&& r.cursor_in(text) <= r.anchor ==> new.head - new.anchor == r.head - r.anchor
        }),
{
}

/// Texts take as many bytes as their characters do together; a character takes one to four, the
/// more the higher its code.
pub proof fn bytes_add_up(a: Seq<char>, b: Seq<char>, c: char)
    ensures
        bytes(a + b) == bytes(a) + bytes(b),
        bytes(seq![c]) == (if (c as u32) <= 0x7f {
            1int
        } else if (c as u32) <= 0x7ff {
            2int
        } else if (c as u32) <= 0xffff {
            3int
        } else {
            4int
        }),
    decreases b.len(),
{
    assert(seq![c].drop_last() =~= Seq::<char>::empty());
    reveal_with_fuel(bytes, 2);
    if b.len() == 0 {
        assert(a + b =~= a);
    } else {
        bytes_add_up(a, b.drop_last(), c);
        assert((a + b).drop_last() =~= a + b.drop_last());
        assert((a + b).last() == b.last());
    }
}

} // verus!
