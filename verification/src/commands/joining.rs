//! Joining lines.

use crate::commands::search::same_chars;
use crate::range::{max, min, range, Range};
use crate::selection::Selection;
use crate::text::{
    lemma_line_end_bounds, lemma_line_end_monotonic, lemma_line_of_bounds, lemma_line_start_counts,
    line_at, line_count, line_end, line_ending_len, line_start, newlines, Text,
};
use crate::transaction::{
    applied, edits, growth, inserted_text_stands, lemma_edits_push, lemma_valid_push, valid_edits,
    Change, Edit, Transaction,
};
use vstd::prelude::*;

verus! {

/// A space or a tab.
pub open spec fn is_blank(c: char) -> bool {
    c == ' ' || c == '\t'
}

/// The first position from `pos` on that holds no blank.
pub open spec fn blanks_end(s: Seq<char>, pos: int) -> int
    decreases s.len() - pos,
{
    if 0 <= pos < s.len() && is_blank(s[pos]) {
        blanks_end(s, pos + 1)
    } else {
        pos
    }
}

/// Past the blanks from `pos` on; blanks that reach the end of the text are not skipped.
pub open spec fn past_blanks(s: Seq<char>, pos: int) -> int {
    if blanks_end(s, pos) >= s.len() {
        pos
    } else {
        blanks_end(s, pos)
    }
}

fn skip_blanks(text: &Text, pos: usize) -> (at: usize)
    requires
        pos <= text@.len(),
    ensures
        at == past_blanks(text@, pos as int),
        pos <= at <= text@.len(),
{
    let mut i: usize = pos;
    while i < text.len_chars() && (text.chars[i] == ' ' || text.chars[i] == '\t')
        invariant
            pos <= i <= text@.len(),
            blanks_end(text@, pos as int) == blanks_end(text@, i as int),
        decreases text@.len() - i,
    {
        i += 1;
    }
    if i < text.len_chars() {
        i
    } else {
        pos
    }
}

proof fn lemma_blanks_end(s: Seq<char>, pos: int, stop: int)
    requires
        0 <= pos <= stop <= s.len(),
        stop < s.len() ==> !is_blank(s[stop]),
    ensures
        pos <= blanks_end(s, pos) <= stop,
    decreases stop - pos,
{
    if pos < stop {
        if is_blank(s[pos]) {
            lemma_blanks_end(s, pos + 1, stop);
        }
    }
}

/// Blanks of a line end in it.
proof fn lemma_past_blanks(s: Seq<char>, line: int, pos: int)
    requires
        0 <= line,
        line_start(s, line) <= pos <= line_end(s, line),
    ensures
        pos <= past_blanks(s, pos) <= line_end(s, line),
{
    let stop = line_end(s, line);
    lemma_line_end_bounds(s, line);
    if stop < s.len() {
        let ended = line_at(s, line);
        let n = ended.len() as int;
        if line_ending_len(ended) == 0 {
            lemma_ends_with_feed(s, line);
        }
        assert(ended[n - line_ending_len(ended)] == s[stop]);
    }
    lemma_blanks_end(s, pos, stop);
}

/// A line that is not the last one ends with a line feed.
proof fn lemma_ends_with_feed(s: Seq<char>, line: int)
    requires
        0 <= line,
        line_end(s, line) < s.len(),
    ensures
        line_end(s, line) < line_start(s, line + 1),
        line < newlines(s),
{
    lemma_line_end_bounds(s, line);
    if line < newlines(s) {
        lemma_line_start_counts(s, line);
        lemma_line_start_counts(s, line + 1);
        let ended = line_at(s, line);
        if line_start(s, line) < line_start(s, line + 1) {
            assert(ended.last() == s[line_start(s, line + 1) - 1]);
        }
    } else {
        lemma_no_more_lines(s, line + 1);
    }
}

proof fn lemma_no_more_lines(s: Seq<char>, line: int)
    requires
        line > newlines(s),
    ensures
        line_start(s, line) == s.len(),
{
}

proof fn lemma_line_ends_before_next(s: Seq<char>, line: int)
    requires
        0 <= line < newlines(s),
    ensures
        line_end(s, line) < line_start(s, line + 1),
{
    lemma_line_end_bounds(s, line);
    lemma_line_start_counts(s, line);
    lemma_line_start_counts(s, line + 1);
    let ended = line_at(s, line);
    assert(line_start(s, line) < line_start(s, line + 1));
    assert(ended.last() == s[line_start(s, line + 1) - 1]);
}

/// Where the text of a line begins.
pub open spec fn line_text_start(s: Seq<char>, line: int) -> int {
    past_blanks(s, line_start(s, line))
}

/// The comment token of each line, where it begins with one.
pub open spec fn token_at(tokens: Seq<Option<Vec<char>>>, line: int) -> Option<Seq<char>> {
    match tokens[line] {
        Some(t) => Some(t@),
        None => None,
    }
}

/// Every comment token stands where the text of its line begins.
pub open spec fn tokens_stand(s: Seq<char>, tokens: Seq<Option<Vec<char>>>) -> bool {
    forall|l: int|
        0 <= l < tokens.len() && (#[trigger] tokens[l]) is Some ==> line_text_start(s, l)
            + tokens[l]->0@.len() <= line_end(s, l)
}

/// The comment token that a line joined to line `line` continues: the last one met from line
/// `start` on.
pub open spec fn continued_token(tokens: Seq<Option<Vec<char>>>, start: int, line: int) -> Option<
    Seq<char>,
>
    decreases line - start,
{
    if line <= start || token_at(tokens, line) is Some {
        token_at(tokens, line)
    } else {
        continued_token(tokens, start, line - 1)
    }
}

/// Where the text that is joined to line `line` begins: past the blanks of the next line, and
/// past its comment token where that continues the comment.
pub open spec fn join_end(s: Seq<char>, tokens: Seq<Option<Vec<char>>>, start: int, line: int) -> int {
    let at = line_text_start(s, line + 1);
    match token_at(tokens, line + 1) {
        Some(t) if continued_token(tokens, start, line) == Some(t) => past_blanks(s, at + t.len()),
        _ => at,
    }
}

/// Joins the next line to line `line`: a space takes the place of the line ending, unless nothing
/// is left of the next line.
pub open spec fn join_edit(
    s: Seq<char>,
    tokens: Seq<Option<Vec<char>>>,
    start: int,
    line: int,
) -> Edit {
    let end = join_end(s, tokens, start, line);
    Edit {
        from: line_end(s, line),
        to: end,
        text: if end == line_end(s, line + 1) {
            Seq::empty()
        } else {
            seq![' ']
        },
    }
}

/// Joins the lines from `from` up to `to`.
pub open spec fn join_edits(
    s: Seq<char>,
    tokens: Seq<Option<Vec<char>>>,
    start: int,
    from: int,
    to: int,
) -> Seq<Edit>
    decreases to - from,
{
    if to <= from {
        Seq::empty()
    } else {
        join_edits(s, tokens, start, from, to - 1).push(join_edit(s, tokens, start, to - 1))
    }
}

/// The lines that a range joins: all that it touches, or its only line and the one after it.
pub open spec fn joined_lines(text: Text, r: Range) -> (int, int) {
    let (first, last) = r.lines(text);
    if first == last {
        (first, min(last + 1, line_count(text@) - 1))
    } else {
        (first, last)
    }
}

/// What joining the first `n` ranges does, and the first line behind those that were joined. A
/// line that several ranges touch is joined once.
pub open spec fn joined(
    text: Text,
    tokens: Seq<Option<Vec<char>>>,
    ranges: Seq<Range>,
    n: nat,
) -> (Seq<Edit>, int)
    decreases n,
{
    if n == 0 {
        (Seq::empty(), 0)
    } else {
        let (before, done) = joined(text, tokens, ranges, (n - 1) as nat);
        let (first, last) = joined_lines(text, ranges[n - 1]);
        let from = max(first, done);
        if last > from {
            (before + join_edits(text@, tokens, first, from, last), last)
        } else {
            (before, done)
        }
    }
}

proof fn lemma_join_edit(s: Seq<char>, tokens: Seq<Option<Vec<char>>>, start: int, line: int)
    requires
        0 <= line < newlines(s),
        tokens.len() == line_count(s),
        tokens_stand(s, tokens),
    ensures
        ({
            let e = join_edit(s, tokens, start, line);
            &&& 0 <= e.from < line_start(s, line + 1) <= e.to <= line_end(s, line + 1) <= s.len()
            &&& e.text.len() <= 1
        }),
{
    lemma_line_end_bounds(s, line);
    lemma_line_end_bounds(s, line + 1);
    lemma_line_ends_before_next(s, line);
    lemma_past_blanks(s, line + 1, line_start(s, line + 1));
    let at = line_text_start(s, line + 1);
    match token_at(tokens, line + 1) {
        Some(t) => {
            assert(tokens[line + 1] is Some);
            lemma_past_blanks(s, line + 1, at + t.len());
        },
        None => {},
    }
}

fn same_token(a: &Option<&Vec<char>>, b: &Vec<char>) -> (same: bool)
    ensures
        same == (a matches Some(t) && t@ == b@),
{
    match a {
        Some(t) => same_chars(t, b),
        None => false,
    }
}

/// Joins the lines of one range, from `from` on.
fn join_range(
    text: &Text,
    tokens: &Vec<Option<Vec<char>>>,
    changes: &mut Vec<Change>,
    start: usize,
    from: usize,
    last: usize,
)
    requires
        text@.len() < usize::MAX,
        tokens@.len() == line_count(text@),
        tokens_stand(text@, tokens@),
        start <= from < last < line_count(text@),
        valid_edits(edits(old(changes)@), text@.len() as int),
        edits(old(changes)@).len() > 0 ==> edits(old(changes)@).last().to <= line_end(
            text@,
            from as int,
        ),
    ensures
        edits(final(changes)@) == edits(old(changes)@) + join_edits(
            text@,
            tokens@,
            start as int,
            from as int,
            last as int,
        ),
        valid_edits(edits(final(changes)@), text@.len() as int),
        edits(final(changes)@).last().to <= line_end(text@, last as int),
{
    let ghost before = edits(changes@);
    let mut current: Option<&Vec<char>> = None;
    let mut line: usize = start;
    while line < from
        invariant
            start <= line <= from < tokens@.len(),
            line == start ==> current is None,
            line > start ==> (match current {
                Some(t) => Some(t@),
                None => None,
            }) == continued_token(tokens@, start as int, line - 1),
        decreases from - line,
    {
        match &tokens[line] {
            Some(t) => {
                current = Some(t);
            },
            None => {},
        }
        line += 1;
    }
    match &tokens[line] {
        Some(t) => {
            current = Some(t);
        },
        None => {},
    }
    assert(before + join_edits(text@, tokens@, start as int, from as int, from as int) =~= before);
    while line < last
        invariant
            start <= from <= line <= last < line_count(text@),
            text@.len() < usize::MAX,
            tokens@.len() == line_count(text@),
            tokens_stand(text@, tokens@),
            (match current {
                Some(t) => Some(t@),
                None => None,
            }) == continued_token(tokens@, start as int, line as int),
            edits(changes@) == before + join_edits(
                text@,
                tokens@,
                start as int,
                from as int,
                line as int,
            ),
            valid_edits(edits(changes@), text@.len() as int),
            edits(changes@).len() > 0 ==> edits(changes@).last().to <= line_end(text@, line as int),
            line > from ==> edits(changes@).len() > 0,
        decreases last - line,
    {
        proof {
            lemma_join_edit(text@, tokens@, start as int, line as int);
            lemma_line_end_bounds(text@, line + 1);
            lemma_past_blanks(text@, line + 1, line_start(text@, line + 1));
            crate::text::lemma_newlines_prefix_le(text@, 0, text@.len() as int);
            assert(text@.take(0) =~= Seq::<char>::empty());
            assert(text@.take(text@.len() as int) =~= text@);
        }
        let at = text.line_end_char_index(line);
        let next = text.line_to_char(line + 1);
        let mut end = skip_blanks(text, next);
        match &tokens[line + 1] {
            Some(t) => {
                assert(tokens@[line + 1] is Some);
                if same_token(&current, t) {
                    end = skip_blanks(text, end + t.len());
                }
                current = Some(t);
            },
            None => {},
        }
        let mut separator: Vec<char> = Vec::new();
        if end != text.line_end_char_index(line + 1) {
            separator.push(' ');
        }
        let change = Change { from: at, to: end, text: separator };
        let ghost e = join_edit(text@, tokens@, start as int, line as int);
        proof {
            assert(change@.text =~= e.text);
            assert(change@ == e);
            lemma_edits_push(changes@, change);
            lemma_valid_push(edits(changes@), change@, text@.len() as int);
            assert(edits(changes@).push(e) =~= before + join_edits(
                text@,
                tokens@,
                start as int,
                from as int,
                line + 1,
            ));
        }
        changes.push(change);
        line += 1;
    }
}

/// The selected spaces among the first `n` edits: the place of each in the text after the edits.
pub open spec fn space_points(es: Seq<Edit>, n: nat) -> Seq<Range>
    decreases n,
{
    if n == 0 {
        Seq::empty()
    } else {
        let before = space_points(es, (n - 1) as nat);
        let e = es[n - 1];
        if e.text.len() > 0 {
            let at = e.from + growth(es.take(n - 1));
            before.push(range(at, at))
        } else {
            before
        }
    }
}

/// Every edit removes something and puts in a space or nothing.
spec fn joins(es: Seq<Edit>) -> bool {
    forall|i: int|
        0 <= i < es.len() ==> (#[trigger] es[i]).from < es[i].to && es[i].text.len() <= 1
}

proof fn lemma_joins(s: Seq<char>, tokens: Seq<Option<Vec<char>>>, start: int, from: int, to: int)
    requires
        0 <= from,
        to <= newlines(s),
        tokens.len() == line_count(s),
        tokens_stand(s, tokens),
    ensures
        joins(join_edits(s, tokens, start, from, to)),
    decreases to - from,
{
    if from < to {
        lemma_joins(s, tokens, start, from, to - 1);
        lemma_join_edit(s, tokens, start, to - 1);
    }
}

fn select_spaces(changes: &Vec<Change>, len: usize) -> (points: Vec<Range>)
    requires
        valid_edits(edits(changes@), len as int),
        joins(edits(changes@)),
    ensures
        points@ == space_points(edits(changes@), changes@.len()),
{
    let ghost es = edits(changes@);
    let mut points: Vec<Range> = Vec::new();
    let mut offset: usize = 0;
    let mut i: usize = 0;
    assert(es.take(0) =~= Seq::<Edit>::empty());
    while i < changes.len()
        invariant
            i <= changes@.len(),
            es == edits(changes@),
            valid_edits(es, len as int),
            joins(es),
            offset == -growth(es.take(i as int)),
            i > 0 ==> offset <= es[i - 1].to,
            i == 0 ==> offset == 0,
            points@ == space_points(es, i as nat),
        decreases changes.len() - i,
    {
        proof {
            assert(es[i as int] == changes@[i as int]@);
            assert(es.take(i + 1).drop_last() =~= es.take(i as int));
            if i > 0 {
                assert(es[i - 1].to <= es[i as int].from);
            }
        }
        if changes[i].text.len() > 0 {
            points.push(Range::point(changes[i].from - offset));
            offset += changes[i].to - changes[i].from - 1;
        } else {
            offset += changes[i].to - changes[i].from;
        }
        i += 1;
    }
    points
}

/// Joins the lines that the selection touches. `tokens` holds the comment token that each line's
/// text begins with, where it does. With `select_space` the spaces that join the lines are
/// selected. There is nothing to do when no lines are joined.
pub fn join_selections_impl(
    text: &Text,
    selection: &Selection,
    tokens: &Vec<Option<Vec<char>>>,
    select_space: bool,
) -> (t: Option<Transaction>)
    requires
        text.wf(),
        text@.len() < usize::MAX,
        selection.wf(),
        selection.within(text@.len() as int),
        tokens@.len() == line_count(text@),
        tokens_stand(text@, tokens@),
    ensures
        ({
            let es = joined(*text, tokens@, selection.ranges@, selection.ranges@.len()).0;
            let points = space_points(es, es.len());
            match t {
                None => es.len() == 0,
                Some(t) => {
                    &&& es.len() > 0
                    &&& t.edits() == es
                    &&& valid_edits(es, text@.len() as int)
                    &&& t.selection is Some <==> select_space && points.len() > 0
                    &&& t.selection matches Some(s) ==> s.wf() && s.holds(points, 0)
                },
            }
        }),
{
    let mut changes: Vec<Change> = Vec::new();
    let mut done: usize = 0;
    let mut i: usize = 0;
    let ghost ranges = selection.ranges@;
    assert(edits(changes@) =~= Seq::<Edit>::empty());
    while i < selection.ranges.len()
        invariant
            i <= ranges.len(),
            ranges == selection.ranges@,
            text.wf(),
            text@.len() < usize::MAX,
            selection.within(text@.len() as int),
            tokens@.len() == line_count(text@),
            tokens_stand(text@, tokens@),
            (edits(changes@), done as int) == joined(*text, tokens@, ranges, i as nat),
            valid_edits(edits(changes@), text@.len() as int),
            joins(edits(changes@)),
            edits(changes@).len() > 0 ==> edits(changes@).last().to <= line_end(text@, done as int),
        decreases selection.ranges.len() - i,
    {
        assert(ranges[i as int].within(text@.len() as int));
        let (first, mut last) = selection.ranges[i].line_range(text);
        let ghost r = ranges[i as int];
        proof {
            lemma_line_of_bounds(text@, r.lo());
            crate::text::lemma_prev_boundary(*text, r.hi());
            lemma_line_of_bounds(text@, r.last_position(*text));
        }
        let count = text.len_lines();
        if first == last {
            last = if last + 1 <= count - 1 {
                last + 1
            } else {
                count - 1
            };
        }
        assert((first as int, last as int) == joined_lines(*text, r));
        let from = if first >= done {
            first
        } else {
            done
        };
        if last > from {
            proof {
                lemma_line_end_monotonic(text@, done as int, from as int);
                lemma_joins(text@, tokens@, first as int, from as int, last as int);
            }
            join_range(text, tokens, &mut changes, first, from, last);
            done = last;
        }
        i += 1;
    }
    if changes.len() == 0 {
        return None;
    }
    if select_space {
        let points = select_spaces(&changes, text.len_chars());
        if points.len() == 0 {
            Some(Transaction { changes, selection: None })
        } else {
            Some(Transaction { changes, selection: Some(Selection::new(points, 0)) })
        }
    } else {
        Some(Transaction { changes, selection: None })
    }
}

/// Joining leaves no line ending where it joined: each edit begins where a line ends and reaches
/// into the next line, which it never leaves.
pub proof fn joins_remove_the_line_ending(
    s: Seq<char>,
    tokens: Seq<Option<Vec<char>>>,
    start: int,
    line: int,
)
    requires
        0 <= line < newlines(s),
        tokens.len() == line_count(s),
        tokens_stand(s, tokens),
    ensures
        join_edit(s, tokens, start, line).from == line_end(s, line),
        line_start(s, line + 1) <= join_edit(s, tokens, start, line).to <= line_end(s, line + 1),
        line_end(s, line) < line_start(s, line + 1),
{
    lemma_join_edit(s, tokens, start, line);
}

/// What is selected after joining with `select_space` is a space of the joined text.
pub proof fn selected_spaces_are_spaces(s: Seq<char>, es: Seq<Edit>, k: int)
    requires
        valid_edits(es, s.len() as int),
        0 <= k < es.len(),
        es[k].text == seq![' '],
    ensures
        ({
            let at = es[k].from + growth(es.take(k));
            &&& 0 <= at < applied(s, es).len()
            &&& applied(s, es)[at] == ' '
        }),
{
    inserted_text_stands(s, es, k);
    let at = es[k].from + growth(es.take(k));
    assert(applied(s, es).subrange(at, at + 1)[0] == ' ');
}

/// Skipping blanks stops at the first character that is none; it skips nothing where there is
/// no such character.
pub proof fn blanks_are_skipped(s: Seq<char>, pos: int)
    requires
        0 <= pos <= s.len(),
    ensures
        ({
            let at = past_blanks(s, pos);
            &&& pos <= at <= s.len()
            &&& forall|k: int| pos <= k < at ==> (#[trigger] s[k]) == ' ' || s[k] == '\t'
            &&& (at < s.len() && s[at] != ' ' && s[at] != '\t') || (at == pos && forall|k: int|
                pos <= k < s.len() ==> (#[trigger] s[k]) == ' ' || s[k] == '\t')
        }),
    decreases s.len() - pos,
{
    if pos < s.len() && is_blank(s[pos]) {
        blanks_are_skipped(s, pos + 1);
        lemma_blanks_end(s, pos + 1, s.len() as int);
        lemma_blanks_stop(s, pos + 1);
        lemma_blanks_stop(s, pos);
    }
}

proof fn lemma_blanks_stop(s: Seq<char>, pos: int)
    requires
        0 <= pos <= s.len(),
    ensures
        pos <= blanks_end(s, pos) <= s.len(),
        forall|k: int| pos <= k < blanks_end(s, pos) ==> is_blank(#[trigger] s[k]),
        blanks_end(s, pos) < s.len() ==> !is_blank(s[blanks_end(s, pos)]),
    decreases s.len() - pos,
{
    if pos < s.len() && is_blank(s[pos]) {
        lemma_blanks_stop(s, pos + 1);
    }
}

/// Line `line + 1` goes on with a comment of the lines before it: the nearest line from `start`
/// to `line` that begins with a comment token begins with the same token.
pub open spec fn comment_goes_on(
    tokens: Seq<Option<Vec<char>>>,
    start: int,
    line: int,
) -> bool {
    tokens[line + 1] is Some && exists|l: int|
        start <= l <= line && (#[trigger] tokens[l]) is Some && tokens[l]->0@ == tokens[line + 1]->0@
            && forall|m: int| l < m <= line ==> (#[trigger] tokens[m]) is None
}

proof fn lemma_continued_token(tokens: Seq<Option<Vec<char>>>, start: int, line: int)
    requires
        0 <= start <= line < tokens.len(),
    ensures
        continued_token(tokens, start, line) matches Some(t) ==> exists|l: int|
            start <= l <= line && (#[trigger] tokens[l]) is Some && tokens[l]->0@ == t && forall|m: int|
                l < m <= line ==> (#[trigger] tokens[m]) is None,
        continued_token(tokens, start, line) is None ==> forall|m: int|
            start <= m <= line ==> (#[trigger] tokens[m]) is None,
    decreases line - start,
{
    if tokens[line] is Some {
        assert(tokens[line]->0@ == continued_token(tokens, start, line)->0);
    } else if start < line {
        lemma_continued_token(tokens, start, line - 1);
        if continued_token(tokens, start, line) is Some {
            let t = continued_token(tokens, start, line)->0;
            let l = choose|l: int|
                start <= l <= line - 1 && (#[trigger] tokens[l]) is Some && tokens[l]->0@ == t && forall|
                    m: int,
                |
                    l < m <= line - 1 ==> (#[trigger] tokens[m]) is None;
            assert(tokens[l] is Some);
        }
    }
}

/// Joining a line takes away its line ending and the blanks that the next line begins with. The
/// text of the next line stays whole, unless it goes on with a comment: then its comment token
/// and the blanks behind it go too. A space stands in place of what went, but none where nothing
/// is left of the next line.
pub proof fn joining_keeps_the_text_of_the_next_line(
    s: Seq<char>,
    tokens: Seq<Option<Vec<char>>>,
    start: int,
    line: int,
)
    requires
        0 <= start <= line < newlines(s),
        tokens.len() == line_count(s),
        tokens_stand(s, tokens),
    ensures
        ({
            let e = join_edit(s, tokens, start, line);
            let begin = line_start(s, line + 1);
            &&& 0 <= e.from < begin <= e.to <= s.len()
            &&& s[begin - 1] == '\n'
            &&& e.from == begin - 1 || (e.from == begin - 2 && s[begin - 2] == '\r')
            &&& !comment_goes_on(tokens, start, line) ==> {
                &&& forall|k: int| begin <= k < e.to ==> (#[trigger] s[k]) == ' ' || s[k] == '\t'
                &&& (e.to < s.len() && s[e.to] != ' ' && s[e.to] != '\t') || (e.to == begin && forall|
                    k: int,
                |
                    begin <= k < s.len() ==> (#[trigger] s[k]) == ' ' || s[k] == '\t')
            }
            &&& comment_goes_on(tokens, start, line) ==> exists|p: int|
                #![trigger past_blanks(s, p)]
                {
                    let q = p + tokens[line + 1]->0@.len();
                    &&& begin <= p <= q <= e.to
                    &&& forall|k: int| begin <= k < p ==> (#[trigger] s[k]) == ' ' || s[k] == '\t'
                    &&& p == begin || (s[p] != ' ' && s[p] != '\t')
                    &&& forall|k: int| q <= k < e.to ==> (#[trigger] s[k]) == ' ' || s[k] == '\t'
                    &&& (e.to < s.len() && s[e.to] != ' ' && s[e.to] != '\t') || (e.to == q && forall|
                        k: int,
                    |
                        q <= k < s.len() ==> (#[trigger] s[k]) == ' ' || s[k] == '\t')
                }
            &&& e.text == (if e.to == line_end(s, line + 1) {
                Seq::<char>::empty()
            } else {
                seq![' ']
            })
        }),
{
    let e = join_edit(s, tokens, start, line);
    let begin = line_start(s, line + 1);
    lemma_join_edit(s, tokens, start, line);
    crate::text::lines_lie_between_line_feeds(s, line);
    crate::text::lines_lie_between_line_feeds(s, line + 1);
    blanks_are_skipped(s, begin);
    lemma_continued_token(tokens, start, line);
    let p = line_text_start(s, line + 1);
    match tokens[line + 1] {
        Some(t) => {
            lemma_line_end_bounds(s, line + 1);
            blanks_are_skipped(s, p + t@.len());
            let went = past_blanks(s, p);
            if comment_goes_on(tokens, start, line) {
                let l = choose|l: int|
                    start <= l <= line && (#[trigger] tokens[l]) is Some && tokens[l]->0@ == t@ && forall|
                        m: int,
                    |
                        l < m <= line ==> (#[trigger] tokens[m]) is None;
                assert(tokens[l] is Some);
                assert(continued_token(tokens, start, line) is Some);
            }
        },
        None => {},
    }
}

proof fn lemma_one_ending_goes(
    s: Seq<char>,
    tokens: Seq<Option<Vec<char>>>,
    start: int,
    line: int,
)
    requires
        0 <= start <= line < newlines(s),
        tokens.len() == line_count(s),
        tokens_stand(s, tokens),
    ensures
        ({
            let e = join_edit(s, tokens, start, line);
            newlines(s.subrange(e.from, e.to)) == 1 && newlines(e.text) == 0
        }),
{
    let e = join_edit(s, tokens, start, line);
    let begin = line_start(s, line + 1);
    joining_keeps_the_text_of_the_next_line(s, tokens, start, line);
    lemma_join_edit(s, tokens, start, line);
    crate::text::lines_lie_between_line_feeds(s, line + 1);
    let a = s.subrange(e.from, begin - 1);
    let b = s.subrange(begin, e.to);
    assert(s.subrange(e.from, e.to) =~= a + seq!['\n'] + b);
    crate::text::lemma_newlines_add(a, seq!['\n']);
    crate::text::lemma_newlines_add(a + seq!['\n'], b);
    crate::text::line_feeds_are_counted(a, b, '\n');
    crate::text::lemma_no_newlines(a);
    crate::text::lemma_no_newlines(b);
    crate::text::lemma_no_newlines(e.text);
}

proof fn lemma_join_edits(
    s: Seq<char>,
    tokens: Seq<Option<Vec<char>>>,
    start: int,
    from: int,
    to: int,
)
    requires
        0 <= start <= from <= to <= newlines(s),
        tokens.len() == line_count(s),
        tokens_stand(s, tokens),
    ensures
        ({
            let es = join_edits(s, tokens, start, from, to);
            &&& es.len() == to - from
            &&& forall|i: int|
                0 <= i < es.len() ==> #[trigger] es[i] == join_edit(s, tokens, start, from + i)
            &&& valid_edits(es, s.len() as int)
        }),
    decreases to - from,
{
    if from < to {
        lemma_join_edits(s, tokens, start, from, to - 1);
        let before = join_edits(s, tokens, start, from, to - 1);
        let e = join_edit(s, tokens, start, to - 1);
        lemma_join_edit(s, tokens, start, to - 1);
        if before.len() > 0 {
            assert(before[before.len() - 1] == join_edit(s, tokens, start, to - 2));
            lemma_join_edit(s, tokens, start, to - 2);
        }
        lemma_valid_push(before, e, s.len() as int);
        let es = join_edits(s, tokens, start, from, to);
        assert forall|i: int| 0 <= i < es.len() implies #[trigger] es[i] == join_edit(
            s,
            tokens,
            start,
            from + i,
        ) by {
            if i < before.len() {
                assert(es[i] == before[i]);
            }
        }
    }
}

/// Joining the lines from `from` to `to` leaves one line of them: as many line feeds go as lines
/// are joined to the first.
pub proof fn joined_lines_become_one(
    s: Seq<char>,
    tokens: Seq<Option<Vec<char>>>,
    start: int,
    from: int,
    to: int,
)
    requires
        0 <= start <= from <= to <= newlines(s),
        tokens.len() == line_count(s),
        tokens_stand(s, tokens),
    ensures
        newlines(applied(s, join_edits(s, tokens, start, from, to))) == newlines(s) - (to - from),
{
    let es = join_edits(s, tokens, start, from, to);
    lemma_join_edits(s, tokens, start, from, to);
    crate::transaction::line_feeds_after_changes(s, es);
    assert forall|i: int| 0 <= i < es.len() implies newlines(
        s.subrange((#[trigger] es[i]).from, es[i].to),
    ) == 1 && newlines(es[i].text) == 0 by {
        assert(es[i] == join_edit(s, tokens, start, from + i));
        lemma_one_ending_goes(s, tokens, start, from + i);
    }
    crate::transaction::lemma_feeds_of_each(s, es, 1);
    crate::transaction::lemma_feeds_of_each(s, es, 0);
}

/// A range on one line joins the line below it, where there is one; a range on several lines
/// joins these and no other.
pub proof fn a_range_joins_the_lines_it_touches(text: Text, r: Range)
    requires
        text.wf(),
        r.within(text@.len() as int),
    ensures
        ({
            let (first, last) = joined_lines(text, r);
            let (a, b) = r.lines(text);
            &&& first == a
            &&& a < b ==> last == b
            &&& a == b && b < newlines(text@) ==> last == b + 1
            &&& a == b && b >= newlines(text@) ==> last <= first
        }),
{
}

/// Each selected point after joining is a space of the joined text, one for each edit that puts in
/// a space, and no other.
pub proof fn each_joining_space_is_selected(s: Seq<char>, es: Seq<Edit>, n: nat, r: Range)
    requires
        valid_edits(es, s.len() as int),
        n <= es.len(),
        applied(s, es).len() <= usize::MAX,
        forall|k: int|
            0 <= k < es.len() ==> (#[trigger] es[k]).text.len() == 0 || es[k].text == seq![' '],
    ensures
        space_points(es, n).contains(r) ==> r.anchor == r.head && r.head < applied(s, es).len()
            && applied(s, es)[r.head as int] == ' ',
        space_points(es, n).len() <= n,
        (forall|k: int| 0 <= k < n ==> (#[trigger] es[k]).text.len() > 0) ==> space_points(es, n).len()
            == n,
    decreases n,
{
    if n > 0 {
        let m = (n - 1) as nat;
        each_joining_space_is_selected(s, es, m, r);
        let before = space_points(es, m);
        let after = space_points(es, n);
        let e = es[m as int];
        if e.text.len() > 0 {
            selected_spaces_are_spaces(s, es, m as int);
            if after.contains(r) {
                let k = choose|k: int| 0 <= k < after.len() && after[k] == r;
                if k < before.len() {
                    assert(before[k] == r);
                }
            }
        }
    }
}

/// Lines that several ranges touch are joined once: each join begins behind the end of the one
/// before it.
pub proof fn lines_are_joined_once(
    text: Text,
    tokens: Seq<Option<Vec<char>>>,
    ranges: Seq<Range>,
    n: nat,
)
    requires
        text.wf(),
        n <= ranges.len(),
        tokens.len() == line_count(text@),
        tokens_stand(text@, tokens),
        forall|i: int| 0 <= i < ranges.len() ==> (#[trigger] ranges[i]).within(text@.len() as int),
    ensures
        ({
            let (es, done) = joined(text, tokens, ranges, n);
            &&& 0 <= done <= newlines(text@)
            &&& forall|i: int|
                0 <= i < es.len() ==> 0 <= (#[trigger] es[i]).from < es[i].to <= line_end(
                    text@,
                    done,
                )
            &&& forall|i: int, j: int|
                0 <= i < j < es.len() ==> (#[trigger] es[i]).from < (#[trigger] es[j]).from
        }),
    decreases n,
{
    if n > 0 {
        let m = (n - 1) as nat;
        let s = text@;
        lines_are_joined_once(text, tokens, ranges, m);
        let (before, done) = joined(text, tokens, ranges, m);
        let r = ranges[m as int];
        assert(r.within(s.len() as int));
        lemma_line_of_bounds(s, r.lo());
        crate::text::lemma_prev_boundary(text, r.hi());
        lemma_line_of_bounds(s, r.last_position(text));
        let (first, last) = joined_lines(text, r);
        let from = max(first, done);
        if last > from {
            let more = join_edits(s, tokens, first, from, last);
            lemma_joined_apart(s, tokens, first, from, last);
            crate::text::lines_lie_between_line_feeds(s, from);
            lemma_line_end_monotonic(s, done, from);
            lemma_line_end_monotonic(s, done, last);
            let es = before + more;
            assert forall|i: int| 0 <= i < es.len() implies 0 <= (#[trigger] es[i]).from < es[i].to
                <= line_end(s, last) by {
                if i < before.len() {
                    assert(es[i] == before[i]);
                } else {
                    assert(es[i] == more[i - before.len()]);
                }
            }
            assert forall|i: int, j: int| 0 <= i < j < es.len() implies (#[trigger] es[i]).from < (
            #[trigger] es[j]).from by {
                if j < before.len() {
                    assert(es[i] == before[i] && es[j] == before[j]);
                } else if i < before.len() {
                    assert(es[i] == before[i] && es[j] == more[j - before.len()]);
                } else {
                    assert(es[i] == more[i - before.len()] && es[j] == more[j - before.len()]);
                }
            }
        }
    }
}

/// Joins begin one behind the other, from the end of the first line on.
proof fn lemma_joined_apart(
    s: Seq<char>,
    tokens: Seq<Option<Vec<char>>>,
    start: int,
    from: int,
    to: int,
)
    requires
        0 <= from <= to <= newlines(s),
        tokens.len() == line_count(s),
        tokens_stand(s, tokens),
    ensures
        ({
            let es = join_edits(s, tokens, start, from, to);
            &&& forall|i: int|
                0 <= i < es.len() ==> line_end(s, from) <= (#[trigger] es[i]).from < es[i].to
                    <= line_end(s, to)
            &&& forall|i: int, j: int|
                0 <= i < j < es.len() ==> (#[trigger] es[i]).from < (#[trigger] es[j]).from
        }),
    decreases to - from,
{
    if from < to {
        lemma_joined_apart(s, tokens, start, from, to - 1);
        lemma_join_edit(s, tokens, start, to - 1);
        lemma_line_end_monotonic(s, from, to - 1);
        lemma_line_end_monotonic(s, to - 1, to);
        crate::text::lines_lie_between_line_feeds(s, to - 1);
        let before = join_edits(s, tokens, start, from, to - 1);
        let es = join_edits(s, tokens, start, from, to);
        let last = join_edit(s, tokens, start, to - 1);
        assert(es == before.push(last));
        assert(line_end(s, to - 1) == last.from < last.to <= line_end(s, to));
        assert forall|i: int| 0 <= i < es.len() implies line_end(s, from) <= (
        #[trigger] es[i]).from < es[i].to <= line_end(s, to) by {
            if i < before.len() {
                assert(es[i] == before[i]);
            }
        }
        assert forall|i: int, j: int| 0 <= i < j < es.len() implies (#[trigger] es[i]).from < (
        #[trigger] es[j]).from by {
            assert(es[i] == before[i]);
            if j < before.len() {
                assert(es[j] == before[j]);
            }
        }
    }
}

} // verus!
