//! The line endings of a document.

use crate::commands::search::{begins_with, has_prefix};
use crate::strings::{lowered, to_chars, to_lowered};
use crate::text::{
    line_at, line_count, line_ending_len, line_start, newlines, LineEnding, Text,
};
use crate::transaction::{
    applied, edits, lemma_apply_longer, lemma_edits_push, lemma_valid_push, valid_edits, Change,
    Edit, Transaction,
};
use vstd::prelude::*;

verus! {

/// How a line ending is reported.
pub open spec fn ending_name(ending: LineEnding) -> Seq<char> {
    match ending {
        LineEnding::Crlf => "crlf"@,
        LineEnding::LF => "line feed"@,
    }
}

/// How a line ending is reported.
pub fn line_ending_name(ending: LineEnding) -> (name: &'static str)
    ensures
        name@ == ending_name(ending),
{
    match ending {
        LineEnding::Crlf => "crlf",
        LineEnding::LF => "line feed",
    }
}

/// The line ending that an argument asks for, whatever the case of its letters.
pub open spec fn named_ending(arg: Seq<char>) -> Option<LineEnding> {
    if has_prefix(lowered(arg), "crlf"@) {
        Some(LineEnding::Crlf)
    } else if has_prefix(lowered(arg), "lf"@) {
        Some(LineEnding::LF)
    } else {
        None
    }
}

/// The line ending that an argument asks for.
pub fn parse_line_ending(arg: &str) -> (ending: Result<LineEnding, &'static str>)
    ensures
        match named_ending(arg@) {
            Some(named) => ending matches Ok(e) && e == named,
            None => ending matches Err(m) && m@ == "invalid line ending"@,
        },
{
    let low = to_lowered(&to_chars(arg));
    if begins_with(&low, &to_chars("crlf")) {
        Ok(LineEnding::Crlf)
    } else if begins_with(&low, &to_chars("lf")) {
        Ok(LineEnding::LF)
    } else {
        Err("invalid line ending")
    }
}

/// The ending of line `k` is not `ending`.
pub open spec fn ends_otherwise(s: Seq<char>, k: int, ending: LineEnding) -> bool {
    let n = line_ending_len(line_at(s, k));
    n > 0 && n != ending.chars().len()
}

/// The edits that give the first `n` lines the same ending.
pub open spec fn ending_edits(s: Seq<char>, ending: LineEnding, n: nat) -> Seq<Edit>
    decreases n,
{
    if n == 0 {
        Seq::empty()
    } else {
        let before = ending_edits(s, ending, (n - 1) as nat);
        let end = line_start(s, n as int);
        if ends_otherwise(s, n - 1, ending) {
            before.push(
                Edit {
                    from: end - line_ending_len(line_at(s, n - 1)),
                    to: end,
                    text: ending.chars(),
                },
            )
        } else {
            before
        }
    }
}

/// Gives every line of a document the same ending.
pub fn set_line_ending(text: &Text, ending: LineEnding) -> (t: Transaction)
    requires
        text@.len() < usize::MAX,
    ensures
        t.edits() == ending_edits(text@, ending, line_count(text@) as nat),
        valid_edits(t.edits(), text@.len() as int),
        t.selection is None,
{
    let total = text.len_lines();
    let mut changes: Vec<Change> = Vec::new();
    let mut k: usize = 0;
    assert(edits(changes@) =~= Seq::<Edit>::empty());
    while k < total
        invariant
            k <= total,
            total == line_count(text@),
            edits(changes@) == ending_edits(text@, ending, k as nat),
            valid_edits(edits(changes@), text@.len() as int),
            edits(changes@).len() > 0 ==> edits(changes@).last().to <= line_start(
                text@,
                k as int,
            ),
        decreases total - k,
    {
        proof {
            crate::text::lemma_line_start_monotonic(text@, k as int, k + 1);
        }
        let start = text.line_to_char(k);
        let end = text.line_to_char(k + 1);
        let at = text.line_end_char_index(k);
        let n = end - at;
        if n > 0 && n != ending.len_chars() {
            let change = Change { from: at, to: end, text: ending.as_chars() };
            proof {
                lemma_edits_push(changes@, change);
                lemma_valid_push(edits(changes@), change@, text@.len() as int);
            }
            changes.push(change);
        }
        k += 1;
    }
    Transaction { changes, selection: None }
}

/// Every line feed follows a carriage return.
pub open spec fn feeds_follow_returns(s: Seq<char>) -> bool {
    forall|i: int| 0 <= i < s.len() && #[trigger] s[i] == '\n' ==> i > 0 && s[i - 1] == '\r'
}

/// No line feed follows a carriage return.
pub open spec fn feeds_stand_alone(s: Seq<char>) -> bool {
    forall|i: int| 0 < i < s.len() && #[trigger] s[i] == '\n' ==> s[i - 1] != '\r'
}

/// No carriage return stands before a carriage return with a line feed.
pub open spec fn single_returns(s: Seq<char>) -> bool {
    forall|i: int|
        2 <= i < s.len() && #[trigger] s[i] == '\n' && s[i - 1] == '\r' ==> s[i - 2] != '\r'
}

/// The edits of the first `n` lines reach no further than those lines.
proof fn lemma_ending_edits_reach(s: Seq<char>, ending: LineEnding, n: nat)
    ensures
        valid_edits(ending_edits(s, ending, n), s.len() as int),
        ending_edits(s, ending, n).len() > 0 ==> ending_edits(s, ending, n).last().to <= line_start(
            s,
            n as int,
        ),
    decreases n,
{
    if n > 0 {
        lemma_ending_edits_reach(s, ending, (n - 1) as nat);
        crate::text::lemma_line_start_monotonic(s, n - 1, n as int);
        let before = ending_edits(s, ending, (n - 1) as nat);
        let all = ending_edits(s, ending, n);
        if all.len() > before.len() {
            lemma_valid_push(before, all.last(), s.len() as int);
        }
    }
}

/// The text of the first `n` lines after their endings were changed.
spec fn rewritten(s: Seq<char>, ending: LineEnding, n: nat) -> Seq<char> {
    applied(s.take(line_start(s, n as int)), ending_edits(s, ending, n))
}

/// One line more: its characters up to the ending, and the ending asked for if it has one.
proof fn lemma_rewritten_step(s: Seq<char>, ending: LineEnding, n: nat)
    requires
        n < line_count(s),
    ensures
        ({
            let (a, b) = (line_start(s, n as int), line_start(s, n as int + 1));
            let l = line_ending_len(line_at(s, n as int));
            rewritten(s, ending, n + 1) == rewritten(s, ending, n) + s.subrange(a, b - l) + (if l
                > 0 {
                ending.chars()
            } else {
                Seq::empty()
            })
        }),
{
    let (a, b) = (line_start(s, n as int), line_start(s, n as int + 1));
    let l = line_ending_len(line_at(s, n as int));
    crate::text::lemma_line_start_monotonic(s, n as int, n as int + 1);
    lemma_ending_edits_reach(s, ending, n);
    let before = ending_edits(s, ending, n);
    let line = line_at(s, n as int);
    if ends_otherwise(s, n as int, ending) {
        lemma_apply_longer(s, before, a, b - l);
        let t = s.take(b);
        let all = ending_edits(s, ending, n + 1);
        assert(all.drop_last() =~= before);
        assert(t.take(b - l) =~= s.take(b - l));
        assert(t.skip(b) =~= Seq::<char>::empty());
        assert(rewritten(s, ending, n + 1) =~= rewritten(s, ending, n) + s.subrange(a, b - l)
            + ending.chars());
    } else {
        lemma_apply_longer(s, before, a, b);
        if l > 0 {
            assert(s.subrange(a, b) =~= s.subrange(a, b - l) + ending.chars()) by {
                assert(line[line.len() - 1] == s[b - 1]);
                if l == 2 {
                    assert(line[line.len() - 2] == s[b - 2]);
                }
            }
            assert(rewritten(s, ending, n) + s.subrange(a, b) =~= rewritten(s, ending, n)
                + s.subrange(a, b - l) + ending.chars());
        } else {
            assert(rewritten(s, ending, n) + s.subrange(a, b) =~= rewritten(s, ending, n)
                + s.subrange(a, b - l) + Seq::<char>::empty());
        }
    }
}

proof fn lemma_rewritten(s: Seq<char>, ending: LineEnding, n: nat)
    requires
        n <= line_count(s),
    ensures
        ending == LineEnding::Crlf ==> feeds_follow_returns(rewritten(s, ending, n)),
        ending == LineEnding::LF && single_returns(s) ==> feeds_stand_alone(
            rewritten(s, ending, n),
        ),
        0 < n < line_count(s) ==> rewritten(s, ending, n).len() > 0 && rewritten(
            s,
            ending,
            n,
        ).last() == '\n',
        n == 0 ==> rewritten(s, ending, n).len() == 0,
        newlines(rewritten(s, ending, n)) == if n == line_count(s) {
            newlines(s)
        } else {
            n
        },
    decreases n,
{
    if n == 0 {
        assert(s.take(0).len() == 0);
    } else {
        let k = (n - 1) as nat;
        lemma_rewritten(s, ending, k);
        lemma_rewritten_step(s, ending, k);
        let (a, b) = (line_start(s, k as int), line_start(s, k as int + 1));
        let line = line_at(s, k as int);
        let l = line_ending_len(line);
        crate::text::lemma_line_start_monotonic(s, k as int, k as int + 1);
        let body = s.subrange(a, b - l);
        let before = rewritten(s, ending, k);
        if k < newlines(s) {
            crate::text::lemma_line_start_counts(s, k as int + 1);
            crate::text::lemma_line_start_counts(s, k as int);
            assert(b > a) by {
                if b <= a {
                    assert(line_start(s, k as int + 1) == line_start(s, k as int));
                }
            }
            assert(line[line.len() - 1] == s[b - 1]);
            assert(l > 0);
        } else {
            assert(b == s.len()) by {
                if s.len() > 0 {
                    assert(newlines(s.drop_last()) <= newlines(s));
                }
            }
            if l > 0 {
                assert(line[line.len() - 1] == s[b - 1]);
                crate::text::lemma_line_start_counts(s, k as int);
                crate::text::lemma_newlines_prefix_le(s, a, b - 1);
                assert(s.take(b).drop_last() =~= s.take(b - 1));
                assert(s.take(b) =~= s);
                assert(false);
            }
        }
        assert forall|i: int| 0 <= i < body.len() implies body[i] != '\n' by {
            if a + i < b - 1 {
                crate::text::lemma_line_has_no_inner_feed(s, k as int, a + i);
            } else {
                assert(l == 0);
                assert(line[line.len() - 1] == s[b - 1]);
            }
        }
        crate::text::lemma_no_newlines(body);
        crate::text::lemma_newlines_add(before, body);
        let mark: Seq<char> = if l > 0 {
            ending.chars()
        } else {
            Seq::empty()
        };
        crate::text::lemma_newlines_add(before + body, mark);
        assert(newlines(mark) == if l > 0 {
            1nat
        } else {
            0nat
        }) by {
            reveal_with_fuel(newlines, 3);
            if l > 0 {
                assert(mark.drop_last().len() == mark.len() - 1);
            }
        }
        if ending == LineEnding::LF && single_returns(s) {
            let all = before + body + mark;
            assert forall|i: int| 0 < i < all.len() && #[trigger] all[i] == '\n' implies all[i - 1]
                != '\r' by {
                if i < before.len() {
                    assert(before[i] == '\n');
                    assert(before[i - 1] == all[i - 1]);
                } else if i < before.len() + body.len() {
                    assert(body[i - before.len()] == '\n');
                } else {
                    assert(l > 0);
                    if body.len() > 0 {
                        assert(body.last() == s[b - l - 1]);
                        assert(s[b - 1] == '\n') by {
                            assert(line[line.len() - 1] == s[b - 1]);
                        }
                        assert(line[line.len() - 2] == s[b - 2]);
                    } else {
                        assert(all[i - 1] == before.last());
                    }
                }
            }
        }
        if ending == LineEnding::Crlf {
            let all = before + body + mark;
            assert forall|i: int| 0 <= i < all.len() && #[trigger] all[i] == '\n' implies i > 0
                && all[i - 1] == '\r' by {
                if i < before.len() {
                    assert(before[i] == '\n');
                    assert(before[i - 1] == all[i - 1]);
                } else if i < before.len() + body.len() {
                    assert(body[i - before.len()] == '\n');
                } else {
                    assert(l > 0);
                }
            }
        }
    }
}

/// Where the line feeds are as asked for, no line ends otherwise, and nothing is changed.
proof fn lemma_set_endings(t: Seq<char>, ending: LineEnding, n: nat)
    requires
        n <= line_count(t),
        match ending {
            LineEnding::Crlf => feeds_follow_returns(t),
            LineEnding::LF => feeds_stand_alone(t),
        },
    ensures
        forall|k: int| 0 <= k < n ==> !#[trigger] ends_otherwise(t, k, ending),
        ending_edits(t, ending, n).len() == 0,
    decreases n,
{
    if n > 0 {
        let k = n - 1;
        lemma_set_endings(t, ending, k as nat);
        let (a, b) = (line_start(t, k), line_start(t, k + 1));
        crate::text::lemma_line_start_monotonic(t, k, k + 1);
        crate::text::lemma_line_start_counts(t, k);
        let line = line_at(t, k);
        if line_ending_len(line) > 0 {
            assert(line[line.len() - 1] == t[b - 1]);
            if b - 1 == a {
                if ending == LineEnding::Crlf {
                    assert(t[b - 2] == '\r');
                    assert(t[a - 1] == '\n');
                }
            } else {
                assert(line[line.len() - 2] == t[b - 2]);
            }
        }
    }
}

/// Setting the line ending keeps the number of lines. Afterwards every line that ends with a line
/// ending ends with the one asked for, and setting it again changes nothing. Setting it to line
/// feeds takes one carriage return from before each; with two of them before a line feed, the
/// other one would make a line ending of its own.
pub proof fn line_endings_are_set(s: Seq<char>, ending: LineEnding)
    ensures
        ({
            let t = applied(s, ending_edits(s, ending, line_count(s) as nat));
            &&& newlines(t) == newlines(s)
            &&& ending == LineEnding::Crlf ==> feeds_follow_returns(t)
            &&& ending == LineEnding::LF && single_returns(s) ==> feeds_stand_alone(t)
            &&& ending == LineEnding::Crlf || single_returns(s) ==> {
                &&& forall|k: int|
                    0 <= k < line_count(t) ==> !#[trigger] ends_otherwise(t, k, ending)
                &&& ending_edits(t, ending, line_count(t) as nat).len() == 0
                &&& applied(t, ending_edits(t, ending, line_count(t) as nat)) == t
            }
        }),
{
    let n = line_count(s) as nat;
    lemma_rewritten(s, ending, n);
    assert(line_start(s, n as int) == s.len()) by {
        if s.len() > 0 {
            assert(newlines(s.drop_last()) <= newlines(s));
        }
    }
    assert(s.take(s.len() as int) =~= s);
    let t = applied(s, ending_edits(s, ending, n));
    if ending == LineEnding::Crlf || single_returns(s) {
        lemma_set_endings(t, ending, line_count(t) as nat);
    }
}

/// An argument asks for a line ending by the letters it begins with, in either case: `crlf` or
/// `lf`.
pub proof fn endings_are_named_in_either_case(arg: Seq<char>)
    ensures
        named_ending(arg) == named_ending(lowered(arg)),
        named_ending("crlf"@ + arg) == Some(LineEnding::Crlf),
        named_ending("lf"@ + arg) == Some(LineEnding::LF),
        named_ending(arg) is Some ==> arg.len() >= 2,
{
    reveal_strlit("crlf");
    reveal_strlit("lf");
    if arg.len() > 0 {
        crate::strings::only_capital_letters_are_made_small(arg, 0);
    } else {
        assert(lowered(arg) =~= arg);
    }
    let a = lowered("crlf"@ + arg);
    let b = lowered("lf"@ + arg);
    assert(a.take(4) =~= "crlf"@);
    assert(b.take(2) =~= "lf"@);
    if b.len() >= 4 {
        assert(b.take(4)[0] == 'l');
        assert("crlf"@[0] == 'c');
    }
}

} // verus!
