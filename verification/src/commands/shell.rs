//! Piping selections through shell commands, and inserting their output.

use crate::commands::diagnostics::{signed_decimal, to_signed_decimal};
use crate::commands::search::PromptEvent;
use crate::range::{range, Range};
use crate::selection::{ordered, Selection};
use crate::text::Text;
use crate::transaction::{
    applied, changed_length, copy_chars, edits, growth, inserted, inserted_text_stands,
    lemma_edits_push, lemma_growth_bounds, lemma_inserted_prefix, lemma_valid_push, valid_edits,
    Change, Edit, Transaction,
};
use vstd::prelude::*;

verus! {

/// What happens to the output of a shell command.
#[derive(Clone, Copy, Debug, PartialEq, Eq, Structural)]
pub enum ShellBehavior {
    Replace,
    Ignore,
    Insert,
    Append,
}

impl ShellBehavior {
    /// The selections are piped into the command.
    pub open spec fn piped(self) -> bool {
        self == ShellBehavior::Replace || self == ShellBehavior::Ignore
    }

    /// Whether the selections are piped into the command.
    pub fn pipes(&self) -> (b: bool)
        ensures
            b == self.piped(),
    {
        match self {
            ShellBehavior::Replace | ShellBehavior::Ignore => true,
            ShellBehavior::Insert | ShellBehavior::Append => false,
        }
    }

    /// The prompt for the command.
    pub fn prompt(&self) -> (p: &'static str)
        ensures
            p@ == match self {
                ShellBehavior::Replace => "pipe:"@,
                ShellBehavior::Ignore => "pipe-to:"@,
                ShellBehavior::Insert => "insert-output:"@,
                ShellBehavior::Append => "append-output:"@,
            },
    {
        match self {
            ShellBehavior::Replace => "pipe:",
            ShellBehavior::Ignore => "pipe-to:",
            ShellBehavior::Insert => "insert-output:",
            ShellBehavior::Append => "append-output:",
        }
    }
}

/// The ranges, among the first `n`, for which the command succeeded.
pub open spec fn kept_ranges(ranges: Seq<Range>, succeeded: Seq<bool>, n: nat) -> Seq<Range>
    decreases n,
{
    if n == 0 {
        Seq::empty()
    } else {
        let before = kept_ranges(ranges, succeeded, (n - 1) as nat);
        if succeeded[n - 1] {
            before.push(ranges[n - 1])
        } else {
            before
        }
    }
}

/// Which of the kept ranges is primary: the first that stood at the primary place or behind it, or
/// the last one.
pub open spec fn kept_primary(succeeded: Seq<bool>, primary: int) -> int {
    let before = kept_count(succeeded, primary as nat);
    let all = kept_count(succeeded, succeeded.len());
    if before < all {
        before as int
    } else {
        all - 1
    }
}

/// How many of the first `n` succeeded.
pub open spec fn kept_count(succeeded: Seq<bool>, n: nat) -> nat
    decreases n,
{
    if n == 0 {
        0
    } else {
        kept_count(succeeded, (n - 1) as nat) + if succeeded[n - 1] {
            1nat
        } else {
            0nat
        }
    }
}

/// Keeps the ranges for which the command succeeded.
pub fn shell_keep_pipe(selection: &Selection, succeeded: &Vec<bool>) -> (kept: Result<
    Selection,
    &'static str,
>)
    requires
        selection.wf(),
        succeeded@.len() == selection.ranges@.len(),
    ensures
        ({
            let left = kept_ranges(selection.ranges@, succeeded@, succeeded@.len());
            match kept {
                Err(m) => left.len() == 0 && m@ == "No selections remaining"@,
                Ok(s) => left.len() > 0 && s.wf() && s.holds(
                    left,
                    kept_primary(succeeded@, selection.primary_index as int),
                ),
            }
        }),
{
    let primary: usize = selection.primary_index;
    let mut ranges: Vec<Range> = Vec::new();
    let mut index: Option<usize> = None;
    let mut i: usize = 0;
    while i < selection.ranges.len()
        invariant
            i <= selection.ranges@.len() == succeeded@.len(),
            primary < selection.ranges@.len(),
            ranges@ == kept_ranges(selection.ranges@, succeeded@, i as nat),
            ranges@.len() == kept_count(succeeded@, i as nat),
            i <= primary ==> index is None,
            i > primary ==> ({
                let before = kept_count(succeeded@, primary as nat);
                match index {
                    Some(k) => k == before && before < ranges@.len(),
                    None => ranges@.len() == before,
                }
            }),
        decreases selection.ranges.len() - i,
    {
        if succeeded[i] {
            ranges.push(selection.ranges[i]);
            if i >= primary && index.is_none() {
                index = Some(ranges.len() - 1);
            }
        }
        i += 1;
    }
    if ranges.len() == 0 {
        return Err("No selections remaining");
    }
    let at: usize = match index {
        Some(k) => k,
        None => ranges.len() - 1,
    };
    Ok(Selection::new(ranges, at))
}

/// The ranges for which the command succeeded stay, and no others, in their order; the primary one
/// is the first of them from the former primary range on, or the last where none follows.
pub proof fn succeeding_ranges_are_kept(
    ranges: Seq<Range>,
    succeeded: Seq<bool>,
    n: nat,
    i: int,
)
    requires
        n <= ranges.len() == succeeded.len(),
        0 <= i < n,
        succeeded[i],
    ensures
        kept_ranges(ranges, succeeded, n).len() == kept_count(succeeded, n),
        kept_count(succeeded, i as nat) < kept_count(succeeded, n),
        kept_ranges(ranges, succeeded, n)[kept_count(succeeded, i as nat) as int] == ranges[i],
    decreases n,
{
    lemma_kept_len(ranges, succeeded, n);
    lemma_kept_len(ranges, succeeded, i as nat);
    if n - 1 > i {
        succeeding_ranges_are_kept(ranges, succeeded, (n - 1) as nat, i);
        lemma_kept_len(ranges, succeeded, (n - 1) as nat);
    } else {
        lemma_kept_len(ranges, succeeded, (n - 1) as nat);
    }
}

proof fn lemma_kept_len(ranges: Seq<Range>, succeeded: Seq<bool>, n: nat)
    ensures
        kept_ranges(ranges, succeeded, n).len() == kept_count(succeeded, n),
    decreases n,
{
    if n > 0 {
        lemma_kept_len(ranges, succeeded, (n - 1) as nat);
    }
}

proof fn lemma_none_kept_between(succeeded: Seq<bool>, a: nat, b: nat)
    requires
        a <= b <= succeeded.len(),
        forall|k: int| a <= k < b ==> !(#[trigger] succeeded[k]),
    ensures
        kept_count(succeeded, a) == kept_count(succeeded, b),
    decreases b - a,
{
    if a < b {
        assert(!succeeded[b - 1]);
        lemma_none_kept_between(succeeded, a, (b - 1) as nat);
    }
}

/// The primary range that is kept is the first that the command succeeded for from the former
/// primary range on; where there is none, the last that it succeeded for.
pub proof fn the_kept_primary_follows_the_former(
    ranges: Seq<Range>,
    succeeded: Seq<bool>,
    primary: int,
    i: int,
)
    requires
        ranges.len() == succeeded.len(),
        0 <= primary < ranges.len(),
        0 <= i < ranges.len(),
        succeeded[i],
        i >= primary ==> forall|k: int| primary <= k < i ==> !(#[trigger] succeeded[k]),
        i < primary ==> forall|k: int| i < k < ranges.len() ==> !(#[trigger] succeeded[k]),
    ensures
        kept_ranges(ranges, succeeded, ranges.len())[kept_primary(succeeded, primary)] == ranges[i],
{
    succeeding_ranges_are_kept(ranges, succeeded, ranges.len(), i);
    if i >= primary {
        lemma_none_kept_between(succeeded, primary as nat, i as nat);
    } else {
        lemma_none_kept_between(succeeded, (i + 1) as nat, ranges.len());
        lemma_none_kept_between(succeeded, (i + 1) as nat, primary as nat);
    }
}

/// What `String::from_utf8_lossy` makes of bytes.
pub uninterp spec fn lossy_text(bytes: Seq<u8>) -> Seq<char>;

/// `String::from_utf8_lossy`: the text that bytes encode in UTF-8, with replacement characters for
/// bytes that encode none.
#[verifier::external_body]
fn from_utf8_lossy(bytes: &Vec<u8>) -> (s: String)
    ensures
        s@ == lossy_text(bytes@),
{
    String::from_utf8_lossy(bytes).into_owned()
}

/// The outcome of a shell command as a text: what it wrote to its error output, else its output. It
/// is an error when the command failed without a word.
pub fn shell_output(success: bool, code: Option<i32>, stdout: &Vec<u8>, stderr: &Vec<u8>) -> (output: Result<
    String,
    String,
>)
    ensures
        match output {
            Ok(text) => (success || stderr@.len() > 0) && text@ == (if stderr@.len() > 0 {
                lossy_text(stderr@)
            } else {
                lossy_text(stdout@)
            }),
            Err(m) => !success && stderr@.len() == 0 && m@ == (match code {
                Some(n) => "Shell command failed: status "@ + signed_decimal(n as int),
                None => "Shell command failed"@,
            }),
        },
{
    if stderr.len() > 0 {
        return Ok(from_utf8_lossy(stderr));
    }
    if success {
        return Ok(from_utf8_lossy(stdout));
    }
    match code {
        Some(n) => {
            let mut m = String::from_str("Shell command failed: status ");
            m.append(to_signed_decimal(n).as_str());
            Err(m)
        },
        None => Err(String::from_str("Shell command failed")),
    }
}

/// How a command is run by the shell: the program, and the arguments before the command.
pub fn shell_program(shell: &Vec<String>) -> (program: Result<(String, Vec<String>), &'static str>)
    ensures
        match program {
            Err(m) => shell@.len() == 0 && m@ == "No shell set"@,
            Ok((name, args)) => {
                &&& shell@.len() > 0
                &&& name@ == shell@[0]@
                &&& args@.len() == shell@.len() - 1
                &&& forall|i: int| 0 <= i < args@.len() ==> (#[trigger] args@[i])@ == shell@[i + 1]@
            },
        },
{
    if shell.len() == 0 {
        return Err("No shell set");
    }
    let mut args: Vec<String> = Vec::new();
    let mut i: usize = 1;
    while i < shell.len()
        invariant
            1 <= i <= shell@.len(),
            args@.len() == i - 1,
            forall|j: int| 0 <= j < args@.len() ==> (#[trigger] args@[j])@ == shell@[j + 1]@,
        decreases shell.len() - i,
    {
        args.push(shell[i].clone());
        i += 1;
    }
    Ok((shell[0].clone(), args))
}

/// The output without the line ending that the input did not have.
pub open spec fn trimmed_output(input: Seq<char>, output: Seq<char>) -> Seq<char> {
    let extra = !(input.len() > 0 && input.last() == '\n') && output.len() > 0 && output.last()
        == '\n';
    if extra {
        let cut = output.drop_last();
        if cut.len() > 0 && cut.last() == '\r' {
            cut.drop_last()
        } else {
            cut
        }
    } else {
        output
    }
}

fn trim_output(text: &Text, r: &Range, output: &Vec<char>) -> (out: Vec<char>)
    requires
        r.within(text@.len() as int),
    ensures
        out@ == trimmed_output(text@.subrange(r.lo(), r.hi()), output@),
{
    let ghost input = text@.subrange(r.lo(), r.hi());
    let ends: bool = r.len() > 0 && text.chars[r.to() - 1] == '\n';
    assert(r.hi() > r.lo() ==> input.last() == text@[r.hi() - 1]);
    let mut out = copy_chars(output);
    if !ends && out.len() > 0 && out[out.len() - 1] == '\n' {
        out.pop();
        assert(out@ =~= output@.drop_last());
        if out.len() > 0 && out[out.len() - 1] == '\r' {
            out.pop();
            assert(out@ =~= output@.drop_last().drop_last());
        }
    }
    out
}

/// What is put in for the range at place `i`. A command that nothing is piped into runs once.
pub open spec fn range_output(
    s: Seq<char>,
    ranges: Seq<Range>,
    outputs: Seq<Vec<char>>,
    piped: bool,
    i: int,
) -> Seq<char> {
    let k = if piped {
        i
    } else {
        0
    };
    trimmed_output(s.subrange(ranges[k].lo(), ranges[k].hi()), outputs[k]@)
}

/// Where the output for a range goes.
pub open spec fn output_place(r: Range, behavior: ShellBehavior) -> (int, int) {
    match behavior {
        ShellBehavior::Replace => (r.lo(), r.hi()),
        ShellBehavior::Append => (r.hi(), r.hi()),
        _ => (r.lo(), r.lo()),
    }
}

/// What the output of a command does to the text.
pub open spec fn shell_edits(
    s: Seq<char>,
    ranges: Seq<Range>,
    outputs: Seq<Vec<char>>,
    behavior: ShellBehavior,
) -> Seq<Edit> {
    Seq::new(
        ranges.len(),
        |i: int|
            {
                let (from, to) = output_place(ranges[i], behavior);
                Edit { from, to, text: range_output(s, ranges, outputs, behavior.piped(), i) }
            },
    )
}

/// The ranges of the outputs, each facing as the range it was made for.
pub open spec fn output_ranges(ranges: Seq<Range>, es: Seq<Edit>) -> Seq<Range> {
    Seq::new(
        ranges.len(),
        |i: int|
            {
                let at = es[i].from + growth(es.take(i));
                range(at, at + es[i].text.len()).facing(ranges[i].faces())
            },
    )
}

/// Puts the output of a command into the text and selects it. `outputs` holds the output for each
/// range, or one output where nothing is piped.
pub fn shell(
    text: &Text,
    selection: &Selection,
    outputs: &Vec<Vec<char>>,
    behavior: ShellBehavior,
) -> (t: Option<Transaction>)
    requires
        selection.wf(),
        selection.within(text@.len() as int),
        behavior.piped() ==> outputs@.len() == selection.ranges@.len(),
        outputs@.len() > 0,
        text@.len() + inserted(shell_edits(text@, selection.ranges@, outputs@, behavior))
            <= usize::MAX,
    ensures
        t is Some <==> behavior != ShellBehavior::Ignore,
        t matches Some(t) ==> {
            let es = shell_edits(text@, selection.ranges@, outputs@, behavior);
            &&& t.edits() == es
            &&& valid_edits(es, text@.len() as int)
            &&& t.selection matches Some(s) && s.wf() && s.holds(
                output_ranges(selection.ranges@, es),
                selection.primary_index as int,
            )
        },
{
    if behavior == ShellBehavior::Ignore {
        return None;
    }
    let ghost ranges = selection.ranges@;
    let ghost es = shell_edits(text@, ranges, outputs@, behavior);
    let piped = behavior.pipes();
    let mut changes: Vec<Change> = Vec::new();
    let mut selected: Vec<Range> = Vec::new();
    let mut added: usize = 0;
    let mut removed: usize = 0;
    let mut i: usize = 0;
    assert(es.take(0) =~= Seq::<Edit>::empty());
    assert(edits(changes@) =~= es.take(0));
    while i < selection.ranges.len()
        invariant
            i <= ranges.len(),
            ranges == selection.ranges@,
            ranges.len() > 0,
            ordered(ranges),
            selection.within(text@.len() as int),
            behavior != ShellBehavior::Ignore,
            piped == behavior.piped(),
            piped ==> outputs@.len() == ranges.len(),
            outputs@.len() > 0,
            es == shell_edits(text@, ranges, outputs@, behavior),
            text@.len() + inserted(es) <= usize::MAX,
            added == inserted(es.take(i as int)),
            growth(es.take(i as int)) == added - removed,
            i > 0 ==> removed <= ranges[i - 1].hi(),
            i == 0 ==> removed == 0,
            edits(changes@) == es.take(i as int),
            valid_edits(edits(changes@), text@.len() as int),
            selected@.len() == i,
            forall|j: int| 0 <= j < i ==> selected@[j] == output_ranges(ranges, es)[j],
        decreases selection.ranges.len() - i,
    {
        let r = selection.ranges[i];
        let k: usize = if piped {
            i
        } else {
            0
        };
        proof {
            assert(ranges[i as int].within(text@.len() as int));
            assert(ranges[k as int].within(text@.len() as int));
            if i > 0 {
                assert(ranges[i - 1].hi() <= ranges[i as int].lo());
            }
            assert(es.take(i + 1).drop_last() =~= es.take(i as int));
            lemma_inserted_prefix(es, i + 1);
        }
        let output = trim_output(text, &selection.ranges[k], &outputs[k]);
        let len = output.len();
        let from = match behavior {
            ShellBehavior::Append => r.to(),
            _ => r.from(),
        };
        let to = match behavior {
            ShellBehavior::Replace | ShellBehavior::Append => r.to(),
            _ => r.from(),
        };
        let at = from - removed + added;
        selected.push(Range::new(at, at + len).with_direction(r.direction()));
        let change = Change { from, to, text: output };
        proof {
            assert(change@ == es[i as int]);
            lemma_edits_push(changes@, change);
            lemma_valid_push(edits(changes@), change@, text@.len() as int);
            assert(es.take(i + 1) =~= es.take(i as int).push(es[i as int]));
        }
        changes.push(change);
        added += len;
        removed += to - from;
        i += 1;
    }
    assert(es.take(i as int) =~= es);
    assert(selected@ =~= output_ranges(ranges, es));
    let after = Selection::new(selected, selection.primary_index);
    Some(Transaction { changes, selection: Some(after) })
}

/// The selected ranges hold the output of the command.
pub proof fn output_is_selected(s: Seq<char>, ranges: Seq<Range>, es: Seq<Edit>, i: int)
    requires
        valid_edits(es, s.len() as int),
        es.len() == ranges.len(),
        0 <= i < es.len(),
        s.len() + inserted(es) <= usize::MAX,
    ensures
        ({
            let r = output_ranges(ranges, es)[i];
            &&& r.within(applied(s, es).len() as int)
            &&& applied(s, es).subrange(r.lo(), r.hi()) == es[i].text
        }),
{
    inserted_text_stands(s, es, i);
    changed_length(s, es);
    lemma_growth_bounds(es, s.len() as int);
}

/// Whether the shell prompt runs its command.
pub fn shell_prompt(event: PromptEvent, input_is_empty: bool) -> (runs: bool)
    ensures
        runs == (event == PromptEvent::Validate && !input_is_empty),
{
    match event {
        PromptEvent::Validate => !input_is_empty,
        _ => false,
    }
}

/// The output loses one line ending, where it ends with one and the input did not, and nothing
/// else.
pub proof fn only_an_added_line_ending_is_dropped(input: Seq<char>, output: Seq<char>)
    ensures
        ({
            let out = trimmed_output(input, output);
            &&& input.len() > 0 && input.last() == '\n' ==> out == output
            &&& output.len() == 0 || output.last() != '\n' ==> out == output
            &&& !(input.len() > 0 && input.last() == '\n') && output.len() > 0 && output.last()
                == '\n' ==> output == out + seq!['\n'] || output == out + seq!['\r', '\n']
            &&& !(input.len() > 0 && input.last() == '\n') && output.len() > 1 && output.last()
                == '\n' && output[output.len() - 2] == '\r' ==> output == out + seq!['\r', '\n']
        }),
{
    let out = trimmed_output(input, output);
    if !(input.len() > 0 && input.last() == '\n') && output.len() > 0 && output.last() == '\n' {
        let cut = output.drop_last();
        assert(output =~= cut + seq!['\n']);
        if cut.len() > 0 && cut.last() == '\r' {
            assert(output =~= out + seq!['\r', '\n']);
        }
    }
}

/// The output of a command takes the place of what was piped into it, or stands right before or
/// right behind the selection. Where nothing is piped, every selection is given the one output.
pub proof fn output_goes_to_its_place(
    s: Seq<char>,
    r: Range,
    outputs: Seq<Vec<char>>,
    behavior: ShellBehavior,
)
    requires
        r.within(s.len() as int),
        outputs.len() > 0,
    ensures
        ({
            let out = trimmed_output(s.subrange(r.lo(), r.hi()), outputs[0]@);
            let after = applied(s, shell_edits(s, seq![r], outputs, behavior));
            match behavior {
                ShellBehavior::Replace => after == s.take(r.lo()) + out + s.skip(r.hi()),
                ShellBehavior::Insert => after == s.take(r.lo()) + out + s.skip(r.lo()),
                ShellBehavior::Append => after == s.take(r.hi()) + out + s.skip(r.hi()),
                ShellBehavior::Ignore => true,
            }
        }),
{
    let es = shell_edits(s, seq![r], outputs, behavior);
    let e = es[0];
    assert(es.drop_last() =~= Seq::<Edit>::empty());
    assert(es.last() == e);
    assert(applied(s.take(e.from), es.drop_last()) == s.take(e.from));
}

/// Selections that are piped are each given their own output; others are all given the first.
pub proof fn outputs_belong_to_their_selections(
    s: Seq<char>,
    ranges: Seq<Range>,
    outputs: Seq<Vec<char>>,
    i: int,
)
    requires
        0 <= i < ranges.len(),
        outputs.len() == ranges.len(),
    ensures
        shell_edits(s, ranges, outputs, ShellBehavior::Replace)[i].text == trimmed_output(
            s.subrange(ranges[i].lo(), ranges[i].hi()),
            outputs[i]@,
        ),
        shell_edits(s, ranges, outputs, ShellBehavior::Insert)[i].text == trimmed_output(
            s.subrange(ranges[0].lo(), ranges[0].hi()),
            outputs[0]@,
        ),
        shell_edits(s, ranges, outputs, ShellBehavior::Append)[i].text == shell_edits(
            s,
            ranges,
            outputs,
            ShellBehavior::Insert,
        )[0].text,
{
}

/// The selections are piped into a command whose output takes their place or is not shown, and not
/// into one whose output is put in beside them.
pub proof fn output_beside_the_selections_needs_no_input(behavior: ShellBehavior)
    ensures
        behavior.piped() <==> !(behavior is Insert || behavior is Append),
{
}

} // verus!
