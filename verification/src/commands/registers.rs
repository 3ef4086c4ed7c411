//! Registers: yanking to them, pasting from them, copying, setting and clearing them.

use crate::commands::editing::{
    fragment_views, fragments, lemma_range_edits, range_edits, range_spans, replace_line_endings,
    replace_ranges, with_endings,
};
use crate::commands::insert::lemma_cursors_ordered;
use crate::mode::Mode;
use crate::range::{cursor_lies_in_range, min, range, Range};
use crate::selection::{all_within, ordered, Selection};
use crate::strings::{decimal, to_chars, to_decimal, views};
use crate::text::{
    lemma_line_start_monotonic, lemma_newlines_prefix_le, line_count, line_of, line_start, newlines,
    LineEnding, Text,
};
use crate::transaction::{
    append, applied, changed_length, changes_are_undone, deletion_edits, edits, growth, inserted,
    inserted_text_stands, inverse, lemma_changed_front, lemma_edits_push, lemma_inserted_prefix,
    lemma_valid_push, repeat, repeated, valid_edits, Change, Edit, Transaction,
};
use vstd::prelude::*;

verus! {

/// The register that searches use unless another is chosen.
pub const SEARCH_REGISTER: char = '/';

/// The register that stands for the clipboard.
pub const CLIPBOARD: char = '+';

/// The register that stands for the primary clipboard.
pub const PRIMARY_CLIPBOARD: char = '*';

/// The chosen register, or the usual one where none is chosen.
pub open spec fn chosen_or(register: Option<char>, usual: char) -> char {
    match register {
        Some(register) => register,
        None => usual,
    }
}

/// The register of a command that takes a pattern: searching, searching the workspace, searching
/// for the selection, and selecting, splitting, keeping and removing by a pattern.
pub fn search_register(register: Option<char>) -> (used: char)
    ensures
        used == chosen_or(register, SEARCH_REGISTER),
{
    match register {
        Some(register) => register,
        None => SEARCH_REGISTER,
    }
}

/// The register of a command that goes on with a search: that of the last search, unless another
/// is chosen.
pub fn repeated_search_register(register: Option<char>, last_search: char) -> (used: char)
    ensures
        used == chosen_or(register, last_search),
{
    match register {
        Some(register) => register,
        None => last_search,
    }
}

/// Where a command that yanks, pastes or replaces finds its text.
#[derive(Clone, Copy, Debug, PartialEq, Eq, Structural)]
pub enum YankTarget {
    /// In the chosen register, or in the one that the configuration names.
    Register(Option<char>),
    Clipboard,
    PrimaryClipboard,
}

/// The register of a command that yanks, pastes or replaces. `default_yank` is the one that the
/// configuration names.
pub fn yank_register(target: YankTarget, default_yank: char) -> (used: char)
    ensures
        used == (match target {
            YankTarget::Register(register) => chosen_or(register, default_yank),
            YankTarget::Clipboard => CLIPBOARD,
            YankTarget::PrimaryClipboard => PRIMARY_CLIPBOARD,
        }),
{
    match target {
        YankTarget::Register(Some(register)) => register,
        YankTarget::Register(None) => default_yank,
        YankTarget::Clipboard => CLIPBOARD,
        YankTarget::PrimaryClipboard => PRIMARY_CLIPBOARD,
    }
}

/// The ending of a word that counts `n` things.
pub open spec fn plural(n: nat) -> Seq<char> {
    if n == 1 {
        ""@
    } else {
        "s"@
    }
}

/// The ending of a word that counts `n` things.
pub fn plural_ending(n: usize) -> (s: &'static str)
    ensures
        s@ == plural(n as nat),
{
    if n == 1 {
        ""
    } else {
        "s"
    }
}

/// Reports that selections were yanked.
pub fn yanked_message(joined: bool, n: usize, register: char) -> (m: String)
    ensures
        m@ == (if joined {
            "joined and yanked "@
        } else {
            "yanked "@
        }) + decimal(n as nat) + " selection"@ + plural(n as nat) + " to register "@ + seq![
            register,
        ],
{
    let mut m = String::from_str(
        if joined {
            "joined and yanked "
        } else {
            "yanked "
        },
    );
    m.append(to_decimal(n).as_str());
    m.append(" selection");
    m.append(plural_ending(n));
    m.append(" to register ");
    m.push(register);
    assert(m@ =~= (if joined {
        "joined and yanked "@
    } else {
        "yanked "@
    }) + decimal(n as nat) + " selection"@ + plural(n as nat) + " to register "@ + seq![register]);
    m
}

/// Reports that the primary selection was yanked.
pub fn yanked_primary_message(register: char) -> (m: String)
    ensures
        m@ == "yanked primary selection to register "@ + seq![register],
{
    let mut m = String::from_str("yanked primary selection to register ");
    m.push(register);
    assert(m@ =~= "yanked primary selection to register "@ + seq![register]);
    m
}

/// What is yanked: the text of every selected range, and the report of it.
pub fn yank_impl(text: &Text, selection: &Selection, register: char) -> (yanked: (
    Vec<Vec<char>>,
    String,
))
    requires
        selection.within(text@.len() as int),
    ensures
        views(yanked.0@) == fragment_views(text@, selection.ranges@),
        yanked.1@ == "yanked "@ + decimal(selection.ranges@.len()) + " selection"@ + plural(
            selection.ranges@.len(),
        ) + " to register "@ + seq![register],
{
    let values = fragments(text, selection);
    let message = yanked_message(false, selection.ranges.len(), register);
    (values, message)
}

/// Texts with a separator between them; there is none before the first text that is not empty.
pub open spec fn joined_fragments(parts: Seq<Seq<char>>, separator: Seq<char>) -> Seq<char>
    decreases parts.len(),
{
    if parts.len() == 0 {
        Seq::empty()
    } else {
        let before = joined_fragments(parts.drop_last(), separator);
        if before.len() > 0 {
            before + separator + parts.last()
        } else {
            before + parts.last()
        }
    }
}

/// What is yanked when the selections are joined, and the report of it.
pub fn yank_joined_impl(text: &Text, selection: &Selection, separator: &Vec<char>, register: char) -> (
yanked: (Vec<char>, String))
    requires
        selection.within(text@.len() as int),
    ensures
        yanked.0@ == joined_fragments(fragment_views(text@, selection.ranges@), separator@),
        yanked.1@ == "joined and yanked "@ + decimal(selection.ranges@.len()) + " selection"@
            + plural(selection.ranges@.len()) + " to register "@ + seq![register],
{
    let parts = fragments(text, selection);
    let ghost all = views(parts@);
    let mut joined: Vec<char> = Vec::new();
    let mut i: usize = 0;
    assert(all.take(0) =~= Seq::<Seq<char>>::empty());
    assert(all.len() == parts@.len());
    while i < parts.len()
        invariant
            i <= parts@.len() == all.len(),
            all == views(parts@),
            joined@ == joined_fragments(all.take(i as int), separator@),
        decreases parts.len() - i,
    {
        assert(all.take(i + 1).drop_last() =~= all.take(i as int));
        assert(all[i as int] == parts@[i as int]@);
        if joined.len() > 0 {
            append(&mut joined, separator);
        }
        append(&mut joined, &parts[i]);
        i += 1;
    }
    assert(all.take(i as int) =~= all);
    let message = yanked_message(true, selection.ranges.len(), register);
    (joined, message)
}

/// What is yanked of the primary selection, and the report of it.
pub fn yank_main_selection_to_register(text: &Text, selection: &Selection, register: char) -> (
yanked: (Vec<char>, String))
    requires
        selection.wf(),
        selection.within(text@.len() as int),
    ensures
        ({
            let r = selection.ranges@[selection.primary_index as int];
            yanked.0@ == text@.subrange(r.lo(), r.hi())
        }),
        yanked.1@ == "yanked primary selection to register "@ + seq![register],
{
    let r = selection.primary();
    assert(selection.ranges@[selection.primary_index as int].within(text@.len() as int));
    let value = r.fragment(text);
    (value, yanked_primary_message(register))
}

/// Where text is pasted.
#[derive(Clone, Copy, Debug, PartialEq, Eq, Structural)]
pub enum Paste {
    Before,
    After,
    Cursor,
}

/// Some value ends with a line ending: then whole lines are pasted.
pub open spec fn pastes_lines(values: Seq<Vec<char>>) -> bool {
    exists|i: int| 0 <= i < values.len() && ends_line(#[trigger] values[i]@)
}

/// A text that ends with a line feed.
pub open spec fn ends_line(s: Seq<char>) -> bool {
    s.len() > 0 && s.last() == '\n'
}

fn any_ends_line(values: &Vec<Vec<char>>) -> (b: bool)
    ensures
        b == pastes_lines(values@),
{
    let mut i: usize = 0;
    while i < values.len()
        invariant
            i <= values@.len(),
            forall|j: int| 0 <= j < i ==> !ends_line(#[trigger] values@[j]@),
        decreases values.len() - i,
    {
        let n = values[i].len();
        if n > 0 && values[i][n - 1] == '\n' {
            assert(ends_line(values@[i as int]@));
            return true;
        }
        i += 1;
    }
    false
}

/// What is pasted at the range at place `i`: its value, or the last one where there are fewer,
/// with the document's line endings, `count` times.
pub open spec fn pasted_value(values: Seq<Vec<char>>, ending: Seq<char>, count: nat, i: int) -> Seq<
    char,
> {
    repeated(with_endings(values[min(i, values.len() - 1)]@, ending), count)
}

fn value_to_paste(values: &Vec<Vec<char>>, ending: &Vec<char>, count: usize, i: usize) -> (value: Vec<
    char,
>)
    requires
        values@.len() > 0,
    ensures
        value@ == pasted_value(values@, ending@, count as nat, i as int),
{
    let k = if i < values.len() {
        i
    } else {
        values.len() - 1
    };
    repeat(&replace_line_endings(&values[k], ending), count)
}

/// Where the text for a range is pasted.
pub open spec fn paste_position(text: Text, r: Range, action: Paste, linewise: bool) -> int {
    match action {
        Paste::Before => if linewise {
            line_start(text@, line_of(text@, r.lo()))
        } else {
            r.lo()
        },
        Paste::After => if linewise {
            line_start(text@, min(r.lines(text).1 + 1, line_count(text@)))
        } else {
            r.hi()
        },
        Paste::Cursor => r.cursor_in(text),
    }
}

fn position_to_paste(text: &Text, r: &Range, action: Paste, linewise: bool) -> (pos: usize)
    requires
        text.wf(),
        text@.len() < usize::MAX,
        r.within(text@.len() as int),
    ensures
        pos == paste_position(*text, *r, action, linewise),
        pos <= text@.len(),
{
    match action {
        Paste::Before => if linewise {
            text.line_to_char(text.char_to_line(r.from()))
        } else {
            r.from()
        },
        Paste::After => if linewise {
            let (_, last) = r.line_range(text);
            let count = text.len_lines();
            proof {
                lemma_last(*text, *r);
            }
            text.line_to_char(
                if last + 1 <= count {
                    last + 1
                } else {
                    count
                },
            )
        } else {
            r.to()
        },
        Paste::Cursor => r.cursor(text),
    }
}

proof fn lemma_last(text: Text, r: Range)
    requires
        text.wf(),
        r.within(text@.len() as int),
    ensures
        0 <= r.lines(text).0 <= r.lines(text).1 <= newlines(text@) <= text@.len(),
        r.lo() <= r.last_position(text) <= r.hi(),
{
    let s = text@;
    let at = r.last_position(text);
    crate::text::lemma_prev_boundary(text, r.hi());
    lemma_newlines_prefix_le(s, r.lo(), at);
    lemma_newlines_prefix_le(s, at, s.len() as int);
    lemma_newlines_prefix_le(s, 0, s.len() as int);
    assert(s.take(0) =~= Seq::<char>::empty());
    assert(s.take(s.len() as int) =~= s);
}

/// Texts are pasted in the order of their ranges.
proof fn lemma_paste_order(
    text: Text,
    ranges: Seq<Range>,
    i: int,
    j: int,
    action: Paste,
    linewise: bool,
)
    requires
        text.wf(),
        ordered(ranges),
        forall|k: int| 0 <= k < ranges.len() ==> (#[trigger] ranges[k]).fits(text),
        0 <= i < j < ranges.len(),
    ensures
        paste_position(text, ranges[i], action, linewise) <= paste_position(
            text,
            ranges[j],
            action,
            linewise,
        ),
{
    let a = ranges[i];
    let b = ranges[j];
    cursor_lies_in_range(a, text);
    cursor_lies_in_range(b, text);
    lemma_cursors_ordered(text, ranges, i, j);
    if linewise {
        lemma_last(text, a);
        lemma_last(text, b);
        lemma_newlines_prefix_le(text@, a.lo(), b.lo());
        lemma_newlines_prefix_le(text@, a.last_position(text), b.last_position(text));
        lemma_line_start_monotonic(text@, line_of(text@, a.lo()), line_of(text@, b.lo()));
        lemma_line_start_monotonic(
            text@,
            min(a.lines(text).1 + 1, line_count(text@)),
            min(b.lines(text).1 + 1, line_count(text@)),
        );
    }
}

/// What pasting does.
pub open spec fn paste_edits(
    text: Text,
    ranges: Seq<Range>,
    values: Seq<Vec<char>>,
    ending: Seq<char>,
    action: Paste,
    count: nat,
) -> Seq<Edit> {
    Seq::new(
        ranges.len(),
        |i: int|
            {
                let at = paste_position(text, ranges[i], action, pastes_lines(values));
                Edit { from: at, to: at, text: pasted_value(values, ending, count, i) }
            },
    )
}

/// The ranges of what was pasted, each facing as the range it was pasted at.
pub open spec fn pasted_ranges(ranges: Seq<Range>, es: Seq<Edit>) -> Seq<Range> {
    Seq::new(
        ranges.len(),
        |i: int|
            {
                let at = es[i].from + inserted(es.take(i));
                range(at, at + es[i].text.len()).facing(ranges[i].faces())
            },
    )
}

/// Pastes values at the selected ranges. In normal mode what was pasted is selected.
pub fn paste_impl(
    text: &Text,
    selection: &Selection,
    values: &Vec<Vec<char>>,
    ending: LineEnding,
    action: Paste,
    count: usize,
    mode: Mode,
) -> (t: Option<Transaction>)
    requires
        text.wf(),
        text@.len() < usize::MAX,
        selection.wf(),
        selection.fits(*text),
        count >= 1,
        text@.len() + inserted(
            paste_edits(*text, selection.ranges@, values@, ending.chars(), action, count as nat),
        ) <= usize::MAX,
    ensures
        t is Some <==> values@.len() > 0,
        t matches Some(t) ==> {
            let es = paste_edits(
                *text,
                selection.ranges@,
                values@,
                ending.chars(),
                action,
                count as nat,
            );
            &&& t.edits() == es
            &&& valid_edits(es, text@.len() as int)
            &&& t.selection is Some <==> mode == Mode::Normal
            &&& t.selection matches Some(s) ==> s.wf() && s.holds(
                pasted_ranges(selection.ranges@, es),
                selection.primary_index as int,
            )
        },
{
    if values.len() == 0 {
        return None;
    }
    let linewise = any_ends_line(values);
    let chars = ending.as_chars();
    let ghost ranges = selection.ranges@;
    let ghost es = paste_edits(*text, ranges, values@, chars@, action, count as nat);
    let mut changes: Vec<Change> = Vec::new();
    let mut pasted: Vec<Range> = Vec::new();
    let mut offset: usize = 0;
    let mut i: usize = 0;
    assert(es.take(0) =~= Seq::<Edit>::empty());
    assert(edits(changes@) =~= es.take(0));
    while i < selection.ranges.len()
        invariant
            i <= ranges.len(),
            ranges == selection.ranges@,
            ordered(ranges),
            selection.fits(*text),
            text.wf(),
            text@.len() < usize::MAX,
            values@.len() > 0,
            linewise == pastes_lines(values@),
            es == paste_edits(*text, ranges, values@, chars@, action, count as nat),
            text@.len() + inserted(es) <= usize::MAX,
            offset == inserted(es.take(i as int)),
            edits(changes@) == es.take(i as int),
            valid_edits(edits(changes@), text@.len() as int),
            pasted@.len() == i,
            forall|j: int| 0 <= j < i ==> pasted@[j] == pasted_ranges(ranges, es)[j],
        decreases selection.ranges.len() - i,
    {
        let r = selection.ranges[i];
        proof {
            assert(ranges[i as int].fits(*text));
            cursor_lies_in_range(r, *text);
            if i > 0 {
                lemma_paste_order(*text, ranges, i - 1, i as int, action, linewise);
            }
            lemma_inserted_prefix(es, i + 1);
            assert(es.take(i + 1).drop_last() =~= es.take(i as int));
        }
        let pos = position_to_paste(text, &r, action, linewise);
        let value = value_to_paste(values, &chars, count, i);
        let len = value.len();
        let at = offset + pos;
        pasted.push(Range::new(at, at + len).with_direction(r.direction()));
        offset += len;
        let change = Change { from: pos, to: pos, text: value };
        proof {
            assert(change@ == es[i as int]);
            lemma_edits_push(changes@, change);
            lemma_valid_push(edits(changes@), change@, text@.len() as int);
            assert(es.take(i + 1) =~= es.take(i as int).push(es[i as int]));
        }
        changes.push(change);
        i += 1;
    }
    assert(es.take(i as int) =~= es);
    assert(pasted@ =~= pasted_ranges(ranges, es));
    let after = if mode == Mode::Normal {
        Some(Selection::new(pasted, selection.primary_index))
    } else {
        None
    };
    Some(Transaction { changes, selection: after })
}

proof fn lemma_growth_of_insertions(es: Seq<Edit>)
    requires
        forall|i: int| 0 <= i < es.len() ==> (#[trigger] es[i]).from == es[i].to,
    ensures
        growth(es) == inserted(es),
    decreases es.len(),
{
    if es.len() > 0 {
        assert(es[es.len() - 1].from == es[es.len() - 1].to);
        let rest = es.drop_last();
        assert forall|i: int| 0 <= i < rest.len() implies (#[trigger] rest[i]).from == rest[i].to by {
            assert(es[i].from == es[i].to);
        }
        lemma_growth_of_insertions(rest);
    }
}

/// After pasting in normal mode, each selected range holds what was pasted for it.
pub proof fn pasted_text_is_selected(s: Seq<char>, ranges: Seq<Range>, es: Seq<Edit>, i: int)
    requires
        valid_edits(es, s.len() as int),
        es.len() == ranges.len(),
        forall|k: int| 0 <= k < es.len() ==> (#[trigger] es[k]).from == es[k].to,
        0 <= i < es.len(),
        s.len() + inserted(es) <= usize::MAX,
    ensures
        ({
            let r = pasted_ranges(ranges, es)[i];
            &&& r.within(applied(s, es).len() as int)
            &&& applied(s, es).subrange(r.lo(), r.hi()) == es[i].text
        }),
{
    inserted_text_stands(s, es, i);
    let before = es.take(i);
    assert forall|k: int| 0 <= k < before.len() implies (#[trigger] before[k]).from
        == before[k].to by {
        assert(es[k].from == es[k].to);
    }
    lemma_growth_of_insertions(before);
    lemma_growth_of_insertions(es);
    crate::transaction::changed_length(s, es);
}

/// Where a text that the terminal hands over is pasted.
pub fn bracketed_paste(mode: Mode) -> (action: Paste)
    ensures
        action == match mode {
            Mode::Normal => Paste::Before,
            _ => Paste::Cursor,
        },
{
    match mode {
        Mode::Insert | Mode::Select => Paste::Cursor,
        Mode::Normal => Paste::Before,
    }
}

/// How many of the first `n` ranges are not empty.
pub open spec fn filled(ranges: Seq<Range>, n: nat) -> nat
    decreases n,
{
    if n == 0 {
        0
    } else {
        filled(ranges, (n - 1) as nat) + if ranges[n - 1].anchor != ranges[n - 1].head {
            1nat
        } else {
            0nat
        }
    }
}

/// What takes the place of the range at place `i`: the next value for a range that is not empty,
/// nothing for an empty one.
pub open spec fn register_text(
    ranges: Seq<Range>,
    values: Seq<Vec<char>>,
    ending: Seq<char>,
    count: nat,
    i: int,
) -> Seq<char> {
    if ranges[i].anchor != ranges[i].head {
        pasted_value(values, ending, count, filled(ranges, i as nat) as int)
    } else {
        Seq::empty()
    }
}

/// Puts the values of a register in the place of the selected ranges.
pub fn replace_selections_with_register(
    text: &Text,
    selection: &Selection,
    values: &Vec<Vec<char>>,
    ending: LineEnding,
    count: usize,
) -> (t: Option<Transaction>)
    requires
        selection.wf(),
        selection.within(text@.len() as int),
        count >= 1,
    ensures
        t is Some <==> values@.len() > 0,
        t matches Some(t) ==> {
            &&& t.edits() == range_edits(
                selection.ranges@,
                Seq::new(
                    selection.ranges@.len(),
                    |i: int|
                        register_text(
                            selection.ranges@,
                            values@,
                            ending.chars(),
                            count as nat,
                            i,
                        ),
                ),
            )
            &&& valid_edits(t.edits(), text@.len() as int)
            &&& t.selection is None
        },
{
    if values.len() == 0 {
        return None;
    }
    let chars = ending.as_chars();
    let ghost ranges = selection.ranges@;
    let ghost wanted = Seq::new(
        ranges.len(),
        |i: int| register_text(ranges, values@, ending.chars(), count as nat, i),
    );
    let mut texts: Vec<Vec<char>> = Vec::new();
    let mut used: usize = 0;
    let mut i: usize = 0;
    while i < selection.ranges.len()
        invariant
            i <= ranges.len(),
            ranges == selection.ranges@,
            values@.len() > 0,
            chars@ == ending.chars(),
            wanted == Seq::new(
                ranges.len(),
                |i: int| register_text(ranges, values@, ending.chars(), count as nat, i),
            ),
            used <= i,
            used == filled(ranges, i as nat),
            texts@.len() == i,
            forall|j: int| 0 <= j < i ==> (#[trigger] texts@[j])@ == wanted[j],
        decreases selection.ranges.len() - i,
    {
        if !selection.ranges[i].is_empty() {
            texts.push(value_to_paste(values, &chars, count, used));
            used += 1;
        } else {
            let empty: Vec<char> = Vec::new();
            assert(empty@ =~= Seq::<char>::empty());
            texts.push(empty);
        }
        i += 1;
    }
    assert(views(texts@) =~= wanted);
    proof {
        lemma_range_edits(ranges, wanted, text@.len() as int);
    }
    Some(Transaction { changes: replace_ranges(&selection.ranges, &texts), selection: None })
}

/// Reports that values were copied from one register to another.
pub fn copied_message(n: usize, source: char, dest: char) -> (m: String)
    ensures
        m@ == "yanked "@ + decimal(n as nat) + " value"@ + plural(n as nat) + " from register "@
            + seq![source] + " to "@ + seq![dest],
{
    let mut m = String::from_str("yanked ");
    m.append(to_decimal(n).as_str());
    m.append(" value");
    m.append(plural_ending(n));
    m.append(" from register ");
    m.push(source);
    m.append(" to ");
    m.push(dest);
    assert(m@ =~= "yanked "@ + decimal(n as nat) + " value"@ + plural(n as nat)
        + " from register "@ + seq![source] + " to "@ + seq![dest]);
    m
}

/// The state of copying from one register to another.
pub enum RegisterCopy {
    /// Which register to copy from was asked.
    Source,
    /// Which register to copy into was asked; the values are those of the first.
    Dest(char, Vec<Vec<char>>),
}

/// What a key does while registers are copied.
pub enum CopyStep {
    /// The copying ends.
    Stop,
    /// The first register holds nothing.
    Empty(String),
    /// The register to copy into is asked for.
    Ask(RegisterCopy),
    /// The values are written to a register; the message reports it.
    Write(char, Vec<Vec<char>>, String),
}

/// Takes the next key of copying from one register to another: `held` is what the register of that
/// name holds.
pub fn copy_between_registers(
    state: RegisterCopy,
    key: Option<char>,
    held: Option<Vec<Vec<char>>>,
) -> (step: CopyStep)
    ensures
        match state {
            RegisterCopy::Source => match (key, held) {
                (None, _) => step is Stop,
                (Some(c), None) => step matches CopyStep::Empty(m) && m@ == "register "@ + seq![c]
                    + " is empty"@,
                (Some(c), Some(values)) => step == CopyStep::Ask(RegisterCopy::Dest(c, values)),
            },
            RegisterCopy::Dest(source, values) => match key {
                None => step is Stop,
                Some(dest) => step matches CopyStep::Write(c, written, m) && c == dest && written
                    == values && m@ == "yanked "@ + decimal(values@.len()) + " value"@ + plural(
                    values@.len(),
                ) + " from register "@ + seq![source] + " to "@ + seq![dest],
            },
        },
{
    match state {
        RegisterCopy::Source => match key {
            None => CopyStep::Stop,
            Some(c) => match held {
                None => {
                    let mut m = String::from_str("register ");
                    m.push(c);
                    m.append(" is empty");
                    assert(m@ =~= "register "@ + seq![c] + " is empty"@);
                    CopyStep::Empty(m)
                },
                Some(values) => CopyStep::Ask(RegisterCopy::Dest(c, values)),
            },
        },
        RegisterCopy::Dest(source, values) => match key {
            None => CopyStep::Stop,
            Some(dest) => {
                let m = copied_message(values.len(), source, dest);
                CopyStep::Write(dest, values, m)
            },
        },
    }
}

/// The register that an argument names: it is a single character.
pub open spec fn register_named(arg: Seq<char>) -> Option<char> {
    if arg.len() == 1 {
        Some(arg[0])
    } else {
        None
    }
}

/// Reads the name of a register.
pub fn parse_register(arg: &str) -> (register: Result<char, String>)
    ensures
        match register {
            Ok(c) => register_named(arg@) == Some(c),
            Err(m) => register_named(arg@) is None && m@ == "Invalid register "@ + arg@,
        },
{
    let chars = to_chars(arg);
    if chars.len() == 1 {
        return Ok(chars[0]);
    }
    let mut m = String::from_str("Invalid register ");
    m.append(arg);
    Err(m)
}

/// What clearing registers does.
pub enum ClearRegister {
    All,
    One(char),
}

/// Which registers are cleared: all without an argument, else the one that it names.
pub fn clear_register(args: &Vec<String>) -> (cleared: Result<ClearRegister, String>)
    ensures
        match cleared {
            Ok(ClearRegister::All) => args@.len() == 0,
            Ok(ClearRegister::One(c)) => args@.len() > 0 && register_named(args@[0]@) == Some(c),
            Err(m) => args@.len() > 0 && register_named(args@[0]@) is None && m@
                == "Invalid register "@ + args@[0]@,
        },
{
    if args.len() == 0 {
        return Ok(ClearRegister::All);
    }
    match parse_register(args[0].as_str()) {
        Ok(c) => Ok(ClearRegister::One(c)),
        Err(m) => Err(m),
    }
}

/// Reports whether a register was cleared.
pub fn cleared_message(cleared: &ClearRegister, found: bool) -> (m: String)
    ensures
        m@ == match cleared {
            ClearRegister::All => "All registers cleared"@,
            ClearRegister::One(c) => if found {
                "Register "@ + seq![*c] + " cleared"@
            } else {
                "Register "@ + seq![*c] + " not found"@
            },
        },
{
    match cleared {
        ClearRegister::All => String::from_str("All registers cleared"),
        ClearRegister::One(c) => {
            let mut m = String::from_str("Register ");
            m.push(*c);
            if found {
                m.append(" cleared");
                assert(m@ =~= "Register "@ + seq![*c] + " cleared"@);
            } else {
                m.append(" not found");
                assert(m@ =~= "Register "@ + seq![*c] + " not found"@);
            }
            m
        },
    }
}

/// Position `p` begins a line.
pub open spec fn begins_line(s: Seq<char>, p: int) -> bool {
    p == 0 || s[p - 1] == '\n'
}

proof fn lemma_line_begins(s: Seq<char>, p: int)
    requires
        0 <= p <= s.len(),
        begins_line(s, p),
    ensures
        line_start(s, line_of(s, p)) == p,
{
    let line = line_of(s, p);
    crate::text::lemma_line_of_bounds(s, p);
    crate::text::lemma_line_start_counts(s, line);
    let start = line_start(s, line);
    if start < p {
        crate::text::lemma_newlines_prefix_le(s, start, p - 1);
        assert(s.take(p).drop_last() =~= s.take(p - 1));
        assert(s.take(p).last() == '\n');
    }
}

/// The edits of deleting ranges that do not overlap.
pub open spec fn range_deletions(ranges: Seq<Range>) -> Seq<Edit> {
    ranges.map_values(|r: Range| Edit { from: r.lo(), to: r.hi(), text: Seq::empty() })
}

proof fn lemma_range_deletions(ranges: Seq<Range>)
    requires
        ordered(ranges),
    ensures
        deletion_edits(range_spans(ranges)).0 == range_deletions(ranges),
        ranges.len() > 0 ==> deletion_edits(range_spans(ranges)).1 == ranges.last().hi(),
        ranges.len() == 0 ==> deletion_edits(range_spans(ranges)).1 == 0,
    decreases ranges.len(),
{
    let spans = range_spans(ranges);
    if ranges.len() > 0 {
        let before = ranges.drop_last();
        assert(ordered(before)) by {
            assert forall|a: int, b: int| 0 <= a < b < before.len() implies (
            #[trigger] before[a]).lo() < (#[trigger] before[b]).lo() && before[a].hi()
                <= before[b].lo() by {
                assert(ranges[a].hi() <= ranges[b].lo());
            }
        }
        lemma_range_deletions(before);
        assert(spans.drop_last() =~= range_spans(before));
        if before.len() > 0 {
            assert(ranges[before.len() - 1].hi() <= ranges[before.len() as int].lo());
        }
        assert(range_deletions(ranges) =~= range_deletions(before).push(
            Edit { from: ranges.last().lo(), to: ranges.last().hi(), text: Seq::empty() },
        ));
    } else {
        assert(range_deletions(ranges) =~= Seq::<Edit>::empty());
    }
}

/// Where ranges stand once their text is gone.
pub open spec fn emptied(ranges: Seq<Range>) -> Seq<Range> {
    Seq::new(
        ranges.len(),
        |i: int|
            {
                let at = ranges[i].lo() + growth(range_deletions(ranges).take(i));
                range(at, at)
            },
    )
}

/// A position that begins a line still does when text before it is deleted.
proof fn lemma_still_begins(s: Seq<char>, ranges: Seq<Range>, i: int)
    requires
        ordered(ranges),
        all_within(ranges, s.len() as int),
        0 <= i < ranges.len(),
        forall|j: int|
            0 <= j < ranges.len() ==> begins_line(s, (#[trigger] ranges[j]).lo()),
    ensures
        ({
            let front = applied(s.take(ranges[i].lo()), range_deletions(ranges).take(i));
            front.len() == 0 || front.last() == '\n'
        }),
    decreases i,
{
    let es = range_deletions(ranges);
    let lo = ranges[i].lo();
    let front = applied(s.take(lo), es.take(i));
    assert(ranges[i].within(s.len() as int));
    assert(begins_line(s, ranges[i].lo()));
    if i == 0 {
        assert(es.take(0) =~= Seq::<Edit>::empty());
        assert(front == s.take(lo));
    } else {
        let before = ranges[i - 1];
        assert(before.within(s.len() as int));
        assert(before.hi() <= lo && before.lo() < lo);
        assert(es.take(i).drop_last() =~= es.take(i - 1));
        assert(es.take(i).last() == es[i - 1]);
        assert(s.take(lo).take(before.lo()) =~= s.take(before.lo()));
        let earlier = applied(s.take(before.lo()), es.take(i - 1));
        assert(front =~= earlier + s.take(lo).skip(before.hi()));
        if before.hi() < lo {
            assert(front.last() == s[lo - 1]);
        } else {
            lemma_still_begins(s, ranges, i - 1);
            assert(front =~= earlier);
        }
    }
}

/// Pasting what was deleted where it stood gives back the text. Where one of the pieces ends a
/// line, all are pasted as lines, so each has to begin one. `after` is the text without them.
pub proof fn pasting_undoes_deleting(
    text: Text,
    after: Text,
    ranges: Seq<Range>,
    values: Seq<Vec<char>>,
    ending: Seq<char>,
)
    requires
        ordered(ranges),
        all_within(ranges, text@.len() as int),
        text@.len() <= usize::MAX,
        after@ == applied(text@, deletion_edits(range_spans(ranges)).0),
        values.len() == ranges.len(),
        forall|i: int|
            0 <= i < values.len() ==> (#[trigger] values[i])@ == text@.subrange(
                ranges[i].lo(),
                ranges[i].hi(),
            ) && with_endings(values[i]@, ending) == values[i]@,
        pastes_lines(values) ==> forall|i: int|
            0 <= i < ranges.len() ==> begins_line(text@, (#[trigger] ranges[i]).lo()),
    ensures
        applied(
            after@,
            paste_edits(after, emptied(ranges), values, ending, Paste::Before, 1),
        ) == text@,
{
    let es = range_deletions(ranges);
    lemma_range_deletions(ranges);
    assert forall|i: int| 0 <= i < es.len() implies 0 <= (#[trigger] es[i]).from <= es[i].to
        <= text@.len() by {
        assert(ranges[i].within(text@.len() as int));
    }
    assert forall|i: int, j: int| 0 <= i < j < es.len() implies (#[trigger] es[i]).to <= (
    #[trigger] es[j]).from by {
        assert(ranges[i].hi() <= ranges[j].lo());
    }
    let points = emptied(ranges);
    let pasted = paste_edits(after, points, values, ending, Paste::Before, 1);
    let back = inverse(text@, es);
    changed_length(text@, es);
    assert(pasted =~= back) by {
        assert forall|i: int| 0 <= i < pasted.len() implies #[trigger] pasted[i] == back[i] by {
            assert(ranges[i].within(text@.len() as int));
            assert(values[i]@ == text@.subrange(ranges[i].lo(), ranges[i].hi()));
            let at = ranges[i].lo() + growth(es.take(i));
            lemma_changed_front(text@, es, i);
            lemma_deletions_shrink(es.take(i));
            assert(es[i].from == ranges[i].lo());
            assert(points[i].lo() == at);
            if pastes_lines(values) {
                lemma_still_begins(text@, ranges, i);
                let front = applied(text@.take(ranges[i].lo()), es.take(i));
                assert(after@.take(at) == front);
                if at > 0 {
                    assert(after@[at - 1] == front.last());
                }
                lemma_line_begins(after@, at);
            }
            assert(pasted_value(values, ending, 1, i) =~= values[i]@) by {
                reveal_with_fuel(repeated, 2);
            }
        }
    }
    changes_are_undone(text@, es);
}

proof fn lemma_deletions_shrink(es: Seq<Edit>)
    requires
        forall|i: int|
            0 <= i < es.len() ==> (#[trigger] es[i]).text.len() == 0 && es[i].from <= es[i].to,
    ensures
        growth(es) <= 0,
    decreases es.len(),
{
    if es.len() > 0 {
        let rest = es.drop_last();
        assert forall|i: int| 0 <= i < rest.len() implies (#[trigger] rest[i]).text.len() == 0
            && rest[i].from <= rest[i].to by {
            assert(rest[i] == es[i]);
        }
        lemma_deletions_shrink(rest);
        assert(es.last() == es[es.len() - 1]);
    }
}

/// A chosen register is used; the usual one only where none is chosen.
pub proof fn chosen_registers_are_used(register: Option<char>, usual: char)
    ensures
        register is Some ==> Some(chosen_or(register, usual)) == register,
        register is None ==> chosen_or(register, usual) == usual,
{
}

/// Nothing is taken away by pasting. At the cursor, the text is put in right before the character
/// that the cursor stands on. Before and after the selection, it is put in right before and right
/// after the selected text; whole lines go to the beginning of the line that the selection begins
/// in, and behind the last line that it touches.
pub proof fn texts_are_pasted_at_their_place(
    text: Text,
    ranges: Seq<Range>,
    values: Seq<Vec<char>>,
    ending: Seq<char>,
    action: Paste,
    count: nat,
    i: int,
)
    requires
        text.wf(),
        0 <= i < ranges.len(),
        ranges[i].within(text@.len() as int),
    ensures
        ({
            let e = paste_edits(text, ranges, values, ending, action, count)[i];
            let (s, r) = (text@, ranges[i]);
            let lines = exists|k: int|
                0 <= k < values.len() && (#[trigger] values[k])@.len() > 0 && values[k]@.last()
                    == '\n';
            &&& e.from == e.to
            &&& action == Paste::Cursor ==> e.from == r.cursor_in(text)
            &&& action == Paste::Before && !lines ==> e.from == r.lo()
            &&& action == Paste::After && !lines ==> e.from == r.hi()
            &&& action == Paste::Before && lines ==> 0 <= e.from <= r.lo() && (e.from == 0 || s[e.from
                - 1] == '\n') && forall|k: int| e.from <= k < r.lo() ==> s[k] != '\n'
            &&& action == Paste::After && lines ==> {
                let at = r.last_position(text);
                &&& at <= e.from <= s.len()
                &&& forall|k: int| at <= k < e.from - 1 ==> s[k] != '\n'
                &&& at < e.from && s[e.from - 1] == '\n' || (e.from == s.len() && forall|k: int|
                    at <= k < s.len() ==> s[k] != '\n')
            }
        }),
{
    let (s, r) = (text@, ranges[i]);
    let lines = exists|k: int|
        0 <= k < values.len() && (#[trigger] values[k])@.len() > 0 && values[k]@.last() == '\n';
    assert(lines == pastes_lines(values)) by {
        if lines {
            let k = choose|k: int|
                0 <= k < values.len() && (#[trigger] values[k])@.len() > 0 && values[k]@.last()
                    == '\n';
            assert(ends_line(values[k]@));
        }
    }
    if lines {
        crate::text::positions_lie_in_their_line(s, r.lo());
        crate::text::lines_lie_between_line_feeds(s, line_of(s, r.lo()));
        lemma_last(text, r);
        let at = r.last_position(text);
        let line = line_of(s, at);
        crate::text::positions_lie_in_their_line(s, at);
        crate::text::lines_lie_between_line_feeds(s, line);
        let b = line_start(s, line + 1);
        assert forall|k: int| at <= k < b - 1 implies s[k] != '\n' by {
            crate::text::lemma_line_has_no_inner_feed(s, line, k);
        }
    }
}

/// Pasting at one range: the text stands between what stood before the place and what stood
/// behind it.
pub proof fn pasted_text_stands_between(
    text: Text,
    r: Range,
    values: Seq<Vec<char>>,
    ending: Seq<char>,
    action: Paste,
    count: nat,
)
    requires
        text.wf(),
        r.within(text@.len() as int),
    ensures
        ({
            let es = paste_edits(text, seq![r], values, ending, action, count);
            let after = applied(text@, es);
            let at = es[0].from;
            &&& action == Paste::Cursor ==> at == r.cursor_in(text)
            &&& after == text@.take(at) + pasted_value(values, ending, count, 0) + text@.skip(at)
        }),
{
    let es = paste_edits(text, seq![r], values, ending, action, count);
    let e = es[0];
    assert(es.drop_last() =~= Seq::<Edit>::empty());
    assert(es.last() == e);
    assert(applied(text@.take(e.from), es.drop_last()) == text@.take(e.from));
}

/// Each range is given the value at its place, and those for which there is none the last one;
/// as often as the count says.
pub proof fn each_range_is_given_its_value(
    values: Seq<Vec<char>>,
    ending: Seq<char>,
    count: nat,
    i: int,
)
    requires
        values.len() > 0,
        0 <= i,
    ensures
        i < values.len() ==> pasted_value(values, ending, 1, i) == with_endings(values[i]@, ending),
        i >= values.len() ==> pasted_value(values, ending, 1, i) == with_endings(
            values.last()@,
            ending,
        ),
        pasted_value(values, ending, count + 1, i) == pasted_value(values, ending, count, i)
            + pasted_value(values, ending, 1, i),
        pasted_value(values, ending, 0, i) == Seq::<char>::empty(),
{
    let k = if i < values.len() {
        i
    } else {
        values.len() - 1
    };
    crate::transaction::repeated_texts_repeat(with_endings(values[k]@, ending), count, 1);
}

/// Of the ranges that a register replaces, the first one that is not empty is given the first
/// value, and each further one the value after that of the one before it; empty ranges stay empty.
pub proof fn values_are_dealt_out_in_order(
    ranges: Seq<Range>,
    values: Seq<Vec<char>>,
    ending: Seq<char>,
    i: int,
    j: int,
)
    requires
        values.len() > 0,
        0 <= i < j < ranges.len(),
        ranges[i].anchor != ranges[i].head,
        forall|k: int| i < k < j ==> (#[trigger] ranges[k]).anchor == ranges[k].head,
    ensures
        filled(ranges, j as nat) == filled(ranges, i as nat) + 1,
        ranges[j].anchor == ranges[j].head ==> register_text(ranges, values, ending, 1, j)
            == Seq::<char>::empty(),
        ranges[j].anchor != ranges[j].head && filled(ranges, i as nat) + 1 < values.len()
            ==> register_text(ranges, values, ending, 1, j) == with_endings(
            values[(filled(ranges, i as nat) + 1) as int]@,
            ending,
        ),
        (forall|k: int| 0 <= k < i ==> (#[trigger] ranges[k]).anchor == ranges[k].head)
            ==> register_text(ranges, values, ending, 1, i) == with_endings(values[0]@, ending),
    decreases j,
{
    if j - 1 > i {
        assert(ranges[j - 1].anchor == ranges[j - 1].head);
        lemma_filled_step(ranges, i, j);
    } else {
        lemma_filled_step(ranges, i, j);
    }
    if forall|k: int| 0 <= k < i ==> (#[trigger] ranges[k]).anchor == ranges[k].head {
        lemma_none_filled(ranges, i);
        each_range_is_given_its_value(values, ending, 1, 0);
    }
    each_range_is_given_its_value(values, ending, 1, filled(ranges, j as nat) as int);
}

proof fn lemma_filled_step(ranges: Seq<Range>, i: int, j: int)
    requires
        0 <= i < j <= ranges.len(),
        ranges[i].anchor != ranges[i].head,
        forall|k: int| i < k < j ==> (#[trigger] ranges[k]).anchor == ranges[k].head,
    ensures
        filled(ranges, j as nat) == filled(ranges, i as nat) + 1,
    decreases j,
{
    if j - 1 > i {
        assert(ranges[j - 1].anchor == ranges[j - 1].head);
        lemma_filled_step(ranges, i, j - 1);
    }
}

proof fn lemma_none_filled(ranges: Seq<Range>, n: int)
    requires
        0 <= n <= ranges.len(),
        forall|k: int| 0 <= k < n ==> (#[trigger] ranges[k]).anchor == ranges[k].head,
    ensures
        filled(ranges, n as nat) == 0,
    decreases n,
{
    if n > 0 {
        assert(ranges[n - 1].anchor == ranges[n - 1].head);
        lemma_none_filled(ranges, n - 1);
    }
}

/// Joined texts stand one after the other with the separator between each two of them.
pub proof fn separators_stand_between_texts(
    a: Seq<Seq<char>>,
    b: Seq<Seq<char>>,
    separator: Seq<char>,
)
    requires
        a.len() > 0,
        b.len() > 0,
        forall|i: int| 0 <= i < a.len() ==> (#[trigger] a[i]).len() > 0,
        forall|i: int| 0 <= i < b.len() ==> (#[trigger] b[i]).len() > 0,
    ensures
        joined_fragments(seq![a[0]], separator) == a[0],
        joined_fragments(a + b, separator) == joined_fragments(a, separator) + separator
            + joined_fragments(b, separator),
        joined_fragments(a, separator).len() > 0,
    decreases b.len(),
{
    let one = seq![a[0]];
    assert(one.drop_last() =~= Seq::<Seq<char>>::empty());
    reveal_with_fuel(joined_fragments, 2);
    assert(joined_fragments(one, separator) =~= a[0]);
    lemma_joined_not_empty(a, separator);
    lemma_joined_not_empty(b, separator);
    assert((a + b).drop_last() =~= a + b.drop_last());
    assert((a + b).last() == b.last());
    let front = b.drop_last();
    if front.len() > 0 {
        assert forall|i: int| 0 <= i < front.len() implies (#[trigger] front[i]).len() > 0 by {
            assert(front[i] == b[i]);
        }
        separators_stand_between_texts(a, front, separator);
        lemma_joined_not_empty(front, separator);
    } else {
        assert(a + front =~= a);
        assert(joined_fragments(front, separator) =~= Seq::<char>::empty());
    }
    assert(joined_fragments(a + b, separator) =~= joined_fragments(a, separator) + separator
        + joined_fragments(b, separator));
}

proof fn lemma_joined_not_empty(a: Seq<Seq<char>>, separator: Seq<char>)
    requires
        a.len() > 0,
        forall|i: int| 0 <= i < a.len() ==> (#[trigger] a[i]).len() > 0,
    ensures
        joined_fragments(a, separator).len() > 0,
{
    assert(a[a.len() - 1].len() > 0);
}

} // verus!
