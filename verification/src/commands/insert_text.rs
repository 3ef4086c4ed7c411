//! Typing characters, tabs and blank lines, and entering insert mode at the ends of a line.

use crate::chars::{count_leading_whitespace, leading_whitespace, whitespace};
use crate::commands::insert::{lemma_cursors_ordered, Open};
use crate::range::{cursor_lies_in_range, range, Range};
use crate::selection::{ordered, Selection};
use crate::text::{line_at, line_end, line_of, line_start, LineEnding, Text};
use crate::transaction::{
    copy_chars, edits, inserted, lemma_edits_push, lemma_valid_push, repeat, repeated, valid_edits,
    Change, Edit, Transaction,
};
use vstd::prelude::*;

verus! {

/// Lines are indented by tabs, or by so many spaces.
#[derive(Clone, Copy, Debug, PartialEq, Eq, Structural)]
pub enum IndentStyle {
    Tabs,
    Spaces(u8),
}

impl IndentStyle {
    /// One to sixteen spaces, or tabs.
    pub open spec fn wf(self) -> bool {
        match self {
            IndentStyle::Tabs => true,
            IndentStyle::Spaces(n) => 1 <= n <= 16,
        }
    }

    /// One level of indentation.
    pub open spec fn unit(self) -> Seq<char> {
        match self {
            IndentStyle::Tabs => seq!['\t'],
            IndentStyle::Spaces(n) => repeated(seq![' '], n as nat),
        }
    }

    /// One level of indentation.
    pub fn as_chars(&self) -> (chars: Vec<char>)
        ensures
            chars@ == self.unit(),
    {
        match self {
            IndentStyle::Tabs => {
                let mut chars: Vec<char> = Vec::new();
                chars.push('\t');
                assert(chars@ =~= self.unit());
                chars
            },
            IndentStyle::Spaces(n) => {
                let mut space: Vec<char> = Vec::new();
                space.push(' ');
                assert(space@ =~= seq![' ']);
                repeat(&space, *n as usize)
            },
        }
    }
}

/// What typing `c` does at a range: what the pairing of brackets and quotes asks for, if it asks
/// for anything, else `c` at the cursor with the range left to follow the change.
pub open spec fn typed(text: Text, r: Range, c: char, paired: Option<(Edit, Range)>) -> (
    Edit,
    Option<Range>,
) {
    match paired {
        Some((edit, after)) => (edit, Some(after)),
        None => {
            let cursor = r.cursor_in(text);
            (Edit { from: cursor, to: cursor, text: seq![c] }, None)
        },
    }
}

/// What the pairing of brackets asks for, as plain values.
pub open spec fn pairing(hook: Option<(Change, Range)>) -> Option<(Edit, Range)> {
    match hook {
        Some((change, after)) => Some((change@, after)),
        None => None,
    }
}

/// Types `c` at every range. `paired` holds what the pairing of brackets and quotes asks for at
/// each of them.
pub fn insert_char(
    text: &Text,
    selection: &Selection,
    c: char,
    paired: Vec<Option<(Change, Range)>>,
) -> (done: Vec<(Change, Option<Range>)>)
    requires
        text.wf(),
        paired@.len() == selection.ranges@.len(),
    ensures
        done@.len() == selection.ranges@.len(),
        forall|i: int|
            0 <= i < done@.len() ==> ((#[trigger] done@[i]).0@, done@[i].1) == typed(
                *text,
                selection.ranges@[i],
                c,
                pairing(paired@[i]),
            ),
{
    let ghost hooks = paired@;
    let mut paired = paired;
    let mut done: Vec<(Change, Option<Range>)> = Vec::new();
    let mut back: Vec<Option<(Change, Range)>> = Vec::new();
    while paired.len() > 0
        invariant
            back@.len() + paired@.len() == hooks.len(),
            paired@ == hooks.take(paired@.len() as int),
            forall|k: int| 0 <= k < back@.len() ==> back@[k] == hooks[hooks.len() - 1 - k],
        decreases paired@.len(),
    {
        let ghost n = paired@.len();
        let hook = paired.pop();
        assert(hook == Some(hooks[n - 1]));
        assert(hooks.take(n as int).drop_last() =~= hooks.take(n - 1));
        match hook {
            Some(hook) => back.push(hook),
            None => {},
        }
    }
    let mut i: usize = 0;
    while i < selection.ranges.len()
        invariant
            i <= selection.ranges@.len() == hooks.len(),
            text.wf(),
            done@.len() == i,
            back@.len() == hooks.len() - i,
            forall|k: int| 0 <= k < back@.len() ==> back@[k] == hooks[hooks.len() - 1 - k],
            forall|j: int|
                0 <= j < i ==> ((#[trigger] done@[j]).0@, done@[j].1) == typed(
                    *text,
                    selection.ranges@[j],
                    c,
                    pairing(hooks[j]),
                ),
        decreases selection.ranges.len() - i,
    {
        let hook = back.pop();
        assert(hook == Some(hooks[i as int]));
        let step = match hook {
            Some(Some((change, after))) => (change, Some(after)),
            _ => {
                let cursor = selection.ranges[i].cursor(text);
                let mut out: Vec<char> = Vec::new();
                out.push(c);
                assert(out@ =~= seq![c]);
                (Change { from: cursor, to: cursor, text: out }, None)
            },
        };
        done.push(step);
        i += 1;
    }
    done
}

/// What the tab key does.
#[derive(Clone, Copy, Debug, PartialEq, Eq, Structural)]
pub enum TabAction {
    GotoNextTabstop,
    MoveParentNodeEnd,
    InsertTab,
}

/// Only whitespace stands in the line before the cursor.
pub open spec fn after_indent(text: Text, r: Range) -> bool {
    let cursor = r.cursor_in(text);
    forall|k: int|
        line_start(text@, line_of(text@, cursor)) <= k < cursor ==> whitespace(#[trigger] text@[k])
}

/// The tab key: indents while every cursor stands in the indentation of its line, else goes to the
/// next place of an active snippet, or to the end of the syntax node around the cursor.
pub fn smart_tab(text: &Text, selection: &Selection, enabled: bool, snippet_active: bool) -> (action:
    TabAction)
    requires
        text.wf(),
        selection.within(text@.len() as int),
    ensures
        action == (if enabled && exists|i: int|
            0 <= i < selection.ranges@.len() && !after_indent(
                *text,
                #[trigger] selection.ranges@[i],
            ) {
            if snippet_active {
                TabAction::GotoNextTabstop
            } else {
                TabAction::MoveParentNodeEnd
            }
        } else {
            TabAction::InsertTab
        }),
{
    if !enabled {
        return TabAction::InsertTab;
    }
    let mut i: usize = 0;
    while i < selection.ranges.len()
        invariant
            i <= selection.ranges@.len(),
            text.wf(),
            enabled,
            selection.within(text@.len() as int),
            forall|j: int| 0 <= j < i ==> after_indent(*text, #[trigger] selection.ranges@[j]),
        decreases selection.ranges.len() - i,
    {
        let r = selection.ranges[i];
        assert(selection.ranges@[i as int].within(text@.len() as int));
        let cursor = r.cursor(text);
        let start = text.line_to_char(text.char_to_line(cursor));
        proof {
            crate::text::lemma_line_of_bounds(text@, cursor as int);
        }
        let n = count_leading_whitespace(&text.chars, start, cursor);
        if n < cursor - start {
            assert(!whitespace(text@[start + n]));
            assert(!after_indent(*text, selection.ranges@[i as int]));
            return if snippet_active {
                TabAction::GotoNextTabstop
            } else {
                TabAction::MoveParentNodeEnd
            };
        }
        i += 1;
    }
    TabAction::InsertTab
}

/// The indentation that the tab key puts in at a range: `count` levels, less what brings spaces
/// to the next multiple of a level.
pub open spec fn tab_edit(text: Text, style: IndentStyle, count: usize, r: Range) -> Edit {
    let cursor = r.cursor_in(text);
    let column = cursor - line_start(text@, line_of(text@, cursor));
    let whole = repeated(style.unit(), count as nat);
    let out = match style {
        IndentStyle::Tabs => whole,
        IndentStyle::Spaces(n) => whole.skip(column % (n as int)),
    };
    Edit { from: cursor, to: cursor, text: out }
}

proof fn lemma_spaces_fill(style: IndentStyle, count: usize)
    requires
        style.wf(),
        count >= 1,
    ensures
        repeated(style.unit(), count as nat).len() >= style.unit().len(),
        style matches IndentStyle::Spaces(n) ==> style.unit().len() == n,
{
    crate::transaction::lemma_repeated_len(style.unit(), count as nat);
    let len = style.unit().len();
    assert(len * count >= len) by (nonlinear_arith)
        requires
            count >= 1,
    ;
    if let IndentStyle::Spaces(n) = style {
        crate::transaction::lemma_repeated_len(seq![' '], n as nat);
        assert(seq![' '].len() * (n as nat) == n) by (nonlinear_arith)
            requires
                seq![' '].len() == 1,
        ;
    }
}

/// Indents by `count` levels at every cursor.
pub fn insert_tab_impl(text: &Text, selection: &Selection, style: IndentStyle, count: usize) -> (t:
    Transaction)
    requires
        text.wf(),
        selection.wf(),
        selection.fits(*text),
        style.wf(),
        count >= 1,
    ensures
        t.edits() == selection.ranges@.map_values(|r: Range| tab_edit(*text, style, count, r)),
        valid_edits(t.edits(), text@.len() as int),
        t.selection is None,
{
    let ghost rs = selection.ranges@;
    let unit = style.as_chars();
    let whole = repeat(&unit, count);
    let mut changes: Vec<Change> = Vec::new();
    let mut i: usize = 0;
    assert(edits(changes@) =~= rs.take(0).map_values(|r: Range| tab_edit(*text, style, count, r)));
    while i < selection.ranges.len()
        invariant
            i <= rs.len(),
            rs == selection.ranges@,
            text.wf(),
            selection.wf(),
            selection.fits(*text),
            style.wf(),
            count >= 1,
            whole@ == repeated(style.unit(), count as nat),
            edits(changes@) == rs.take(i as int).map_values(
                |r: Range| tab_edit(*text, style, count, r),
            ),
            valid_edits(edits(changes@), text@.len() as int),
        decreases selection.ranges.len() - i,
    {
        let r = selection.ranges[i];
        proof {
            assert(rs[i as int].fits(*text));
            cursor_lies_in_range(r, *text);
            lemma_spaces_fill(style, count);
            if i > 0 {
                lemma_cursors_ordered(*text, rs, i - 1, i as int);
            }
        }
        let cursor = r.cursor(text);
        let start = text.line_to_char(text.char_to_line(cursor));
        proof {
            crate::text::lemma_line_of_bounds(text@, cursor as int);
        }
        let skipped: usize = match style {
            IndentStyle::Tabs => 0,
            IndentStyle::Spaces(n) => (cursor - start) % (n as usize),
        };
        let mut out: Vec<char> = Vec::new();
        let mut k: usize = skipped;
        while k < whole.len()
            invariant
                skipped <= k <= whole@.len(),
                out@ == whole@.subrange(skipped as int, k as int),
            decreases whole.len() - k,
        {
            out.push(whole[k]);
            k += 1;
        }
        let change = Change { from: cursor, to: cursor, text: out };
        proof {
            assert(out@ =~= tab_edit(*text, style, count, r).text);
            assert(change@ =~= tab_edit(*text, style, count, r));
            lemma_edits_push(changes@, change);
            lemma_valid_push(edits(changes@), change@, text@.len() as int);
            assert(rs.take(i + 1) =~= rs.take(i as int).push(r));
            assert(edits(changes@).push(change@) =~= rs.take(i + 1).map_values(
                |r: Range| tab_edit(*text, style, count, r),
            ));
        }
        changes.push(change);
        i += 1;
    }
    assert(rs.take(i as int) =~= rs);
    Transaction { changes, selection: None }
}

/// Indents by one level at every cursor.
pub fn insert_tab(text: &Text, selection: &Selection, style: IndentStyle) -> (t: Transaction)
    requires
        text.wf(),
        selection.wf(),
        selection.fits(*text),
        style.wf(),
    ensures
        t.edits() == selection.ranges@.map_values(|r: Range| tab_edit(*text, style, 1, r)),
        valid_edits(t.edits(), text@.len() as int),
        t.selection is None,
{
    insert_tab_impl(text, selection, style, 1)
}

/// A key, and whether a modifier was held with it.
#[derive(Clone, Copy, Debug, PartialEq, Eq, Structural)]
pub struct Key {
    pub code: KeyCode,
    pub modified: bool,
}

#[derive(Clone, Copy, Debug, PartialEq, Eq, Structural)]
pub enum KeyCode {
    Char(char),
    Enter,
    Tab,
    Other,
}

/// What the key after an interactive insertion does.
#[derive(Clone, Copy, Debug, PartialEq, Eq, Structural)]
pub enum Interactive {
    /// Types the character so many times.
    Chars(char, usize),
    Newline,
    /// Indents by so many levels.
    Tabs(usize),
    /// Reports that several new lines are not supported, and stays in insert mode.
    ManyNewlines,
    Nothing,
}

/// What the key after an interactive insertion does, and whether the mode before it is restored.
pub fn insert_selection_interactive(key: Key, count: usize) -> (done: (Interactive, bool))
    ensures
        done.0 == (match key.code {
            KeyCode::Char(c) => Interactive::Chars(c, count),
            KeyCode::Enter => if key.modified {
                Interactive::Nothing
            } else if count == 1 {
                Interactive::Newline
            } else {
                Interactive::ManyNewlines
            },
            KeyCode::Tab => if key.modified {
                Interactive::Nothing
            } else {
                Interactive::Tabs(count)
            },
            KeyCode::Other => Interactive::Nothing,
        }),
        done.1 == (done.0 != Interactive::ManyNewlines),
{
    match key.code {
        KeyCode::Char(c) => (Interactive::Chars(c, count), true),
        KeyCode::Enter => if key.modified {
            (Interactive::Nothing, true)
        } else if count == 1 {
            (Interactive::Newline, true)
        } else {
            (Interactive::ManyNewlines, false)
        },
        KeyCode::Tab => if key.modified {
            (Interactive::Nothing, true)
        } else {
            (Interactive::Tabs(count), true)
        },
        KeyCode::Other => (Interactive::Nothing, true),
    }
}

/// The comment leader found in the innermost of some syntax layers that has one.
pub open spec fn innermost_token(layers: Seq<Option<Vec<char>>>) -> Option<Seq<char>>
    decreases layers.len(),
{
    if layers.len() == 0 {
        None
    } else {
        match layers.last() {
            Some(token) => Some(token@),
            None => innermost_token(layers.drop_last()),
        }
    }
}

/// The leader of a line comment: the one that the innermost syntax layer with a leader gives, or
/// that of the language where there is no syntax tree.
pub fn continued_line_comment_token(
    layers: &Option<Vec<Option<Vec<char>>>>,
    language: &Option<Vec<char>>,
) -> (token: Option<Vec<char>>)
    ensures
        (match token {
            Some(token) => Some(token@),
            None => None,
        }) == (match layers {
            Some(layers) => innermost_token(layers@),
            None => match language {
                Some(token) => Some(token@),
                None => None,
            },
        }),
{
    match layers {
        Some(layers) => find_innermost_token(layers),
        None => match language {
            Some(token) => Some(copy_chars(token)),
            None => None,
        },
    }
}

fn find_innermost_token(layers: &Vec<Option<Vec<char>>>) -> (token: Option<Vec<char>>)
    ensures
        (match token {
            Some(token) => Some(token@),
            None => None,
        }) == innermost_token(layers@),
{
    let mut n: usize = layers.len();
    assert(layers@.take(n as int) =~= layers@);
    while n > 0
        invariant
            n <= layers@.len(),
            innermost_token(layers@) == innermost_token(layers@.take(n as int)),
        decreases n,
    {
        assert(layers@.take(n as int).drop_last() =~= layers@.take(n - 1));
        if let Some(token) = &layers[n - 1] {
            return Some(copy_chars(token));
        }
        n -= 1;
    }
    None
}

/// Where blank lines are added at a range.
pub open spec fn added_at(text: Text, r: Range, open: Open) -> int {
    let (first, last) = r.lines(text);
    line_start(
        text@,
        match open {
            Open::Above => first,
            Open::Below => last + 1,
        },
    )
}

/// The blank lines that a range adds.
pub open spec fn added_edit(
    text: Text,
    r: Range,
    open: Open,
    line_ending: LineEnding,
    count: usize,
) -> Edit {
    let at = added_at(text, r, open);
    Edit { from: at, to: at, text: repeated(line_ending.chars(), count as nat) }
}

proof fn lemma_added_ordered(text: Text, ranges: Seq<Range>, open: Open, i: int, j: int)
    requires
        text.wf(),
        ordered(ranges),
        crate::selection::all_within(ranges, text@.len() as int),
        0 <= i < j < ranges.len(),
    ensures
        added_at(text, ranges[i], open) <= added_at(text, ranges[j], open),
{
    let (a, b) = (ranges[i], ranges[j]);
    assert(a.lo() < b.lo() && a.hi() <= b.lo());
    crate::text::lemma_prev_boundary(text, a.hi());
    crate::text::lemma_prev_boundary(text, b.hi());
    crate::text::lemma_newlines_prefix_le(text@, a.lo(), b.lo());
    crate::text::lemma_newlines_prefix_le(text@, a.last_position(text), b.last_position(text));
    crate::text::lemma_line_start_monotonic(text@, a.lines(text).0, b.lines(text).0);
    crate::text::lemma_line_start_monotonic(text@, a.lines(text).1 + 1, b.lines(text).1 + 1);
}

/// Adds `count` blank lines above or below the lines of every range.
pub fn add_newline_impl(
    text: &Text,
    selection: &Selection,
    open: Open,
    line_ending: LineEnding,
    count: usize,
) -> (t: Transaction)
    requires
        text.wf(),
        text@.len() < usize::MAX,
        selection.wf(),
        selection.within(text@.len() as int),
    ensures
        t.edits() == selection.ranges@.map_values(
            |r: Range| added_edit(*text, r, open, line_ending, count),
        ),
        valid_edits(t.edits(), text@.len() as int),
        t.selection is None,
{
    let ghost rs = selection.ranges@;
    let ghost f = |r: Range| added_edit(*text, r, open, line_ending, count);
    let ending = line_ending.as_chars();
    let mut changes: Vec<Change> = Vec::new();
    let mut i: usize = 0;
    assert(edits(changes@) =~= rs.take(0).map_values(f));
    while i < selection.ranges.len()
        invariant
            i <= rs.len(),
            rs == selection.ranges@,
            text.wf(),
            text@.len() < usize::MAX,
            selection.wf(),
            selection.within(text@.len() as int),
            ending@ == line_ending.chars(),
            f == (|r: Range| added_edit(*text, r, open, line_ending, count)),
            edits(changes@) == rs.take(i as int).map_values(f),
            valid_edits(edits(changes@), text@.len() as int),
        decreases selection.ranges.len() - i,
    {
        let r = selection.ranges[i];
        proof {
            assert(rs[i as int].within(text@.len() as int));
            if i > 0 {
                lemma_added_ordered(*text, rs, open, i - 1, i as int);
            }
            crate::text::lemma_prev_boundary(*text, r.hi());
            crate::text::lemma_line_of_bounds(text@, r.last_position(*text));
            crate::text::lemma_newlines_prefix_le(text@, 0, text@.len() as int);
            assert(text@.take(text@.len() as int) =~= text@);
        }
        let (first, last) = r.line_range(text);
        let at = match open {
            Open::Above => text.line_to_char(first),
            Open::Below => text.line_to_char(last + 1),
        };
        let change = Change { from: at, to: at, text: repeat(&ending, count) };
        proof {
            assert(change@ =~= added_edit(*text, r, open, line_ending, count));
            lemma_edits_push(changes@, change);
            lemma_valid_push(edits(changes@), change@, text@.len() as int);
            assert(rs.take(i + 1) =~= rs.take(i as int).push(r));
            assert(edits(changes@).push(change@) =~= rs.take(i + 1).map_values(f));
        }
        changes.push(change);
        i += 1;
    }
    assert(rs.take(i as int) =~= rs);
    Transaction { changes, selection: None }
}

/// Adds blank lines above the lines of every range.
pub fn add_newline_above(
    text: &Text,
    selection: &Selection,
    line_ending: LineEnding,
    count: usize,
) -> (t: Transaction)
    requires
        text.wf(),
        text@.len() < usize::MAX,
        selection.wf(),
        selection.within(text@.len() as int),
    ensures
        t.edits() == selection.ranges@.map_values(
            |r: Range| added_edit(*text, r, Open::Above, line_ending, count),
        ),
        t.selection is None,
{
    add_newline_impl(text, selection, Open::Above, line_ending, count)
}

/// Adds blank lines below the lines of every range.
pub fn add_newline_below(
    text: &Text,
    selection: &Selection,
    line_ending: LineEnding,
    count: usize,
) -> (t: Transaction)
    requires
        text.wf(),
        text@.len() < usize::MAX,
        selection.wf(),
        selection.within(text@.len() as int),
    ensures
        t.edits() == selection.ranges@.map_values(
            |r: Range| added_edit(*text, r, Open::Below, line_ending, count),
        ),
        t.selection is None,
{
    add_newline_impl(text, selection, Open::Below, line_ending, count)
}

/// Where the cursor goes on a line that is not empty, when insert mode begins at one of its ends.
#[derive(Clone, Copy, Debug, PartialEq, Eq, Structural)]
pub enum IndentFallbackPos {
    LineStart,
    LineEnd,
}

/// The line of the cursor, and whether it holds nothing but its line ending.
pub open spec fn cursor_line_is_empty(text: Text, r: Range) -> bool {
    let line = line_of(text@, r.cursor_in(text));
    line_end(text@, line) == line_start(text@, line)
}

/// What entering insert mode at the end of a line puts in: the indentation of an empty line.
pub open spec fn indent_edit(text: Text, r: Range, indent: Seq<char>) -> Edit {
    let start = line_start(text@, line_of(text@, r.cursor_in(text)));
    Edit {
        from: start,
        to: start,
        text: if cursor_line_is_empty(text, r) {
            indent
        } else {
            Seq::empty()
        },
    }
}

pub open spec fn indent_edits(
    text: Text,
    ranges: Seq<Range>,
    indents: Seq<Vec<char>>,
    n: nat,
) -> Seq<Edit> {
    Seq::new(n, |i: int| indent_edit(text, ranges[i], indents[i]@))
}

/// Where the cursor goes on a line that is not empty.
pub open spec fn fallback_position(text: Text, r: Range, fallback: IndentFallbackPos) -> int {
    let line = line_of(text@, r.cursor_in(text));
    let start = line_start(text@, line);
    let whole = line_at(text@, line);
    match fallback {
        IndentFallbackPos::LineStart => if leading_whitespace(whole) < whole.len() {
            start + leading_whitespace(whole)
        } else {
            start
        },
        IndentFallbackPos::LineEnd => line_end(text@, line),
    }
}

/// The range after insert mode was entered at the end of its line, `offs` characters having been
/// put in before it.
pub open spec fn indented_range(
    text: Text,
    r: Range,
    indent: Seq<char>,
    fallback: IndentFallbackPos,
    extend: bool,
    offs: int,
) -> Range {
    if cursor_line_is_empty(text, r) {
        let at = offs + line_start(text@, line_of(text@, r.cursor_in(text))) + indent.len();
        range(at, at)
    } else {
        r.with_cursor(text, fallback_position(text, r, fallback) + offs, extend)
    }
}

pub open spec fn indented_ranges(
    text: Text,
    ranges: Seq<Range>,
    indents: Seq<Vec<char>>,
    fallback: IndentFallbackPos,
    extend: bool,
    n: nat,
) -> Seq<Range> {
    Seq::new(
        n,
        |i: int|
            indented_range(
                text,
                ranges[i],
                indents[i]@,
                fallback,
                extend,
                inserted(indent_edits(text, ranges, indents, i as nat)),
            ),
    )
}

/// The length of some texts together.
pub open spec fn total_len(parts: Seq<Vec<char>>) -> int
    decreases parts.len(),
{
    if parts.len() == 0 {
        0
    } else {
        total_len(parts.drop_last()) + parts.last()@.len()
    }
}

proof fn lemma_total_len_prefix(parts: Seq<Vec<char>>, n: int)
    requires
        0 <= n <= parts.len(),
    ensures
        0 <= total_len(parts.take(n)) <= total_len(parts),
    decreases parts.len(),
{
    if parts.len() > 0 {
        if n < parts.len() {
            lemma_total_len_prefix(parts.drop_last(), n);
            assert(parts.drop_last().take(n) =~= parts.take(n));
        } else {
            lemma_total_len_prefix(parts.drop_last(), parts.len() - 1);
            assert(parts.take(n) =~= parts);
            assert(parts.drop_last().take(parts.len() - 1) =~= parts.drop_last());
        }
    }
}

proof fn lemma_indent_inserted(
    text: Text,
    ranges: Seq<Range>,
    indents: Seq<Vec<char>>,
    n: nat,
)
    requires
        n <= ranges.len() == indents.len(),
    ensures
        0 <= inserted(indent_edits(text, ranges, indents, n)) <= total_len(
            indents.take(n as int),
        ) <= total_len(indents),
    decreases n,
{
    lemma_total_len_prefix(indents, n as int);
    if n > 0 {
        let k = (n - 1) as nat;
        lemma_indent_inserted(text, ranges, indents, k);
        let all = indent_edits(text, ranges, indents, n);
        assert(all.drop_last() =~= indent_edits(text, ranges, indents, k));
        assert(indents.take(n as int).drop_last() =~= indents.take(k as int));
    }
}

/// Enters insert mode at one end of the line of every cursor. An empty line gets the indentation
/// that `indents` holds for it.
pub fn insert_with_indent(
    text: &Text,
    selection: &Selection,
    fallback: IndentFallbackPos,
    was_select_mode: bool,
    indents: &Vec<Vec<char>>,
) -> (t: Transaction)
    requires
        text.wf(),
        text@.len() < usize::MAX,
        selection.wf(),
        selection.fits(*text),
        indents@.len() == selection.ranges@.len(),
        text@.len() + total_len(indents@) <= usize::MAX,
    ensures
        t.edits() == indent_edits(*text, selection.ranges@, indents@, selection.ranges@.len()),
        valid_edits(t.edits(), text@.len() as int),
        t.selection matches Some(s) && s.wf() && s.holds(
            indented_ranges(
                *text,
                selection.ranges@,
                indents@,
                fallback,
                was_select_mode,
                selection.ranges@.len(),
            ),
            selection.primary_index as int,
        ),
{
    let ghost rs = selection.ranges@;
    let ghost len = text@.len() as int;
    let mut changes: Vec<Change> = Vec::new();
    let mut ranges: Vec<Range> = Vec::new();
    let mut offs: usize = 0;
    let mut i: usize = 0;
    assert(edits(changes@) =~= indent_edits(*text, rs, indents@, 0));
    assert(ranges@ =~= indented_ranges(*text, rs, indents@, fallback, was_select_mode, 0));
    while i < selection.ranges.len()
        invariant
            i <= rs.len() == indents@.len(),
            rs == selection.ranges@,
            len == text@.len(),
            len < usize::MAX,
            text.wf(),
            selection.wf(),
            selection.fits(*text),
            len + total_len(indents@) <= usize::MAX,
            edits(changes@) == indent_edits(*text, rs, indents@, i as nat),
            valid_edits(edits(changes@), len),
            ranges@ == indented_ranges(
                *text,
                rs,
                indents@,
                fallback,
                was_select_mode,
                i as nat,
            ),
            offs == inserted(indent_edits(*text, rs, indents@, i as nat)),
        decreases selection.ranges.len() - i,
    {
        let r = selection.ranges[i];
        let ghost after = indent_edits(*text, rs, indents@, (i + 1) as nat);
        proof {
            assert(rs[i as int].fits(*text));
            cursor_lies_in_range(r, *text);
            lemma_indent_inserted(*text, rs, indents@, i as nat);
            lemma_indent_inserted(*text, rs, indents@, (i + 1) as nat);
            assert(after.drop_last() =~= indent_edits(*text, rs, indents@, i as nat));
            assert(after.last() == indent_edit(*text, r, indents@[i as int]@));
            if i > 0 {
                lemma_cursors_ordered(*text, rs, i - 1, i as int);
                let (a, b) = (rs[i - 1].cursor_in(*text), r.cursor_in(*text));
                cursor_lies_in_range(rs[i - 1], *text);
                crate::text::lemma_newlines_prefix_le(text@, a, b);
                crate::text::lemma_line_start_monotonic(text@, line_of(text@, a), line_of(text@, b));
            }
        }
        let cursor = r.cursor(text);
        let line = text.char_to_line(cursor);
        let start = text.line_to_char(line);
        let end = text.line_end_char_index(line);
        proof {
            crate::text::lemma_line_start_monotonic(text@, line as int, line + 1);
        }
        let mut out: Vec<char> = Vec::new();
        assert(out@ =~= Seq::<char>::empty());
        if end == start {
            out = copy_chars(&indents[i]);
            assert(after.last().text == out@);
            ranges.push(Range::point(offs + start + out.len()));
            offs = offs + out.len();
        } else {
            let pos = match fallback {
                IndentFallbackPos::LineStart => {
                    let next = text.line_to_char(line + 1);
                    let leading = count_leading_whitespace(&text.chars, start, next);
                    if leading < next - start {
                        start + leading
                    } else {
                        start
                    }
                },
                IndentFallbackPos::LineEnd => end,
            };
            ranges.push(r.put_cursor(text, pos + offs, was_select_mode));
        }
        let change = Change { from: start, to: start, text: out };
        proof {
            assert(change@ =~= after.last());
            lemma_edits_push(changes@, change);
            lemma_valid_push(edits(changes@), change@, len);
            assert(edits(changes@).push(change@) =~= after);
            assert(ranges@ =~= indented_ranges(
                *text,
                rs,
                indents@,
                fallback,
                was_select_mode,
                (i + 1) as nat,
            ));
        }
        changes.push(change);
        i += 1;
    }
    let s = Selection::new(ranges, selection.primary_index);
    Transaction { changes, selection: Some(s) }
}

/// Enters insert mode at the first character of each line that is not whitespace.
pub fn insert_at_line_start(
    text: &Text,
    selection: &Selection,
    was_select_mode: bool,
    indents: &Vec<Vec<char>>,
) -> (t: Transaction)
    requires
        text.wf(),
        text@.len() < usize::MAX,
        selection.wf(),
        selection.fits(*text),
        indents@.len() == selection.ranges@.len(),
        text@.len() + total_len(indents@) <= usize::MAX,
    ensures
        t.edits() == indent_edits(*text, selection.ranges@, indents@, selection.ranges@.len()),
        t.selection matches Some(s) && s.wf() && s.holds(
            indented_ranges(
                *text,
                selection.ranges@,
                indents@,
                IndentFallbackPos::LineStart,
                was_select_mode,
                selection.ranges@.len(),
            ),
            selection.primary_index as int,
        ),
{
    insert_with_indent(text, selection, IndentFallbackPos::LineStart, was_select_mode, indents)
}

/// Enters insert mode at the end of each line.
pub fn insert_at_line_end(
    text: &Text,
    selection: &Selection,
    was_select_mode: bool,
    indents: &Vec<Vec<char>>,
) -> (t: Transaction)
    requires
        text.wf(),
        text@.len() < usize::MAX,
        selection.wf(),
        selection.fits(*text),
        indents@.len() == selection.ranges@.len(),
        text@.len() + total_len(indents@) <= usize::MAX,
    ensures
        t.edits() == indent_edits(*text, selection.ranges@, indents@, selection.ranges@.len()),
        t.selection matches Some(s) && s.wf() && s.holds(
            indented_ranges(
                *text,
                selection.ranges@,
                indents@,
                IndentFallbackPos::LineEnd,
                was_select_mode,
                selection.ranges@.len(),
            ),
            selection.primary_index as int,
        ),
{
    insert_with_indent(text, selection, IndentFallbackPos::LineEnd, was_select_mode, indents)
}

/// A character that is typed where no pairing asks for anything else stands right before what the
/// cursor stood on; else what the pairing asks for is done.
pub proof fn typed_characters_stand_before_the_cursor(
    text: Text,
    r: Range,
    c: char,
    paired: Option<(Edit, Range)>,
)
    requires
        text.wf(),
        r.fits(text),
    ensures
        ({
            let (e, after) = typed(text, r, c, paired);
            let cursor = r.cursor_in(text);
            &&& paired is None ==> after is None && crate::transaction::applied(text@, seq![e])
                == text@.take(cursor) + seq![c] + text@.skip(cursor)
            &&& paired matches Some(p) ==> e == p.0 && after == Some(p.1)
        }),
{
    let (e, after) = typed(text, r, c, paired);
    assert(seq![e].drop_last() =~= Seq::<Edit>::empty());
    assert(seq![e].last() == e);
    assert(crate::transaction::applied(text@.take(e.from), seq![e].drop_last()) == text@.take(
        e.from,
    ));
}

proof fn lemma_repeated_chars(c: char, n: nat)
    ensures
        repeated(seq![c], n).len() == n,
        forall|k: int| 0 <= k < n ==> repeated(seq![c], n)[k] == c,
    decreases n,
{
    if n > 0 {
        lemma_repeated_chars(c, (n - 1) as nat);
    }
}

proof fn lemma_repeated_units(part: Seq<char>, c: char, n: nat)
    requires
        forall|k: int| 0 <= k < part.len() ==> part[k] == c,
    ensures
        repeated(part, n).len() == part.len() * n,
        forall|k: int| 0 <= k < repeated(part, n).len() ==> repeated(part, n)[k] == c,
    decreases n,
{
    crate::transaction::lemma_repeated_len(part, n);
    if n > 0 {
        lemma_repeated_units(part, c, (n - 1) as nat);
    }
}

/// A level of indentation is a tab, or as many spaces as the style says.
pub proof fn levels_are_tabs_or_spaces(style: IndentStyle)
    ensures
        match style {
            IndentStyle::Tabs => style.unit() == seq!['\t'],
            IndentStyle::Spaces(n) => style.unit().len() == n && forall|k: int|
                0 <= k < n ==> style.unit()[k] == ' ',
        },
{
    if let IndentStyle::Spaces(n) = style {
        lemma_repeated_chars(' ', n as nat);
    }
}

/// The tab key puts in as many tabs as the count says at the cursor, or spaces that reach a
/// multiple of a level: the first level is filled up, and each further one is whole.
pub proof fn tabs_reach_the_next_level(text: Text, style: IndentStyle, count: usize, r: Range)
    requires
        text.wf(),
        r.fits(text),
        style.wf(),
        count >= 1,
    ensures
        ({
            let e = tab_edit(text, style, count, r);
            let cursor = r.cursor_in(text);
            let column = cursor - line_start(text@, line_of(text@, cursor));
            &&& e.from == cursor && e.to == cursor
            &&& match style {
                IndentStyle::Tabs => e.text.len() == count && forall|k: int|
                    0 <= k < count ==> e.text[k] == '\t',
                IndentStyle::Spaces(n) => {
                    &&& forall|k: int| 0 <= k < e.text.len() ==> e.text[k] == ' '
                    &&& (column + e.text.len()) % (n as int) == 0
                    &&& (count - 1) * n < e.text.len() <= count * n
                },
            }
        }),
{
    let e = tab_edit(text, style, count, r);
    let cursor = r.cursor_in(text);
    cursor_lies_in_range(r, text);
    crate::text::positions_lie_in_their_line(text@, cursor);
    let column = cursor - line_start(text@, line_of(text@, cursor));
    levels_are_tabs_or_spaces(style);
    match style {
        IndentStyle::Tabs => {
            lemma_repeated_units(style.unit(), '\t', count as nat);
        },
        IndentStyle::Spaces(n) => {
            lemma_repeated_units(style.unit(), ' ', count as nat);
            lemma_spaces_fill(style, count);
            let whole = repeated(style.unit(), count as nat);
            let beyond = column % (n as int);
            lemma_fills_level(column, n as int, count as int, whole.len() as int);
            assert(e.text.len() == whole.len() - beyond);
            assert(forall|k: int| 0 <= k < e.text.len() ==> e.text[k] == whole[k + beyond]);
        },
    }
}

pub proof fn lemma_fills_level(column: int, n: int, count: int, len: int)
    by (nonlinear_arith)
    requires
        n > 0,
        count >= 1,
        column >= 0,
        len == n * count,
    ensures
        (column + (len - column % n)) % n == 0,
        (count - 1) * n < len - column % n <= count * n,
        0 <= column % n < n,
        n <= len,
{
    assert(column == n * (column / n) + column % n);
    assert(0 <= column % n < n);
    assert(column + (len - column % n) == n * (column / n + count));
    assert((n * (column / n + count)) % n == 0);
}

/// The leader of the innermost layer that has one is used.
pub proof fn the_innermost_leader_is_used(layers: Seq<Option<Vec<char>>>)
    ensures
        match innermost_token(layers) {
            Some(token) => exists|k: int|
                0 <= k < layers.len() && (#[trigger] layers[k]) is Some && layers[k]->0@ == token
                    && forall|j: int| k < j < layers.len() ==> (#[trigger] layers[j]) is None,
            None => forall|j: int| 0 <= j < layers.len() ==> (#[trigger] layers[j]) is None,
        },
    decreases layers.len(),
{
    if layers.len() > 0 {
        assert(layers[layers.len() - 1] == layers.last());
        if layers.last() is None {
            let front = layers.drop_last();
            the_innermost_leader_is_used(front);
            if innermost_token(layers) is Some {
                let token = innermost_token(layers)->0;
                let k = choose|k: int|
                    0 <= k < front.len() && (#[trigger] front[k]) is Some && front[k]->0@ == token
                        && forall|j: int| k < j < front.len() ==> (#[trigger] front[j]) is None;
                assert(layers[k] == front[k]);
                assert forall|j: int| k < j < layers.len() implies (#[trigger] layers[j]) is None by {
                    if j < front.len() {
                        assert(front[j] == layers[j]);
                    }
                }
            } else {
                assert forall|j: int| 0 <= j < layers.len() implies (#[trigger] layers[j]) is None by {
                    if j < front.len() {
                        assert(front[j] == layers[j]);
                    }
                }
            }
        }
    }
}

proof fn lemma_repeated_feeds(ending: LineEnding, count: nat)
    ensures
        crate::text::newlines(repeated(ending.chars(), count)) == count,
    decreases count,
{
    if count > 0 {
        let n = (count - 1) as nat;
        lemma_repeated_feeds(ending, n);
        crate::text::lemma_newlines_add(repeated(ending.chars(), n), ending.chars());
        crate::commands::insert::line_endings_hold_one_feed(ending);
    }
}

/// Blank lines are added as many as the count says, and nothing else changes: above, right before
/// the first line that the range touches; below, right behind the last one.
pub proof fn blank_lines_are_added(
    text: Text,
    r: Range,
    open: Open,
    line_ending: LineEnding,
    count: usize,
)
    requires
        text.wf(),
        r.within(text@.len() as int),
    ensures
        ({
            let s = text@;
            let e = added_edit(text, r, open, line_ending, count);
            let after = crate::transaction::applied(s, seq![e]);
            &&& e.from == e.to
            &&& crate::text::newlines(after) == crate::text::newlines(s) + count
            &&& forall|k: int| 0 <= k < e.text.len() ==> e.text[k] == '\r' || e.text[k] == '\n'
            &&& match open {
                Open::Above => 0 <= e.from <= r.lo() && (e.from == 0 || s[e.from - 1] == '\n') && forall|
                    k: int,
                |
                    e.from <= k < r.lo() ==> s[k] != '\n',
                Open::Below => {
                    let at = r.last_position(text);
                    &&& at <= e.from <= s.len()
                    &&& forall|k: int| at <= k < e.from - 1 ==> s[k] != '\n'
                    &&& (at < e.from && s[e.from - 1] == '\n') || (e.from == s.len() && forall|k: int|
                        at <= k < s.len() ==> s[k] != '\n')
                },
            }
        }),
{
    let s = text@;
    let e = added_edit(text, r, open, line_ending, count);
    crate::text::lemma_prev_boundary(text, r.hi());
    let at = r.last_position(text);
    crate::text::positions_lie_in_their_line(s, r.lo());
    crate::text::lines_lie_between_line_feeds(s, line_of(s, r.lo()));
    crate::text::positions_lie_in_their_line(s, at);
    crate::text::lines_lie_between_line_feeds(s, line_of(s, at));
    let b = line_start(s, line_of(s, at) + 1);
    assert forall|k: int| at <= k < b - 1 implies s[k] != '\n' by {
        crate::text::lemma_line_has_no_inner_feed(s, line_of(s, at), k);
    }
    lemma_repeated_feeds(line_ending, count as nat);
    let es = seq![e];
    assert(valid_edits(es, s.len() as int));
    crate::transaction::line_feeds_after_changes(s, es);
    assert(es.drop_last() =~= Seq::<Edit>::empty());
    reveal_with_fuel(crate::transaction::added_feeds, 2);
    reveal_with_fuel(crate::transaction::removed_feeds, 2);
    assert(s.subrange(e.from, e.to) =~= Seq::<char>::empty());
    lemma_ending_chars(line_ending, count as nat);
}

proof fn lemma_ending_chars(ending: LineEnding, count: nat)
    ensures
        forall|k: int|
            0 <= k < repeated(ending.chars(), count).len() ==> repeated(ending.chars(), count)[k]
                == '\r' || repeated(ending.chars(), count)[k] == '\n',
    decreases count,
{
    if count > 0 {
        let front = repeated(ending.chars(), (count - 1) as nat);
        lemma_ending_chars(ending, (count - 1) as nat);
        let all = repeated(ending.chars(), count);
        assert forall|k: int| 0 <= k < all.len() implies all[k] == '\r' || all[k] == '\n' by {
            if k < front.len() {
                assert(all[k] == front[k]);
            } else {
                assert(all[k] == ending.chars()[k - front.len()]);
            }
        }
    }
}

/// Entering insert mode at an end of a line puts indentation into an empty line, and nothing into
/// any other: there the cursor goes behind the last character, or to the first that is no
/// whitespace, or to the beginning of a line that holds nothing else.
pub proof fn insert_mode_begins_at_the_line(
    text: Text,
    r: Range,
    indent: Seq<char>,
    fallback: IndentFallbackPos,
    extend: bool,
    offs: int,
)
    requires
        text.wf(),
        r.fits(text),
        text@.len() < usize::MAX,
        0 <= offs <= usize::MAX,
        offs + text@.len() + indent.len() <= usize::MAX,
    ensures
        ({
            let s = text@;
            let line = line_of(s, r.cursor_in(text));
            let (start, end) = (line_start(s, line), line_end(s, line));
            let e = indent_edit(text, r, indent);
            let new = indented_range(text, r, indent, fallback, extend, offs);
            let pos = fallback_position(text, r, fallback);
            &&& e.from == start && e.to == start
            &&& start == end ==> e.text == indent && new.anchor == new.head && new.head == start + offs
                + indent.len()
            &&& start < end ==> e.text.len() == 0 && new == r.with_cursor(text, pos + offs, extend)
            &&& fallback == IndentFallbackPos::LineEnd ==> pos == end
            &&& fallback == IndentFallbackPos::LineStart ==> {
                &&& start <= pos <= line_start(s, line + 1)
                &&& (forall|k: int| start <= k < pos ==> whitespace(#[trigger] s[k]))
                &&& (pos < line_start(s, line + 1) && !whitespace(s[pos])) || (pos == start && forall|
                    k: int,
                |
                    start <= k < line_start(s, line + 1) ==> whitespace(#[trigger] s[k]))
            }
        }),
{
    let s = text@;
    cursor_lies_in_range(r, text);
    let line = line_of(s, r.cursor_in(text));
    crate::text::lemma_line_end_bounds(s, line);
    let start = line_start(s, line);
    let whole = line_at(s, line);
    crate::chars::whitespace_at_the_ends_is_counted(whole);
    assert(forall|k: int| 0 <= k < whole.len() ==> whole[k] == s[start + k]);
    let n = leading_whitespace(whole);
    assert forall|k: int| start <= k < start + n implies whitespace(#[trigger] s[k]) by {
        assert(whole[k - start] == s[k]);
    }
    if n < whole.len() {
        assert(whole[n] == s[start + n]);
    }
}

} // verus!
