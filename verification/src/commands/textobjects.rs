//! Selecting text objects: words, paragraphs, syntax nodes, changes, findings.

use crate::commands::diagnostics::Diagnostic;
use crate::commands::insert::bytes;
use crate::commands::spelling::{misspelled, spelling_ranges};
use crate::commands::vcs::{hunk_range, range_of_hunk, Hunk};
use crate::range::{range, Range};
use crate::selection::Selection;
use crate::strings::code_point;
use crate::text::{line_start, next_boundary, Text};
use vstd::prelude::*;

verus! {

/// A kind of text object. A syntax node goes by the name of its capture.
#[derive(Clone, Copy, Debug)]
pub enum TextObjectKind {
    Word,
    LongWord,
    Paragraph,
    Syntax(&'static str),
    ClosestPair,
    Change,
    Diagnostic,
    Spelling,
    Pair(char),
    Nothing,
}

/// The name under which the syntax nodes that a key selects are captured.
pub open spec fn capture_name(ch: char) -> Option<Seq<char>> {
    if ch == 't' {
        Some("class"@)
    } else if ch == 'f' {
        Some("function"@)
    } else if ch == 'a' {
        Some("parameter"@)
    } else if ch == 'c' {
        Some("comment"@)
    } else if ch == 'T' {
        Some("test"@)
    } else if ch == 'e' {
        Some("entry"@)
    } else if ch == 'x' {
        Some("xml-element"@)
    } else {
        None
    }
}

/// The name under which the syntax nodes that a key selects are captured.
pub fn syntax_object(ch: char) -> (name: Option<&'static str>)
    ensures
        name is Some <==> capture_name(ch) is Some,
        name matches Some(n) ==> capture_name(ch) == Some(n@),
{
    match ch {
        't' => Some("class"),
        'f' => Some("function"),
        'a' => Some("parameter"),
        'c' => Some("comment"),
        'T' => Some("test"),
        'e' => Some("entry"),
        'x' => Some("xml-element"),
        _ => None,
    }
}

/// A letter or a digit of ASCII.
pub open spec fn ascii_alphanumeric(ch: char) -> bool {
    ('a' <= ch && ch <= 'z') || ('A' <= ch && ch <= 'Z') || ('0' <= ch && ch <= '9')
}

/// The object that a key stands for, when one object is selected.
pub fn textobject_kind(ch: char) -> (kind: TextObjectKind)
    ensures
        match kind {
            TextObjectKind::Word => ch == 'w',
            TextObjectKind::LongWord => ch == 'W',
            TextObjectKind::Paragraph => ch == 'p',
            TextObjectKind::Syntax(name) => capture_name(ch) == Some(name@),
            TextObjectKind::ClosestPair => ch == 'm',
            TextObjectKind::Change => ch == 'g',
            TextObjectKind::Spelling => ch == 's',
            TextObjectKind::Pair(c) => c == ch && !ascii_alphanumeric(ch),
            TextObjectKind::Diagnostic => false,
            TextObjectKind::Nothing => ascii_alphanumeric(ch) && capture_name(ch) is None && ch
                != 'w' && ch != 'W' && ch != 'p' && ch != 'm' && ch != 'g' && ch != 's',
        },
{
    match syntax_object(ch) {
        Some(name) => {
            return TextObjectKind::Syntax(name);
        },
        None => {},
    }
    match ch {
        'w' => TextObjectKind::Word,
        'W' => TextObjectKind::LongWord,
        'p' => TextObjectKind::Paragraph,
        'm' => TextObjectKind::ClosestPair,
        'g' => TextObjectKind::Change,
        's' => TextObjectKind::Spelling,
        _ => if ('a' <= ch && ch <= 'z') || ('A' <= ch && ch <= 'Z') || ('0' <= ch && ch <= '9') {
            TextObjectKind::Nothing
        } else {
            TextObjectKind::Pair(ch)
        },
    }
}

/// The object that a key stands for, when all objects are selected.
pub fn all_textobjects_kind(ch: char) -> (kind: TextObjectKind)
    ensures
        match kind {
            TextObjectKind::Word => ch == 'w',
            TextObjectKind::LongWord => ch == 'W',
            TextObjectKind::Paragraph => ch == 'p',
            TextObjectKind::Syntax(name) => capture_name(ch) == Some(name@),
            TextObjectKind::Change => ch == 'g',
            TextObjectKind::Diagnostic => ch == 'd',
            TextObjectKind::Spelling => ch == 's',
            TextObjectKind::ClosestPair => false,
            TextObjectKind::Pair(c) => false,
            TextObjectKind::Nothing => capture_name(ch) is None && ch != 'w' && ch != 'W' && ch
                != 'p' && ch != 'g' && ch != 'd' && ch != 's',
        },
{
    match syntax_object(ch) {
        Some(name) => {
            return TextObjectKind::Syntax(name);
        },
        None => {},
    }
    match ch {
        'w' => TextObjectKind::Word,
        'W' => TextObjectKind::LongWord,
        'p' => TextObjectKind::Paragraph,
        'g' => TextObjectKind::Change,
        'd' => TextObjectKind::Diagnostic,
        's' => TextObjectKind::Spelling,
        _ => TextObjectKind::Nothing,
    }
}

/// The character that holds byte `b`; the end of the text for the byte behind the last.
pub open spec fn char_of_byte(s: Seq<char>, b: int) -> int
    decreases s.len(),
{
    if s.len() == 0 || bytes(s) <= b {
        s.len() as int
    } else {
        char_of_byte(s.drop_last(), b)
    }
}

proof fn lemma_char_of_byte(s: Seq<char>, b: int, i: int)
    requires
        0 <= i <= s.len(),
        bytes(s.take(i)) <= b,
        i < s.len() ==> bytes(s.take(i + 1)) > b,
    ensures
        char_of_byte(s, b) == i,
        bytes(s) <= b <==> i == s.len(),
    decreases s.len(),
{
    assert(s.take(s.len() as int) =~= s);
    if i < s.len() {
        assert forall|k: int| i < k <= s.len() implies bytes(#[trigger] s.take(k)) > b by {
            lemma_bytes_above(s, b, i, k);
        }
        assert(s.drop_last().take(i) =~= s.take(i));
        if i + 1 <= s.len() - 1 {
            assert(s.drop_last().take(i + 1) =~= s.take(i + 1));
        }
        lemma_char_of_byte(s.drop_last(), b, i);
    }
}

proof fn lemma_bytes_above(s: Seq<char>, b: int, i: int, k: int)
    requires
        0 <= i < k <= s.len(),
        bytes(s.take(i + 1)) > b,
    ensures
        bytes(s.take(k)) > b,
    decreases k,
{
    if k > i + 1 {
        lemma_bytes_above(s, b, i, k - 1);
        assert(s.take(k).drop_last() =~= s.take(k - 1));
    }
}

/// Finds the character that holds a byte of the text.
pub fn byte_to_char(text: &Text, b: usize) -> (pos: Option<usize>)
    ensures
        pos is Some <==> b <= bytes(text@),
        pos matches Some(k) ==> k == char_of_byte(text@, b as int) && k <= text@.len(),
{
    let mut seen: usize = 0;
    let mut i: usize = 0;
    assert(text@.take(0) =~= Seq::<char>::empty());
    while i < text.len_chars()
        invariant
            i <= text@.len(),
            seen == bytes(text@.take(i as int)),
            seen <= b,
        decreases text@.len() - i,
    {
        assert(text@.take(i + 1).drop_last() =~= text@.take(i as int));
        let code = code_point(text.chars[i]);
        let width: usize = if code < 0x80 {
            1
        } else if code < 0x800 {
            2
        } else if code < 0x10000 {
            3
        } else {
            4
        };
        if width > b - seen {
            proof {
                lemma_char_of_byte(text@, b as int, i as int);
            }
            return Some(i);
        }
        seen += width;
        i += 1;
    }
    proof {
        assert(text@.take(text@.len() as int) =~= text@);
        lemma_char_of_byte(text@, b as int, i as int);
    }
    if seen == b {
        Some(i)
    } else {
        None
    }
}

/// The objects among the first `n` that lie in `r`, turned the way it faces.
pub open spec fn contained(r: Range, objects: Seq<Range>, n: nat) -> Seq<Range>
    decreases n,
{
    if n == 0 {
        Seq::empty()
    } else {
        let before = contained(r, objects, (n - 1) as nat);
        let o = objects[n - 1];
        if r.lo() <= o.lo() && r.hi() >= o.hi() {
            before.push(o.facing(r.faces()))
        } else {
            before
        }
    }
}

/// Collects the objects that lie in a range.
pub fn select_contained(r: &Range, objects: &Vec<Range>) -> (ranges: Vec<Range>)
    ensures
        ranges@ == contained(*r, objects@, objects@.len()),
{
    let mut ranges: Vec<Range> = Vec::new();
    let mut i: usize = 0;
    while i < objects.len()
        invariant
            i <= objects@.len(),
            ranges@ == contained(*r, objects@, i as nat),
        decreases objects.len() - i,
    {
        if r.contains_range(&objects[i]) {
            ranges.push(objects[i].with_direction(r.direction()));
        }
        i += 1;
    }
    ranges
}

/// The ranges of the first `n` syntax nodes, given by the bytes where they begin and end; nodes
/// that reach beyond the text are left out.
pub open spec fn node_ranges(s: Seq<char>, nodes: Seq<(usize, usize)>, n: nat) -> Seq<Range>
    decreases n,
{
    if n == 0 {
        Seq::empty()
    } else {
        let before = node_ranges(s, nodes, (n - 1) as nat);
        let (start, end) = nodes[n - 1];
        if start > bytes(s) || end > bytes(s) {
            before
        } else {
            before.push(range(char_of_byte(s, start as int), char_of_byte(s, end as int)))
        }
    }
}

/// Collects the syntax nodes that lie in a range.
pub fn select_all_treesitter_textobject_ranges(
    text: &Text,
    r: &Range,
    nodes: &Vec<(usize, usize)>,
) -> (ranges: Vec<Range>)
    ensures
        ({
            let all = node_ranges(text@, nodes@, nodes@.len());
            ranges@ == contained(*r, all, all.len())
        }),
{
    let mut all: Vec<Range> = Vec::new();
    let mut i: usize = 0;
    while i < nodes.len()
        invariant
            i <= nodes@.len(),
            all@ == node_ranges(text@, nodes@, i as nat),
        decreases nodes.len() - i,
    {
        let (start, end) = nodes[i];
        match (byte_to_char(text, start), byte_to_char(text, end)) {
            (Some(from), Some(to)) => {
                all.push(Range::new(from, to));
            },
            _ => {},
        }
        i += 1;
    }
    select_contained(r, &all)
}

/// Every object that is not empty reaches beyond the position it was found at.
pub open spec fn objects_advance(objects: Seq<Range>) -> bool {
    forall|i: int|
        0 <= i < objects.len() ==> (#[trigger] objects[i]).anchor == objects[i].head
            || objects[i].hi() > i
}

/// The objects met from `pos` to the end of `r`: `objects` holds the one at each position. One
/// that is not empty and lies in `r` is taken, and the search goes on at its end.
pub open spec fn met(text: Text, r: Range, objects: Seq<Range>, pos: int) -> Seq<Range>
    decreases
        (if r.hi() > pos {
            r.hi() - pos
        } else {
            0
        }),
{
    let o = objects[pos].facing(r.faces());
    let next = next_boundary(text.breaks@, pos);
    if pos >= r.hi() {
        Seq::empty()
    } else if o.anchor != o.head && r.lo() <= o.lo() && r.hi() >= o.hi() {
        if o.hi() > pos {
            seq![o] + met(text, r, objects, o.hi())
        } else {
            Seq::empty()
        }
    } else if next > pos {
        met(text, r, objects, next)
    } else {
        Seq::empty()
    }
}

/// Collects the words or the paragraphs in a range: `objects` holds the one at each position.
pub fn select_all_word_textobject_ranges(text: &Text, r: &Range, objects: &Vec<Range>) -> (ranges: Vec<
    Range,
>)
    requires
        text.wf(),
        r.within(text@.len() as int),
        objects@.len() >= text@.len(),
        objects_advance(objects@),
    ensures
        ranges@ == met(*text, *r, objects@, r.lo()),
{
    let mut ranges: Vec<Range> = Vec::new();
    let mut pos = r.from();
    let to = r.to();
    assert(ranges@ + met(*text, *r, objects@, pos as int) =~= met(*text, *r, objects@, pos as int));
    while pos < to
        invariant
            text.wf(),
            r.within(text@.len() as int),
            to == r.hi(),
            objects@.len() >= text@.len(),
            objects_advance(objects@),
            ranges@ + met(*text, *r, objects@, pos as int) == met(*text, *r, objects@, r.lo()),
        decreases
            (if to > pos {
                to - pos
            } else {
                0
            }),
    {
        let o = objects[pos].with_direction(r.direction());
        let ghost before = ranges@;
        if !o.is_empty() && r.contains_range(&o) {
            assert(objects@[pos as int].hi() == o.hi());
            ranges.push(o);
            assert(before + met(*text, *r, objects@, pos as int) =~= ranges@ + met(
                *text,
                *r,
                objects@,
                o.hi(),
            ));
            pos = o.to();
        } else {
            pos = text.next_grapheme_boundary(pos);
        }
    }
    assert(ranges@ + Seq::<Range>::empty() =~= ranges@);
    ranges
}

/// What the objects are selected from: the object at each position, for words and paragraphs; the
/// syntax nodes that each range's language captured; the changes, where there is a diff; and the
/// diagnostics.
pub struct ObjectSources {
    pub at: Vec<Range>,
    pub nodes: Vec<Vec<(usize, usize)>>,
    pub hunks: Option<Vec<Hunk>>,
    pub diagnostics: Vec<Diagnostic>,
}

/// The ranges of changes.
pub open spec fn change_ranges(hunks: Seq<Hunk>, text: Text) -> Seq<Range> {
    Seq::new(hunks.len(), |i: int| range_of_hunk(hunks[i], text))
}

/// The ranges of diagnostics.
pub open spec fn diagnostic_ranges(diagnostics: Seq<Diagnostic>) -> Seq<Range> {
    Seq::new(
        diagnostics.len(),
        |i: int| Range { anchor: diagnostics[i].start, head: diagnostics[i].end },
    )
}

/// The objects that a key selects in range `i` of a selection.
pub open spec fn objects_in(
    text: Text,
    ch: char,
    ranges: Seq<Range>,
    sources: ObjectSources,
    i: int,
) -> Seq<Range> {
    let r = ranges[i];
    if ch == 'w' || ch == 'W' || ch == 'p' {
        met(text, r, sources.at@, r.lo())
    } else if capture_name(ch) is Some {
        let all = node_ranges(text@, sources.nodes@[i]@, sources.nodes@[i]@.len());
        contained(r, all, all.len())
    } else if ch == 'g' {
        let all = match sources.hunks {
            Some(hunks) => change_ranges(hunks@, text),
            None => Seq::empty(),
        };
        contained(r, all, all.len())
    } else if ch == 'd' {
        let all = diagnostic_ranges(sources.diagnostics@);
        contained(r, all, all.len())
    } else if ch == 's' {
        let all = misspelled(sources.diagnostics@, sources.diagnostics@.len());
        contained(r, all, all.len())
    } else {
        Seq::empty()
    }
}

/// The sources hold what the objects of a key are taken from: for words and paragraphs what is
/// found at each character, for captures the nodes of each of `n` ranges.
pub open spec fn sources_fit(text: Text, ch: char, n: nat, sources: ObjectSources) -> bool {
    &&& ch == 'w' || ch == 'W' || ch == 'p' ==> sources.at@.len() >= text@.len()
        && objects_advance(sources.at@)
    &&& capture_name(ch) is Some ==> sources.nodes@.len() == n
}

/// The objects that a key selects in the first `n` ranges.
pub open spec fn all_objects(
    text: Text,
    ch: char,
    ranges: Seq<Range>,
    sources: ObjectSources,
    n: nat,
) -> Seq<Range>
    decreases n,
{
    if n == 0 {
        Seq::empty()
    } else {
        all_objects(text, ch, ranges, sources, (n - 1) as nat) + objects_in(
            text,
            ch,
            ranges,
            sources,
            n - 1,
        )
    }
}

/// The ranges of the changes.
pub fn all_changes(hunks: &Vec<Hunk>, text: &Text) -> (all: Vec<Range>)
    requires
        text@.len() < usize::MAX,
    ensures
        all@ == change_ranges(hunks@, *text),
{
    let mut all: Vec<Range> = Vec::new();
    let mut i: usize = 0;
    while i < hunks.len()
        invariant
            i <= hunks@.len(),
            text@.len() < usize::MAX,
            all@.len() == i,
            forall|j: int| 0 <= j < i ==> all@[j] == range_of_hunk(hunks@[j], *text),
        decreases hunks.len() - i,
    {
        all.push(hunk_range(hunks[i], text));
        i += 1;
    }
    assert(all@ =~= change_ranges(hunks@, *text));
    all
}

fn all_diagnostics(diagnostics: &Vec<Diagnostic>) -> (all: Vec<Range>)
    ensures
        all@ == diagnostic_ranges(diagnostics@),
{
    let mut all: Vec<Range> = Vec::new();
    let mut i: usize = 0;
    while i < diagnostics.len()
        invariant
            i <= diagnostics@.len(),
            all@.len() == i,
            forall|j: int|
                0 <= j < i ==> all@[j] == (Range {
                    anchor: diagnostics@[j].start,
                    head: diagnostics@[j].end,
                }),
        decreases diagnostics.len() - i,
    {
        all.push(Range::new(diagnostics[i].start, diagnostics[i].end));
        i += 1;
    }
    assert(all@ =~= diagnostic_ranges(diagnostics@));
    all
}

fn objects_of_range(
    text: &Text,
    ch: char,
    ranges: &Vec<Range>,
    sources: &ObjectSources,
    i: usize,
) -> (objects: Vec<Range>)
    requires
        text.wf(),
        text@.len() < usize::MAX,
        i < ranges@.len(),
        ranges@[i as int].within(text@.len() as int),
        sources_fit(*text, ch, ranges@.len(), *sources),
    ensures
        objects@ == objects_in(*text, ch, ranges@, *sources, i as int),
{
    let r = ranges[i];
    match all_textobjects_kind(ch) {
        TextObjectKind::Word | TextObjectKind::LongWord | TextObjectKind::Paragraph =>
            select_all_word_textobject_ranges(text, &r, &sources.at),
        TextObjectKind::Syntax(_) => select_all_treesitter_textobject_ranges(
            text,
            &r,
            &sources.nodes[i],
        ),
        TextObjectKind::Change => match &sources.hunks {
            Some(hunks) => select_contained(&r, &all_changes(hunks, text)),
            None => Vec::new(),
        },
        TextObjectKind::Diagnostic => select_contained(&r, &all_diagnostics(&sources.diagnostics)),
        TextObjectKind::Spelling => select_contained(&r, &spelling_ranges(&sources.diagnostics)),
        _ => Vec::new(),
    }
}

/// Selects all objects of a kind inside the selected ranges; there is no selection when none is
/// found. Changes are known only where there is a diff.
pub fn select_all_textobjects_ranges(
    text: &Text,
    selection: &Selection,
    ch: char,
    sources: &ObjectSources,
) -> (selected: Result<Option<Selection>, &'static str>)
    requires
        text.wf(),
        text@.len() < usize::MAX,
        selection.wf(),
        selection.within(text@.len() as int),
        sources_fit(*text, ch, selection.ranges@.len(), *sources),
    ensures
        match selected {
            Err(e) => ch == 'g' && sources.hunks is None && e@
                == "Diff is not available in current buffer"@,
            Ok(found) => {
                let all = all_objects(
                    *text,
                    ch,
                    selection.ranges@,
                    *sources,
                    selection.ranges@.len(),
                );
                &&& !(ch == 'g' && sources.hunks is None)
                &&& found is Some <==> all.len() > 0
                &&& found matches Some(s) ==> s.wf() && s.holds(all, 0)
            },
        },
{
    if ch == 'g' && sources.hunks.is_none() {
        return Err("Diff is not available in current buffer");
    }
    let mut all: Vec<Range> = Vec::new();
    let mut i: usize = 0;
    while i < selection.ranges.len()
        invariant
            i <= selection.ranges@.len(),
            text.wf(),
            text@.len() < usize::MAX,
            selection.within(text@.len() as int),
            sources_fit(*text, ch, selection.ranges@.len(), *sources),
            all@ == all_objects(*text, ch, selection.ranges@, *sources, i as nat),
        decreases selection.ranges.len() - i,
    {
        assert(selection.ranges@[i as int].within(text@.len() as int));
        let mut more = objects_of_range(text, ch, &selection.ranges, sources, i);
        all.append(&mut more);
        i += 1;
    }
    if all.len() == 0 {
        return Ok(None);
    }
    Ok(Some(Selection::new(all, 0)))
}

/// What is shown when no object was selected.
pub fn report_selected(found: bool) -> (message: Option<&'static str>)
    ensures
        found ==> message is None,
        !found ==> (message matches Some(m) && m@ == "nothing selected"@),
{
    if found {
        None
    } else {
        Some("nothing selected")
    }
}

/// The first of the findings that holds `pos`.
pub open spec fn finding_at(findings: Seq<Range>, pos: int) -> Option<Range>
    decreases findings.len(),
{
    if findings.len() == 0 {
        None
    } else if findings[0].lo() <= pos < findings[0].hi() {
        Some(findings[0])
    } else {
        finding_at(findings.skip(1), pos)
    }
}

fn find_finding(findings: &Vec<Range>, pos: usize) -> (found: Option<Range>)
    ensures
        found == finding_at(findings@, pos as int),
{
    let mut i: usize = 0;
    assert(findings@.skip(0) =~= findings@);
    while i < findings.len()
        invariant
            i <= findings@.len(),
            finding_at(findings@, pos as int) == finding_at(findings@.skip(i as int), pos as int),
        decreases findings.len() - i,
    {
        assert(findings@.skip(i as int).skip(1) =~= findings@.skip(i + 1));
        if findings[i].contains(pos) {
            return Some(findings[i]);
        }
        i += 1;
    }
    None
}

/// The range that a change selects: the lines that stand in it now.
pub open spec fn change_object(text: Text, r: Range, hunk: Option<Hunk>) -> Range {
    match hunk {
        Some(h) => range(
            line_start(text@, h.after_start as int),
            line_start(text@, h.after_end as int),
        ).facing(r.faces()),
        None => r,
    }
}

/// A key whose objects are found for each range.
pub open spec fn takes_found(ch: char) -> bool {
    ch == 'w' || ch == 'W' || ch == 'p' || ch == 'm' || capture_name(ch) is Some
        || !ascii_alphanumeric(ch)
}

/// Where range `i` goes when a key selects one object: `found` holds the object that was found
/// for it, `hunks` the change at its cursor's line.
pub open spec fn object_of(
    text: Text,
    ch: char,
    ranges: Seq<Range>,
    found: Seq<Range>,
    hunks: Seq<Option<Hunk>>,
    findings: Seq<Range>,
    i: int,
) -> Range {
    let r = ranges[i];
    if ch == 'g' {
        change_object(text, r, hunks[i])
    } else if ch == 's' {
        match finding_at(findings, r.cursor_in(text)) {
            Some(f) => f.facing(r.faces()),
            None => r,
        }
    } else if takes_found(ch) {
        found[i]
    } else {
        r
    }
}

/// Where all ranges go when a key selects one object.
pub open spec fn objects_of(
    text: Text,
    ch: char,
    ranges: Seq<Range>,
    found: Seq<Range>,
    hunks: Seq<Option<Hunk>>,
    findings: Seq<Range>,
) -> Seq<Range> {
    Seq::new(ranges.len(), |i: int| object_of(text, ch, ranges, found, hunks, findings, i))
}

/// The changes at the cursors' lines; none are known without a diff.
pub open spec fn known_hunks(hunks: Option<Vec<Option<Hunk>>>) -> Seq<Option<Hunk>> {
    match hunks {
        Some(h) => h@,
        None => Seq::empty(),
    }
}

/// Selects one object at each range. `hunks` is the change at each cursor's line, where there is a
/// diff.
pub fn select_textobject(
    text: &Text,
    selection: &Selection,
    ch: char,
    found: &Vec<Range>,
    hunks: &Option<Vec<Option<Hunk>>>,
    findings: &Vec<Range>,
) -> (selected: Result<Selection, &'static str>)
    requires
        text.wf(),
        selection.wf(),
        takes_found(ch) ==> found@.len() == selection.ranges@.len(),
        ch == 'g' ==> (hunks matches Some(h) ==> h@.len() == selection.ranges@.len()),
    ensures
        match selected {
            Err(e) => ch == 'g' && hunks is None && e@ == "Diff is not available in current buffer"@,
            Ok(s) => {
                &&& !(ch == 'g' && hunks is None)
                &&& s.wf()
                &&& s.holds(
                    objects_of(
                        *text,
                        ch,
                        selection.ranges@,
                        found@,
                        known_hunks(*hunks),
                        findings@,
                    ),
                    selection.primary_index as int,
                )
            },
        },
{
    if ch == 'g' && hunks.is_none() {
        return Err("Diff is not available in current buffer");
    }
    let ghost known = known_hunks(*hunks);
    let mut ranges: Vec<Range> = Vec::new();
    let mut i: usize = 0;
    while i < selection.ranges.len()
        invariant
            i <= selection.ranges@.len(),
            text.wf(),
            takes_found(ch) ==> found@.len() == selection.ranges@.len(),
            hunks matches Some(h) ==> known == h@,
            ch == 'g' ==> (hunks matches Some(h) ==> h@.len() == selection.ranges@.len()),
            !(ch == 'g' && hunks is None),
            ranges@.len() == i,
            forall|j: int|
                0 <= j < i ==> ranges@[j] == object_of(
                    *text,
                    ch,
                    selection.ranges@,
                    found@,
                    known,
                    findings@,
                    j,
                ),
        decreases selection.ranges.len() - i,
    {
        let r = selection.ranges[i];
        let object = match textobject_kind(ch) {
            TextObjectKind::Change => match hunks {
                Some(h) => match h[i] {
                    Some(hunk) => {
                        let start = text.line_to_char(hunk.after_start as usize);
                        let end = text.line_to_char(hunk.after_end as usize);
                        Range::new(start, end).with_direction(r.direction())
                    },
                    None => r,
                },
                None => r,
            },
            TextObjectKind::Spelling => match find_finding(findings, r.cursor(text)) {
                Some(f) => f.with_direction(r.direction()),
                None => r,
            },
            TextObjectKind::Nothing => r,
            _ => found[i],
        };
        ranges.push(object);
        i += 1;
    }
    assert(ranges@ =~= objects_of(*text, ch, selection.ranges@, found@, known, findings@));
    Ok(Selection::new(ranges, selection.primary_index))
}

/// Lines of help as they are shown: a key and what it stands for.
pub open spec fn shown_lines(lines: Seq<(&'static str, &'static str)>) -> Seq<(Seq<char>, Seq<char>)> {
    Seq::new(lines.len(), |i: int| (lines[i].0@, lines[i].1@))
}

/// The keys for selecting one object.
pub open spec fn one_object_help() -> Seq<(Seq<char>, Seq<char>)> {
    Seq::empty().push(("w"@, "Word"@))
    .push(("W"@, "WORD"@))
    .push(("p"@, "Paragraph"@))
    .push(("t"@, "Type definition (tree-sitter)"@))
    .push(("f"@, "Function (tree-sitter)"@))
    .push(("a"@, "Argument/parameter (tree-sitter)"@))
    .push(("c"@, "Comment (tree-sitter)"@))
    .push(("T"@, "Test (tree-sitter)"@))
    .push(("e"@, "Data structure entry (tree-sitter)"@))
    .push(("m"@, "Closest surrounding pair (tree-sitter)"@))
    .push(("g"@, "Change"@))
    .push(("s"@, "Spelling finding"@))
    .push(("x"@, "(X)HTML element (tree-sitter)"@))
    .push((" "@, "... or any character acting as a pair"@))
}

/// The keys for selecting all objects.
pub open spec fn all_objects_help() -> Seq<(Seq<char>, Seq<char>)> {
    Seq::empty().push(("w"@, "Word"@))
    .push(("W"@, "WORD"@))
    .push(("p"@, "Paragraph"@))
    .push(("t"@, "Type definition (tree-sitter)"@))
    .push(("f"@, "Function (tree-sitter)"@))
    .push(("a"@, "Argument/parameter (tree-sitter)"@))
    .push(("c"@, "Comment (tree-sitter)"@))
    .push(("T"@, "Test (tree-sitter)"@))
    .push(("e"@, "Data structure entry (tree-sitter)"@))
    .push(("g"@, "Change"@))
    .push(("d"@, "Diagnostic"@))
    .push(("s"@, "Spelling finding"@))
    .push(("x"@, "(X)HTML element (tree-sitter)"@))
}

/// The help for selecting one object.
pub fn select_textobject_help(around: bool) -> (info: (&'static str, Vec<(&'static str, &'static str)>))
    ensures
        info.0@ == (if around {
            "Match around"@
        } else {
            "Match inside"@
        }),
        shown_lines(info.1@) == one_object_help(),
{
    let title = if around {
        "Match around"
    } else {
        "Match inside"
    };
    let mut lines: Vec<(&'static str, &'static str)> = Vec::new();
    lines.push(("w", "Word"));
    lines.push(("W", "WORD"));
    lines.push(("p", "Paragraph"));
    lines.push(("t", "Type definition (tree-sitter)"));
    lines.push(("f", "Function (tree-sitter)"));
    lines.push(("a", "Argument/parameter (tree-sitter)"));
    lines.push(("c", "Comment (tree-sitter)"));
    lines.push(("T", "Test (tree-sitter)"));
    lines.push(("e", "Data structure entry (tree-sitter)"));
    lines.push(("m", "Closest surrounding pair (tree-sitter)"));
    lines.push(("g", "Change"));
    lines.push(("s", "Spelling finding"));
    lines.push(("x", "(X)HTML element (tree-sitter)"));
    lines.push((" ", "... or any character acting as a pair"));
    assert(shown_lines(lines@) =~= one_object_help());
    (title, lines)
}

/// The help for selecting all objects.
pub fn select_all_textobjects_help(around: bool) -> (info: (&'static str, Vec<(&'static str, &'static str)>))
    ensures
        info.0@ == (if around {
            "Select all around"@
        } else {
            "Select all inside"@
        }),
        shown_lines(info.1@) == all_objects_help(),
{
    let title = if around {
        "Select all around"
    } else {
        "Select all inside"
    };
    let mut lines: Vec<(&'static str, &'static str)> = Vec::new();
    lines.push(("w", "Word"));
    lines.push(("W", "WORD"));
    lines.push(("p", "Paragraph"));
    lines.push(("t", "Type definition (tree-sitter)"));
    lines.push(("f", "Function (tree-sitter)"));
    lines.push(("a", "Argument/parameter (tree-sitter)"));
    lines.push(("c", "Comment (tree-sitter)"));
    lines.push(("T", "Test (tree-sitter)"));
    lines.push(("e", "Data structure entry (tree-sitter)"));
    lines.push(("g", "Change"));
    lines.push(("d", "Diagnostic"));
    lines.push(("s", "Spelling finding"));
    lines.push(("x", "(X)HTML element (tree-sitter)"));
    assert(shown_lines(lines@) =~= all_objects_help());
    (title, lines)
}

/// Every range lies in `r`.
pub open spec fn inside(r: Range, s: Seq<Range>) -> bool {
    forall|k: int| 0 <= k < s.len() ==> r.lo() <= (#[trigger] s[k]).lo() && s[k].hi() <= r.hi()
}

/// Selecting all objects never leaves the range they are selected in: listed objects are taken
/// only where they lie in it.
pub proof fn listed_objects_lie_inside(r: Range, objects: Seq<Range>, n: nat)
    requires
        n <= objects.len(),
    ensures
        inside(r, contained(r, objects, n)),
    decreases n,
{
    if n > 0 {
        listed_objects_lie_inside(r, objects, (n - 1) as nat);
    }
}

/// Words and paragraphs that are met on the way through a range lie in it.
pub proof fn met_objects_lie_inside(text: Text, r: Range, objects: Seq<Range>, pos: int)
    ensures
        inside(r, met(text, r, objects, pos)),
    decreases
            (if r.hi() > pos {
                r.hi() - pos
            } else {
                0
            }),
{
    let o = objects[pos].facing(r.faces());
    let next = next_boundary(text.breaks@, pos);
    if pos >= r.hi() {
    } else if o.anchor != o.head && r.lo() <= o.lo() && r.hi() >= o.hi() {
        if o.hi() > pos {
            met_objects_lie_inside(text, r, objects, o.hi());
            let rest = met(text, r, objects, o.hi());
            let all = seq![o] + rest;
            assert forall|k: int| 0 <= k < all.len() implies r.lo() <= (#[trigger] all[k]).lo()
                && all[k].hi() <= r.hi() by {
                if k > 0 {
                    assert(all[k] == rest[k - 1]);
                }
            }
        }
    } else if next > pos {
        met_objects_lie_inside(text, r, objects, next);
    }
}

/// Every object that lies inside a range is listed, facing as the range does.
pub proof fn objects_inside_are_listed(r: Range, objects: Seq<Range>, n: nat, i: int)
    requires
        n <= objects.len(),
        0 <= i < n,
        r.lo() <= objects[i].lo(),
        objects[i].hi() <= r.hi(),
    ensures
        contained(r, objects, n).contains(objects[i].facing(r.faces())),
    decreases n,
{
    let before = contained(r, objects, (n - 1) as nat);
    let all = contained(r, objects, n);
    let o = objects[i].facing(r.faces());
    if i == n - 1 {
        assert(all[before.len() as int] == o);
    } else {
        objects_inside_are_listed(r, objects, (n - 1) as nat, i);
        let k = choose|k: int| 0 <= k < before.len() && before[k] == o;
        assert(all[k] == o);
    }
}

/// The character of a byte is the last that begins at or before it.
pub proof fn bytes_belong_to_their_characters(s: Seq<char>, b: int)
    requires
        b >= 0,
    ensures
        ({
            let k = char_of_byte(s, b);
            &&& 0 <= k <= s.len()
            &&& bytes(s.take(k)) <= b
            &&& k < s.len() ==> bytes(s.take(k + 1)) > b
        }),
    decreases s.len(),
{
    assert(s.take(s.len() as int) =~= s);
    if s.len() > 0 && bytes(s) > b {
        let front = s.drop_last();
        bytes_belong_to_their_characters(front, b);
        let k = char_of_byte(s, b);
        assert(front.take(k) =~= s.take(k));
        if k < front.len() {
            assert(front.take(k + 1) =~= s.take(k + 1));
        } else {
            assert(s.take(k + 1) =~= s);
        }
    } else {
        assert(s.take(0) =~= Seq::<char>::empty());
    }
}

/// Each syntax node that lies in the text gives the range of its characters, and nodes that reach
/// beyond it give none.
pub proof fn nodes_become_ranges(s: Seq<char>, nodes: Seq<(usize, usize)>, n: nat, r: Range)
    requires
        n <= nodes.len(),
    ensures
        node_ranges(s, nodes, n).contains(r) <==> exists|i: int|
            0 <= i < n && (#[trigger] nodes[i]).0 <= bytes(s) && nodes[i].1 <= bytes(s) && r == range(
                char_of_byte(s, nodes[i].0 as int),
                char_of_byte(s, nodes[i].1 as int),
            ),
    decreases n,
{
    if n > 0 {
        let m = (n - 1) as nat;
        nodes_become_ranges(s, nodes, m, r);
        let a = node_ranges(s, nodes, m);
        let b = node_ranges(s, nodes, n);
        if b.len() > a.len() {
            assert(b[a.len() as int] == b.last());
        }
        if a.contains(r) {
            let k = choose|k: int| 0 <= k < a.len() && a[k] == r;
            assert(b[k] == r);
        } else if b.contains(r) {
            let k = choose|k: int| 0 <= k < b.len() && b[k] == r;
            if k < a.len() {
                assert(a[k] == r);
            }
        }
    }
}

/// The finding at a position is the first that holds it.
pub proof fn findings_hold_their_position(findings: Seq<Range>, pos: int)
    ensures
        match finding_at(findings, pos) {
            Some(f) => exists|k: int|
                0 <= k < findings.len() && #[trigger] findings[k] == f && f.lo() <= pos < f.hi()
                    && forall|j: int|
                    0 <= j < k ==> !((#[trigger] findings[j]).lo() <= pos < findings[j].hi()),
            None => forall|j: int|
                0 <= j < findings.len() ==> !((#[trigger] findings[j]).lo() <= pos
                    < findings[j].hi()),
        },
    decreases findings.len(),
{
    if findings.len() > 0 {
        if findings[0].lo() <= pos < findings[0].hi() {
            assert(findings[0] == finding_at(findings, pos)->0);
        } else {
            let rest = findings.skip(1);
            findings_hold_their_position(rest, pos);
            assert(forall|j: int| 0 < j < findings.len() ==> rest[j - 1] == #[trigger] findings[j]);
            if let Some(f) = finding_at(findings, pos) {
                let k = choose|k: int|
                    0 <= k < rest.len() && #[trigger] rest[k] == f && f.lo() <= pos < f.hi()
                        && forall|j: int|
                        0 <= j < k ==> !((#[trigger] rest[j]).lo() <= pos < rest[j].hi());
                assert(findings[k + 1] == f);
                assert forall|j: int| 0 <= j < k + 1 implies !((#[trigger] findings[j]).lo() <= pos
                    < findings[j].hi()) by {
                    if j > 0 {
                        assert(rest[j - 1] == findings[j]);
                    }
                }
            }
        }
    }
}

/// The change around a range covers its lines, facing as the range does; where there is no change
/// the range stays.
pub proof fn changes_are_whole_lines(text: Text, r: Range, hunk: Hunk)
    requires
        text@.len() < usize::MAX,
        hunk.after_start < hunk.after_end <= crate::text::newlines(text@),
    ensures
        ({
            let new = change_object(text, r, Some(hunk));
            &&& crate::text::newlines(text@.take(new.lo())) == hunk.after_start
            &&& crate::text::newlines(text@.take(new.hi())) == hunk.after_end
            &&& new.lo() == 0 || text@[new.lo() - 1] == '\n'
            &&& text@[new.hi() - 1] == '\n'
            &&& new.faces() == r.faces()
        }),
        change_object(text, r, None) == r,
{
    crate::text::lines_lie_between_line_feeds(text@, hunk.after_start as int);
    crate::text::lines_lie_between_line_feeds(text@, hunk.after_end as int);
    crate::text::lemma_line_start_monotonic(
        text@,
        hunk.after_start + 1,
        hunk.after_end as int,
    );
}

/// The letters that name syntax nodes name nothing else, and no two of them the same kind of node.
pub proof fn letters_name_one_kind_of_node(a: char, b: char)
    ensures
        capture_name(a) is Some ==> a != 'w' && a != 'W' && a != 'p' && a != 'g' && a != 'd' && a != 's'
            && a != 'm',
        capture_name(a) is Some && capture_name(a) == capture_name(b) ==> a == b,
        capture_name(a) is Some ==> ascii_alphanumeric(a),
{
    reveal_strlit("class");
    reveal_strlit("function");
    reveal_strlit("parameter");
    reveal_strlit("comment");
    reveal_strlit("test");
    reveal_strlit("entry");
    reveal_strlit("xml-element");
    if capture_name(a) is Some && capture_name(a) == capture_name(b) {
        assert(capture_name(a)->0.len() == capture_name(b)->0.len());
        assert(capture_name(a)->0[0] == capture_name(b)->0[0]);
        assert(capture_name(a)->0[1] == capture_name(b)->0[1]);
    }
}

/// The first object that is listed is the first one met that lies in the range, turned the way the
/// range faces; where no object lies in it none is listed.
pub proof fn the_first_object_met_is_listed(text: Text, r: Range, objects: Seq<Range>, pos: int)
    requires
        text.wf(),
        0 <= pos,
        r.hi() <= text@.len(),
        text@.len() <= objects.len(),
        objects_advance(objects),
    ensures
        pos < r.hi() && objects[pos].anchor != objects[pos].head && r.lo() <= objects[pos].lo()
            && objects[pos].hi() <= r.hi() ==> {
            let all = met(text, r, objects, pos);
            &&& all.len() > 0
            &&& all[0].lo() == objects[pos].lo()
            &&& all[0].hi() == objects[pos].hi()
            &&& all[0].faces() == r.faces()
            &&& all.skip(1) == met(text, r, objects, objects[pos].hi())
        },
        (forall|k: int|
            pos <= k < r.hi() ==> (#[trigger] objects[k]).anchor == objects[k].head || objects[k].lo()
                < r.lo() || r.hi() < objects[k].hi()) ==> met(text, r, objects, pos).len() == 0,
    decreases
            (if r.hi() > pos {
                r.hi() - pos
            } else {
                0
            }),
{
    let next = next_boundary(text.breaks@, pos);
    if pos < r.hi() {
        let o = objects[pos].facing(r.faces());
        assert(o.lo() == objects[pos].lo() && o.hi() == objects[pos].hi());
        if o.anchor != o.head && r.lo() <= o.lo() && r.hi() >= o.hi() {
            assert(met(text, r, objects, pos).skip(1) =~= met(text, r, objects, o.hi()));
        } else if next > pos {
            the_first_object_met_is_listed(text, r, objects, next);
        }
    }
}

/// A range without an object to select stays as it is. A spelling finding is selected where the
/// cursor stands in it, and the range goes on facing the way it did.
pub proof fn ranges_without_an_object_stay(
    text: Text,
    ch: char,
    ranges: Seq<Range>,
    found: Seq<Range>,
    hunks: Seq<Option<Hunk>>,
    findings: Seq<Range>,
    i: int,
)
    requires
        0 <= i < ranges.len(),
    ensures
        ({
            let new = objects_of(text, ch, ranges, found, hunks, findings)[i];
            let cursor = ranges[i].cursor_in(text);
            &&& ch == 'g' && hunks[i] is None ==> new == ranges[i]
            &&& ch == 's' && (forall|k: int|
                0 <= k < findings.len() ==> !((#[trigger] findings[k]).lo() <= cursor
                    < findings[k].hi())) ==> new == ranges[i]
            &&& ch == 's' && (exists|k: int|
                0 <= k < findings.len() && (#[trigger] findings[k]).lo() <= cursor
                    < findings[k].hi()) ==> new.lo() <= cursor < new.hi() && new.faces()
                == ranges[i].faces()
            &&& ch == 'w' || ch == 'W' || ch == 'p' || ch == 'm' || ch == '(' || ch == '"'
                ==> new == found[i]
            &&& ch == 'd' || ch == 'z' || ch == '0' ==> new == ranges[i]
        }),
{
    findings_hold_their_position(findings, ranges[i].cursor_in(text));
}

} // verus!
