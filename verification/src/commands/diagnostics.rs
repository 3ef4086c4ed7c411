//! Diagnostics: moving between them, listing them, and copying their messages.

use crate::commands::catalog::same_text;
use crate::commands::links::string_views;
use crate::range::{min, Range};
use crate::selection::Selection;
use crate::strings::{decimal, to_chars, to_decimal};
use crate::text::{line_of, Text};
use vstd::prelude::*;

verus! {

/// How bad a diagnostic is.
#[derive(Clone, Copy, Debug, PartialEq, Eq, Structural)]
pub enum Severity {
    Hint,
    Info,
    Warning,
    Error,
}

/// The code of a diagnostic.
pub enum NumberOrString {
    Number(i32),
    Text(String),
}

/// A diagnostic of an open document.
pub struct Diagnostic {
    pub start: usize,
    pub end: usize,
    pub severity: Option<Severity>,
    pub code: Option<NumberOrString>,
    pub source: Option<String>,
    pub message: String,
    /// The spelling checker found it.
    pub spelling: bool,
}

/// Selects the first diagnostic.
pub fn goto_first_diag(diagnostics: &Vec<Diagnostic>) -> (selection: Option<Selection>)
    ensures
        selection is Some <==> diagnostics@.len() > 0,
        selection matches Some(s) ==> s.wf() && s.primary_index == 0 && s.ranges@ == seq![
            Range { anchor: diagnostics@[0].start, head: diagnostics@[0].end },
        ],
{
    if diagnostics.len() == 0 {
        return None;
    }
    Some(Selection::single(diagnostics[0].start, diagnostics[0].end))
}

/// Selects the last diagnostic.
pub fn goto_last_diag(diagnostics: &Vec<Diagnostic>) -> (selection: Option<Selection>)
    ensures
        selection is Some <==> diagnostics@.len() > 0,
        selection matches Some(s) ==> s.wf() && s.primary_index == 0 && s.ranges@ == seq![
            Range {
                anchor: diagnostics@.last().start,
                head: diagnostics@.last().end,
            },
        ],
{
    if diagnostics.len() == 0 {
        return None;
    }
    let k = diagnostics.len() - 1;
    Some(Selection::single(diagnostics[k].start, diagnostics[k].end))
}

/// The first diagnostic, from place `i` on, that begins behind the cursor.
pub open spec fn next_from(diagnostics: Seq<Diagnostic>, cursor: int, i: int) -> Option<int>
    decreases diagnostics.len() - i,
{
    if i < 0 || i >= diagnostics.len() {
        None
    } else if diagnostics[i].start > cursor {
        Some(i)
    } else {
        next_from(diagnostics, cursor, i + 1)
    }
}

/// The last of the first `n` diagnostics that begins before the cursor.
pub open spec fn last_below(diagnostics: Seq<Diagnostic>, cursor: int, n: nat) -> Option<int>
    decreases n,
{
    if n == 0 {
        None
    } else if diagnostics[n - 1].start < cursor {
        Some(n - 1)
    } else {
        last_below(diagnostics, cursor, (n - 1) as nat)
    }
}

/// Selects the first diagnostic that begins behind the cursor.
pub fn goto_next_diag(diagnostics: &Vec<Diagnostic>, cursor: usize) -> (selection: Option<Selection>)
    ensures
        match next_from(diagnostics@, cursor as int, 0) {
            Some(k) => selection matches Some(s) && s.ranges@ == seq![
                Range { anchor: diagnostics@[k].start, head: diagnostics@[k].end },
            ],
            None => selection is None,
        },
        selection is None ==> forall|i: int|
            0 <= i < diagnostics@.len() ==> (#[trigger] diagnostics@[i]).start <= cursor,
        selection matches Some(s) ==> s.wf() && s.primary_index == 0 && exists|k: int|
            0 <= k < diagnostics@.len() && (#[trigger] diagnostics@[k]).start > cursor && (forall|
                i: int,
            |
                0 <= i < k ==> (#[trigger] diagnostics@[i]).start <= cursor) && s.ranges@ == seq![
                Range { anchor: diagnostics@[k].start, head: diagnostics@[k].end },
            ],
{
    let mut i: usize = 0;
    while i < diagnostics.len()
        invariant
            i <= diagnostics@.len(),
            next_from(diagnostics@, cursor as int, 0) == next_from(
                diagnostics@,
                cursor as int,
                i as int,
            ),
            forall|j: int| 0 <= j < i ==> (#[trigger] diagnostics@[j]).start <= cursor,
        decreases diagnostics.len() - i,
    {
        if diagnostics[i].start > cursor {
            assert(diagnostics@[i as int].start > cursor);
            return Some(Selection::single(diagnostics[i].start, diagnostics[i].end));
        }
        i += 1;
    }
    None
}

/// Selects the last diagnostic that begins before the cursor, with the cursor at its beginning.
pub fn goto_prev_diag(diagnostics: &Vec<Diagnostic>, cursor: usize) -> (selection: Option<Selection>)
    ensures
        match last_below(diagnostics@, cursor as int, diagnostics@.len()) {
            Some(k) => selection matches Some(s) && s.ranges@ == seq![
                Range { anchor: diagnostics@[k].end, head: diagnostics@[k].start },
            ],
            None => selection is None,
        },
        selection is None ==> forall|i: int|
            0 <= i < diagnostics@.len() ==> (#[trigger] diagnostics@[i]).start >= cursor,
        selection matches Some(s) ==> s.wf() && s.primary_index == 0 && exists|k: int|
            0 <= k < diagnostics@.len() && (#[trigger] diagnostics@[k]).start < cursor && (forall|
                i: int,
            |
                k < i < diagnostics@.len() ==> (#[trigger] diagnostics@[i]).start >= cursor)
                && s.ranges@ == seq![
                Range { anchor: diagnostics@[k].end, head: diagnostics@[k].start },
            ],
{
    let mut n: usize = diagnostics.len();
    while n > 0
        invariant
            n <= diagnostics@.len(),
            last_below(diagnostics@, cursor as int, diagnostics@.len()) == last_below(
                diagnostics@,
                cursor as int,
                n as nat,
            ),
            forall|j: int|
                n <= j < diagnostics@.len() ==> (#[trigger] diagnostics@[j]).start >= cursor,
        decreases n,
    {
        if diagnostics[n - 1].start < cursor {
            assert(diagnostics@[n - 1].start < cursor);
            return Some(Selection::single(diagnostics[n - 1].end, diagnostics[n - 1].start));
        }
        n -= 1;
    }
    None
}

/// The order of severities; a diagnostic without one comes after all others.
pub open spec fn rank(severity: Option<Severity>) -> int {
    match severity {
        None => 0,
        Some(Severity::Hint) => 1,
        Some(Severity::Info) => 2,
        Some(Severity::Warning) => 3,
        Some(Severity::Error) => 4,
    }
}

fn rank_of(severity: Option<Severity>) -> (r: u8)
    ensures
        r == rank(severity),
{
    match severity {
        None => 0,
        Some(Severity::Hint) => 1,
        Some(Severity::Info) => 2,
        Some(Severity::Warning) => 3,
        Some(Severity::Error) => 4,
    }
}

/// How a server counts the characters of a line.
#[derive(Clone, Copy, Debug, PartialEq, Eq, Structural)]
pub enum OffsetEncoding {
    Utf8,
    Utf16,
    Utf32,
}

/// A range as servers give it: lines, and characters in them.
#[derive(Clone, Copy, Debug, PartialEq, Eq, Structural)]
pub struct LspRange {
    pub start_line: u32,
    pub start_character: u32,
    pub end_line: u32,
    pub end_character: u32,
}

/// Where a listed diagnostic is.
pub enum DiagnosticLocation {
    /// In an open document, which may have no path; in its own characters.
    Document { doc_id: u64, path: Option<String>, start: usize, end: usize },
    /// In a file that is not open, where the server says. An address may be none of a file.
    File { uri: String, path: Option<String>, range: LspRange, offset_encoding: OffsetEncoding },
}

/// A diagnostic in a list.
pub struct PickerDiagnostic {
    pub location: DiagnosticLocation,
    pub severity: Option<Severity>,
    pub code: Option<NumberOrString>,
    pub source: Option<String>,
    pub message: String,
}

/// The characters of a string that may be missing.
pub open spec fn text_of(s: Option<String>) -> Option<Seq<char>> {
    match s {
        Some(s) => Some(s@),
        None => None,
    }
}

fn copy_text(s: &Option<String>) -> (copy: Option<String>)
    ensures
        text_of(copy) == text_of(*s),
{
    match s {
        Some(s) => Some(s.clone()),
        None => None,
    }
}

/// The code of a diagnostic as a value.
pub enum CodeView {
    Number(i32),
    Text(Seq<char>),
}

/// The code of a diagnostic as a value.
pub open spec fn code_of(code: Option<NumberOrString>) -> Option<CodeView> {
    match code {
        Some(NumberOrString::Number(n)) => Some(CodeView::Number(n)),
        Some(NumberOrString::Text(s)) => Some(CodeView::Text(s@)),
        None => None,
    }
}

fn copy_code(code: &Option<NumberOrString>) -> (copy: Option<NumberOrString>)
    ensures
        code_of(copy) == code_of(*code),
{
    match code {
        Some(NumberOrString::Number(n)) => Some(NumberOrString::Number(*n)),
        Some(NumberOrString::Text(s)) => Some(NumberOrString::Text(s.clone())),
        None => None,
    }
}

/// Where a listed diagnostic is, as a value.
pub enum LocationView {
    Document { doc_id: u64, path: Option<Seq<char>>, start: usize, end: usize },
    File {
        uri: Seq<char>,
        path: Option<Seq<char>>,
        range: LspRange,
        offset_encoding: OffsetEncoding,
    },
}

/// A listed diagnostic as a value.
pub struct PickerView {
    pub location: LocationView,
    pub severity: Option<Severity>,
    pub code: Option<CodeView>,
    pub source: Option<Seq<char>>,
    pub message: Seq<char>,
}

impl View for DiagnosticLocation {
    type V = LocationView;

    open spec fn view(&self) -> LocationView {
        match self {
            DiagnosticLocation::Document { doc_id, path, start, end } => LocationView::Document {
                doc_id: *doc_id,
                path: text_of(*path),
                start: *start,
                end: *end,
            },
            DiagnosticLocation::File { uri, path, range, offset_encoding } => LocationView::File {
                uri: uri@,
                path: text_of(*path),
                range: *range,
                offset_encoding: *offset_encoding,
            },
        }
    }
}

impl View for PickerDiagnostic {
    type V = PickerView;

    open spec fn view(&self) -> PickerView {
        PickerView {
            location: self.location@,
            severity: self.severity,
            code: code_of(self.code),
            source: text_of(self.source),
            message: self.message@,
        }
    }
}

/// Listed diagnostics as values.
pub open spec fn items(list: Seq<PickerDiagnostic>) -> Seq<PickerView> {
    list.map_values(|d: PickerDiagnostic| d@)
}

proof fn lemma_items_push(list: Seq<PickerDiagnostic>, d: PickerDiagnostic)
    ensures
        items(list.push(d)) == items(list).push(d@),
{
    assert(items(list.push(d)) =~= items(list).push(d@));
}

/// An open document whose diagnostics are listed.
pub struct OpenDocument {
    pub id: u64,
    pub path: Option<String>,
    pub diagnostics: Vec<Diagnostic>,
}

/// How a diagnostic of an open document is listed.
pub open spec fn document_item(document: OpenDocument, d: Diagnostic) -> PickerView {
    PickerView {
        location: LocationView::Document {
            doc_id: document.id,
            path: text_of(document.path),
            start: d.start,
            end: d.end,
        },
        severity: d.severity,
        code: code_of(d.code),
        source: text_of(d.source),
        message: d.message@,
    }
}

/// How the diagnostics of an open document are listed.
pub open spec fn document_items(document: OpenDocument) -> Seq<PickerView> {
    document.diagnostics@.map_values(|d: Diagnostic| document_item(document, d))
}

fn push_document(list: &mut Vec<PickerDiagnostic>, document: &OpenDocument)
    ensures
        items(final(list)@) == items(old(list)@) + document_items(*document),
{
    let ghost before = items(list@);
    let ghost all = document_items(*document);
    let mut i: usize = 0;
    assert(before + all.take(0) =~= before);
    while i < document.diagnostics.len()
        invariant
            i <= document.diagnostics@.len(),
            all == document_items(*document),
            items(list@) == before + all.take(i as int),
        decreases document.diagnostics.len() - i,
    {
        let d = &document.diagnostics[i];
        let item = PickerDiagnostic {
            location: DiagnosticLocation::Document {
                doc_id: document.id,
                path: copy_text(&document.path),
                start: d.start,
                end: d.end,
            },
            severity: d.severity,
            code: copy_code(&d.code),
            source: copy_text(&d.source),
            message: d.message.clone(),
        };
        proof {
            assert(item@ == all[i as int]);
            lemma_items_push(list@, item);
            assert((before + all.take(i as int)).push(item@) =~= before + all.take(i + 1));
        }
        list.push(item);
        i += 1;
    }
    assert(all.take(i as int) =~= all);
}

/// The diagnostics of an open document, from all who found them.
pub fn open_document_diagnostics(document: &OpenDocument) -> (list: Vec<PickerDiagnostic>)
    ensures
        items(list@) == document_items(*document),
{
    let mut list: Vec<PickerDiagnostic> = Vec::new();
    assert(items(list@) =~= Seq::<PickerView>::empty());
    push_document(&mut list, document);
    assert(items(list@) =~= document_items(*document));
    list
}

/// The severity that a language server gave as a number.
pub open spec fn numbered_severity(n: Option<i32>) -> Option<Severity> {
    match n {
        Some(1) => Some(Severity::Error),
        Some(2) => Some(Severity::Warning),
        Some(3) => Some(Severity::Info),
        Some(4) => Some(Severity::Hint),
        _ => None,
    }
}

/// A diagnostic as a server reported it, and how that server counts characters while it runs.
pub struct StoredDiagnostic {
    pub range: LspRange,
    pub severity: Option<i32>,
    pub code: Option<NumberOrString>,
    pub source: Option<String>,
    pub message: String,
    pub offset_encoding: Option<OffsetEncoding>,
}

/// The diagnostics that servers reported for an address, and the path it stands for.
pub struct StoredFile {
    pub uri: String,
    pub path: Option<String>,
    pub diagnostics: Vec<StoredDiagnostic>,
}

/// How a reported diagnostic of a file that is not open is listed; not at all once its server is
/// gone.
pub open spec fn stored_item(file: StoredFile, d: StoredDiagnostic) -> Option<PickerView> {
    match d.offset_encoding {
        Some(offset_encoding) => Some(
            PickerView {
                location: LocationView::File {
                    uri: file.uri@,
                    path: text_of(file.path),
                    range: d.range,
                    offset_encoding,
                },
                severity: numbered_severity(d.severity),
                code: code_of(d.code),
                source: text_of(d.source),
                message: d.message@,
            },
        ),
        None => None,
    }
}

/// Lists a reported diagnostic of a file that is not open.
pub fn store_diagnostic(file: &StoredFile, d: &StoredDiagnostic) -> (item: Option<PickerDiagnostic>)
    ensures
        match item {
            Some(i) => stored_item(*file, *d) == Some(i@),
            None => stored_item(*file, *d) is None,
        },
{
    match d.offset_encoding {
        Some(offset_encoding) => Some(
            PickerDiagnostic {
                location: DiagnosticLocation::File {
                    uri: file.uri.clone(),
                    path: copy_text(&file.path),
                    range: d.range,
                    offset_encoding,
                },
                severity: match d.severity {
                    Some(1) => Some(Severity::Error),
                    Some(2) => Some(Severity::Warning),
                    Some(3) => Some(Severity::Info),
                    Some(4) => Some(Severity::Hint),
                    _ => None,
                },
                code: copy_code(&d.code),
                source: copy_text(&d.source),
                message: d.message.clone(),
            },
        ),
        None => None,
    }
}

/// How the first `n` reported diagnostics of a file are listed.
pub open spec fn stored_items(file: StoredFile, n: nat) -> Seq<PickerView>
    decreases n,
{
    if n == 0 {
        Seq::empty()
    } else {
        let before = stored_items(file, (n - 1) as nat);
        match stored_item(file, file.diagnostics@[n - 1]) {
            Some(item) => before.push(item),
            None => before,
        }
    }
}

fn push_file(list: &mut Vec<PickerDiagnostic>, file: &StoredFile)
    ensures
        items(final(list)@) == items(old(list)@) + stored_items(*file, file.diagnostics@.len()),
{
    let ghost before = items(list@);
    let mut i: usize = 0;
    assert(before + Seq::<PickerView>::empty() =~= before);
    while i < file.diagnostics.len()
        invariant
            i <= file.diagnostics@.len(),
            items(list@) == before + stored_items(*file, i as nat),
        decreases file.diagnostics.len() - i,
    {
        match store_diagnostic(file, &file.diagnostics[i]) {
            Some(item) => {
                proof {
                    lemma_items_push(list@, item);
                    assert(items(list@).push(item@) =~= before + stored_items(
                        *file,
                        (i + 1) as nat,
                    ));
                }
                list.push(item);
            },
            None => {},
        }
        i += 1;
    }
}

/// The diagnostics of one rank, in their order.
pub open spec fn of_rank(list: Seq<PickerView>, r: int) -> Seq<PickerView>
    decreases list.len(),
{
    if list.len() == 0 {
        Seq::empty()
    } else {
        let before = of_rank(list.drop_last(), r);
        if rank(list.last().severity) == r {
            before.push(list.last())
        } else {
            before
        }
    }
}

/// The diagnostics below a rank, in their order.
pub open spec fn below_rank(list: Seq<PickerView>, r: int) -> Seq<PickerView>
    decreases list.len(),
{
    if list.len() == 0 {
        Seq::empty()
    } else {
        let before = below_rank(list.drop_last(), r);
        if rank(list.last().severity) < r {
            before.push(list.last())
        } else {
            before
        }
    }
}

/// Diagnostics, the most severe first; those of one severity keep their order.
pub open spec fn by_severity(list: Seq<PickerView>) -> Seq<PickerView> {
    of_rank(list, 4) + of_rank(list, 3) + of_rank(list, 2) + of_rank(list, 1) + of_rank(list, 0)
}

proof fn lemma_below_rank(list: Seq<PickerView>, r: int, q: int)
    requires
        q < r,
    ensures
        of_rank(below_rank(list, r), q) == of_rank(list, q),
        below_rank(below_rank(list, r), q) == below_rank(list, q),
    decreases list.len(),
{
    if list.len() > 0 {
        lemma_below_rank(list.drop_last(), r, q);
        let before = below_rank(list.drop_last(), r);
        if rank(list.last().severity) < r {
            assert(before.push(list.last()).drop_last() =~= before);
        }
    }
}

proof fn lemma_all_below(list: Seq<PickerView>)
    ensures
        below_rank(list, 5) == list,
        below_rank(list, 0) == Seq::<PickerView>::empty(),
    decreases list.len(),
{
    if list.len() > 0 {
        lemma_all_below(list.drop_last());
        assert(list.drop_last().push(list.last()) =~= list);
    } else {
        assert(below_rank(list, 5) =~= list);
    }
}

/// Moves the diagnostics of a rank behind those in `sorted`, and keeps the ones below it.
fn move_rank(sorted: &mut Vec<PickerDiagnostic>, list: Vec<PickerDiagnostic>, r: u8) -> (rest: Vec<
    PickerDiagnostic,
>)
    requires
        forall|i: int| 0 <= i < list@.len() ==> rank((#[trigger] list@[i]).severity) <= r,
    ensures
        items(final(sorted)@) == items(old(sorted)@) + of_rank(items(list@), r as int),
        items(rest@) == below_rank(items(list@), r as int),
        forall|i: int| 0 <= i < rest@.len() ==> rank((#[trigger] rest@[i]).severity) < r,
{
    let ghost before = items(sorted@);
    let ghost whole = list@;
    let ghost all = items(list@);
    let mut list = list;
    let mut rest: Vec<PickerDiagnostic> = Vec::new();
    let ghost mut i: int = 0;
    assert(whole.skip(0) =~= whole);
    assert(all.take(0) =~= Seq::<PickerView>::empty());
    assert(before + Seq::<PickerView>::empty() =~= before);
    assert(items(rest@) =~= Seq::<PickerView>::empty());
    while list.len() > 0
        invariant
            0 <= i <= whole.len(),
            list@ == whole.skip(i),
            all == items(whole),
            forall|i: int| 0 <= i < whole.len() ==> rank((#[trigger] whole[i]).severity) <= r,
            items(sorted@) == before + of_rank(all.take(i), r as int),
            items(rest@) == below_rank(all.take(i), r as int),
            forall|i: int| 0 <= i < rest@.len() ==> rank((#[trigger] rest@[i]).severity) < r,
        decreases list.len(),
    {
        let d = list.remove(0);
        proof {
            assert(d == whole[i]);
            assert(all[i] == d@);
            assert(all.take(i + 1).drop_last() =~= all.take(i));
            assert(whole.skip(i).remove(0) =~= whole.skip(i + 1));
            i = i + 1;
        }
        if rank_of(d.severity) == r {
            proof {
                lemma_items_push(sorted@, d);
                assert(items(sorted@).push(d@) =~= before + of_rank(all.take(i), r as int));
            }
            sorted.push(d);
        } else {
            proof {
                lemma_items_push(rest@, d);
            }
            rest.push(d);
        }
    }
    assert(all.take(i) =~= all);
    rest
}

fn sort_by_severity(list: Vec<PickerDiagnostic>) -> (sorted: Vec<PickerDiagnostic>)
    ensures
        items(sorted@) == by_severity(items(list@)),
{
    let ghost all = items(list@);
    let mut sorted: Vec<PickerDiagnostic> = Vec::new();
    assert(items(sorted@) =~= Seq::<PickerView>::empty());
    let mut rest = list;
    let mut r: u8 = 5;
    proof {
        lemma_all_below(all);
    }
    let ghost mut done = Seq::<PickerView>::empty();
    while r > 0
        invariant
            r <= 5,
            items(rest@) == below_rank(all, r as int),
            forall|i: int| 0 <= i < rest@.len() ==> rank((#[trigger] rest@[i]).severity) < r,
            items(sorted@) == done,
            done == (if r == 5 {
                Seq::empty()
            } else if r == 4 {
                of_rank(all, 4)
            } else if r == 3 {
                of_rank(all, 4) + of_rank(all, 3)
            } else if r == 2 {
                of_rank(all, 4) + of_rank(all, 3) + of_rank(all, 2)
            } else if r == 1 {
                of_rank(all, 4) + of_rank(all, 3) + of_rank(all, 2) + of_rank(all, 1)
            } else {
                by_severity(all)
            }),
        decreases r,
    {
        r -= 1;
        proof {
            lemma_below_rank(all, r + 1, r as int);
            done = done + of_rank(all, r as int);
            if r == 4 {
                assert(done =~= of_rank(all, 4));
            }
        }
        rest = move_rank(&mut sorted, rest, r);
    }
    sorted
}

/// A list of diagnostics holds each of them once, and none that is more severe comes after one that
/// is less.
pub proof fn listed_by_severity(list: Seq<PickerView>)
    ensures
        by_severity(list).to_multiset() == list.to_multiset(),
        forall|a: int, b: int|
            0 <= a < b < by_severity(list).len() ==> rank(
                (#[trigger] by_severity(list)[a]).severity,
            ) >= rank((#[trigger] by_severity(list)[b]).severity),
{
    lemma_same_items(list);
    let all = by_severity(list);
    assert forall|a: int, b: int| 0 <= a < b < all.len() implies rank((#[trigger] all[a]).severity)
        >= rank((#[trigger] all[b]).severity) by {
        lemma_rank_at(list, a);
        lemma_rank_at(list, b);
    }
}

/// Every diagnostic of a part has the rank of the part.
proof fn lemma_rank_of_part(list: Seq<PickerView>, r: int)
    ensures
        forall|k: int|
            0 <= k < of_rank(list, r).len() ==> rank((#[trigger] of_rank(list, r)[k]).severity)
                == r,
    decreases list.len(),
{
    if list.len() > 0 {
        lemma_rank_of_part(list.drop_last(), r);
    }
}

/// The rank of the diagnostic at a place of the list.
proof fn lemma_rank_at(list: Seq<PickerView>, k: int)
    requires
        0 <= k < by_severity(list).len(),
    ensures
        ({
            let l4 = of_rank(list, 4).len();
            let l3 = l4 + of_rank(list, 3).len();
            let l2 = l3 + of_rank(list, 2).len();
            let l1 = l2 + of_rank(list, 1).len();
            rank(by_severity(list)[k].severity) == if k < l4 {
                4int
            } else if k < l3 {
                3
            } else if k < l2 {
                2
            } else if k < l1 {
                1
            } else {
                0
            }
        }),
{
    lemma_rank_of_part(list, 4);
    lemma_rank_of_part(list, 3);
    lemma_rank_of_part(list, 2);
    lemma_rank_of_part(list, 1);
    lemma_rank_of_part(list, 0);
    let p4 = of_rank(list, 4);
    let p3 = of_rank(list, 3);
    let p2 = of_rank(list, 2);
    let p1 = of_rank(list, 1);
    let p0 = of_rank(list, 0);
    let l4 = p4.len() as int;
    let l3 = l4 + p3.len();
    let l2 = l3 + p2.len();
    let l1 = l2 + p1.len();
    let at = by_severity(list)[k];
    if k < l4 {
        assert(at == p4[k]);
    } else if k < l3 {
        assert(at == p3[k - l4]);
    } else if k < l2 {
        assert(at == p2[k - l3]);
    } else if k < l1 {
        assert(at == p1[k - l2]);
    } else {
        assert(at == p0[k - l1]);
    }
}

/// The parts of a list together.
spec fn together(list: Seq<PickerView>) -> vstd::multiset::Multiset<PickerView> {
    of_rank(list, 4).to_multiset().add(of_rank(list, 3).to_multiset()).add(
        of_rank(list, 2).to_multiset(),
    ).add(of_rank(list, 1).to_multiset()).add(of_rank(list, 0).to_multiset())
}

proof fn lemma_together(list: Seq<PickerView>)
    ensures
        together(list) == list.to_multiset(),
    decreases list.len(),
{
    broadcast use vstd::seq_lib::group_to_multiset_ensures;

    if list.len() == 0 {
        assert(list =~= Seq::<PickerView>::empty());
        assert(together(list) =~= list.to_multiset());
    } else {
        lemma_together(list.drop_last());
        assert(list.drop_last().push(list.last()) =~= list);
        assert(together(list) =~= together(list.drop_last()).insert(list.last()));
    }
}

proof fn lemma_same_items(list: Seq<PickerView>)
    ensures
        by_severity(list).to_multiset() == list.to_multiset(),
{
    let p4 = of_rank(list, 4);
    let p3 = of_rank(list, 3);
    let p2 = of_rank(list, 2);
    let p1 = of_rank(list, 1);
    let p0 = of_rank(list, 0);
    vstd::seq_lib::lemma_multiset_commutative(p4, p3);
    vstd::seq_lib::lemma_multiset_commutative(p4 + p3, p2);
    vstd::seq_lib::lemma_multiset_commutative(p4 + p3 + p2, p1);
    vstd::seq_lib::lemma_multiset_commutative(p4 + p3 + p2 + p1, p0);
    lemma_together(list);
}

/// Whether the paths of diagnostics are listed.
#[derive(Clone, Copy, Debug, PartialEq, Eq, Structural)]
pub enum DiagnosticsFormat {
    ShowSourcePath,
    HideSourcePath,
}

/// The columns of a list of diagnostics, and which of them is searched.
pub fn diagnostic_columns(format: DiagnosticsFormat) -> (columns: (Vec<&'static str>, usize))
    ensures
        columns.0@ == column_names(format),
        columns.1 == columns.0@.len() - 1,
{
    let mut names: Vec<&'static str> = Vec::new();
    names.push("severity");
    names.push("source");
    names.push("code");
    match format {
        DiagnosticsFormat::ShowSourcePath => {
            names.push("path");
        },
        DiagnosticsFormat::HideSourcePath => {},
    }
    let primary = names.len();
    names.push("message");
    assert(names@ =~= column_names(format));
    (names, primary)
}

/// The word for a severity.
pub open spec fn severity_word(severity: Option<Severity>) -> Seq<char> {
    match severity {
        Some(Severity::Hint) => "HINT"@,
        Some(Severity::Info) => "INFO"@,
        Some(Severity::Warning) => "WARN"@,
        Some(Severity::Error) => "ERROR"@,
        None => ""@,
    }
}

/// How a severity is listed: behind its icon, where icons are on.
pub fn severity_column(severity: Option<Severity>, icon: Option<&str>) -> (content: String)
    ensures
        content@ == (match icon {
            Some(icon) if severity is Some => icon@ + severity_word(severity),
            _ => severity_word(severity),
        }),
{
    let word = match severity {
        Some(Severity::Hint) => "HINT",
        Some(Severity::Info) => "INFO",
        Some(Severity::Warning) => "WARN",
        Some(Severity::Error) => "ERROR",
        None => "",
    };
    match icon {
        Some(icon) if severity.is_some() => {
            let mut content = String::from_str(icon);
            content.append(word);
            content
        },
        _ => String::from_str(word),
    }
}

/// The decimal representation of an integer.
pub open spec fn signed_decimal(n: int) -> Seq<char> {
    if n < 0 {
        seq!['-'] + decimal((-n) as nat)
    } else {
        decimal(n as nat)
    }
}

/// Writes an integer in decimal.
pub fn to_signed_decimal(n: i32) -> (s: String)
    ensures
        s@ == signed_decimal(n as int),
{
    if n < 0 {
        let positive: i64 = -(n as i64);
        let digits = to_decimal(positive as usize);
        let mut s = String::new();
        s.push('-');
        s.append(digits.as_str());
        assert(s@ =~= signed_decimal(n as int));
        s
    } else {
        to_decimal(n as usize)
    }
}

/// How the code of a diagnostic is listed.
pub fn code_column(code: &Option<NumberOrString>) -> (content: String)
    ensures
        content@ == (match code {
            Some(NumberOrString::Number(n)) => signed_decimal(*n as int),
            Some(NumberOrString::Text(s)) => s@,
            None => ""@,
        }),
{
    match code {
        Some(NumberOrString::Number(n)) => to_signed_decimal(*n),
        Some(NumberOrString::Text(s)) => s.clone(),
        None => String::from_str(""),
    }
}

/// How the path of a diagnostic is listed, given as it is to be shown; a buffer without a path has
/// a word for it.
pub fn path_column(item: &PickerDiagnostic, shown: Option<&str>) -> (content: String)
    ensures
        content@ == (match shown {
            Some(path) => path@,
            None => if item.location is Document {
                "[scratch]"@
            } else {
                ""@
            },
        }),
{
    match shown {
        Some(path) => String::from_str(path),
        None => match &item.location {
            DiagnosticLocation::Document { .. } => String::from_str("[scratch]"),
            DiagnosticLocation::File { .. } => String::from_str(""),
        },
    }
}

/// A list of diagnostics to pick from: the diagnostics, the names of the columns, and which of the
/// columns is searched.
pub struct DiagnosticsPicker {
    pub diagnostics: Vec<PickerDiagnostic>,
    pub columns: Vec<&'static str>,
    pub primary_column: usize,
}

/// The names of the columns of a list of diagnostics.
pub open spec fn column_names(format: DiagnosticsFormat) -> Seq<&'static str> {
    match format {
        DiagnosticsFormat::ShowSourcePath => seq!["severity", "source", "code", "path", "message"],
        DiagnosticsFormat::HideSourcePath => seq!["severity", "source", "code", "message"],
    }
}

/// Makes a list of diagnostics, the most severe first.
pub fn diag_picker(diagnostics: Vec<PickerDiagnostic>, format: DiagnosticsFormat) -> (picker:
    DiagnosticsPicker)
    ensures
        items(picker.diagnostics@) == by_severity(items(diagnostics@)),
        picker.columns@ == column_names(format),
        picker.primary_column == picker.columns@.len() - 1,
{
    let (columns, primary_column) = diagnostic_columns(format);
    DiagnosticsPicker { diagnostics: sort_by_severity(diagnostics), columns, primary_column }
}

/// Lists the diagnostics of a document.
pub fn diagnostics_picker(document: &OpenDocument) -> (picker: DiagnosticsPicker)
    ensures
        items(picker.diagnostics@) == by_severity(document_items(*document)),
        picker.columns@ == column_names(DiagnosticsFormat::HideSourcePath),
        picker.primary_column == 3,
{
    diag_picker(open_document_diagnostics(document), DiagnosticsFormat::HideSourcePath)
}

/// One of some documents has this path.
pub open spec fn is_open(documents: Seq<OpenDocument>, path: Seq<char>) -> bool {
    exists|i: int|
        0 <= i < documents.len() && text_of((#[trigger] documents[i]).path) == Some(path)
}

fn find_document(documents: &Vec<OpenDocument>, path: &str) -> (b: bool)
    ensures
        b == is_open(documents@, path@),
{
    let mut i: usize = 0;
    while i < documents.len()
        invariant
            i <= documents@.len(),
            forall|j: int|
                0 <= j < i ==> text_of((#[trigger] documents@[j]).path) != Some(path@),
        decreases documents.len() - i,
    {
        let found: bool = match &documents[i].path {
            Some(p) => same_text(p.as_str(), path),
            None => false,
        };
        if found {
            assert(text_of(documents@[i as int].path) == Some(path@));
            return true;
        }
        i += 1;
    }
    false
}

/// The diagnostics of the first `n` open documents.
pub open spec fn open_items(documents: Seq<OpenDocument>, n: nat) -> Seq<PickerView>
    decreases n,
{
    if n == 0 {
        Seq::empty()
    } else {
        open_items(documents, (n - 1) as nat) + document_items(documents[n - 1])
    }
}

/// The reported diagnostics of those of the first `n` files that are not open. The documents hold
/// the diagnostics of the others themselves.
pub open spec fn closed_items(
    documents: Seq<OpenDocument>,
    files: Seq<StoredFile>,
    n: nat,
) -> Seq<PickerView>
    decreases n,
{
    if n == 0 {
        Seq::empty()
    } else {
        let before = closed_items(documents, files, (n - 1) as nat);
        let file = files[n - 1];
        match text_of(file.path) {
            Some(path) if is_open(documents, path) => before,
            _ => before + stored_items(file, file.diagnostics@.len()),
        }
    }
}

/// Lists the diagnostics of all open documents, and those that servers reported for other files.
pub fn workspace_diagnostics_picker(documents: &Vec<OpenDocument>, files: &Vec<StoredFile>) -> (
picker: DiagnosticsPicker)
    ensures
        items(picker.diagnostics@) == by_severity(
            open_items(documents@, documents@.len()) + closed_items(
                documents@,
                files@,
                files@.len(),
            ),
        ),
        picker.columns@ == column_names(DiagnosticsFormat::ShowSourcePath),
        picker.primary_column == 4,
{
    let mut list: Vec<PickerDiagnostic> = Vec::new();
    let mut i: usize = 0;
    assert(items(list@) =~= Seq::<PickerView>::empty());
    while i < documents.len()
        invariant
            i <= documents@.len(),
            items(list@) == open_items(documents@, i as nat),
        decreases documents.len() - i,
    {
        push_document(&mut list, &documents[i]);
        i += 1;
    }
    let ghost open = open_items(documents@, documents@.len());
    let mut k: usize = 0;
    assert(open + Seq::<PickerView>::empty() =~= open);
    while k < files.len()
        invariant
            k <= files@.len(),
            items(list@) == open + closed_items(documents@, files@, k as nat),
        decreases files.len() - k,
    {
        let held: bool = match &files[k].path {
            Some(path) => find_document(documents, path.as_str()),
            None => false,
        };
        if !held {
            let ghost before = items(list@);
            push_file(&mut list, &files[k]);
            assert(items(list@) =~= open + closed_items(documents@, files@, (k + 1) as nat));
        }
        k += 1;
    }
    diag_picker(list, DiagnosticsFormat::ShowSourcePath)
}

/// Where picking a diagnostic goes.
pub enum DiagnosticJump {
    /// To a range of a file that is to be opened.
    File { path: String, range: LspRange, offset_encoding: OffsetEncoding },
    /// To a selection in an open document.
    Document { doc_id: u64, selection: Selection },
    /// Nowhere: the document was closed.
    Closed,
    /// Nowhere: the address is none of a file.
    NoFile(String),
}

/// The selection of a diagnostic in a text of `len` characters, with the cursor at its beginning;
/// one that reaches beyond the text is cut at its end.
pub open spec fn diagnostic_range(start: usize, end: usize, len: int) -> Range {
    Range { anchor: min(end as int, len) as usize, head: min(start as int, len) as usize }
}

fn select_diagnostic(start: usize, end: usize, len: usize) -> (selection: Selection)
    ensures
        selection.wf(),
        selection.primary_index == 0,
        selection.ranges@ == seq![diagnostic_range(start, end, len as int)],
{
    let anchor = if end <= len {
        end
    } else {
        len
    };
    let head = if start <= len {
        start
    } else {
        len
    };
    Selection::single(anchor, head)
}

/// Where picking a diagnostic goes. `len` is the length of its document, as long as that is open.
pub fn jump_to_diagnostic(location: &DiagnosticLocation, len: Option<usize>) -> (jump: DiagnosticJump)
    ensures
        match *location {
            DiagnosticLocation::File { uri, path, range, offset_encoding } => match path {
                Some(p) => jump matches DiagnosticJump::File {
                    path: to,
                    range: r,
                    offset_encoding: e,
                } && to@ == p@ && r == range && e == offset_encoding,
                None => jump matches DiagnosticJump::NoFile(m) && m@
                    == "unable to convert URI to filepath: "@ + uri@,
            },
            DiagnosticLocation::Document { doc_id, path, start, end } => match len {
                Some(n) => jump matches DiagnosticJump::Document { doc_id: id, selection } && id
                    == doc_id && selection.wf() && selection.primary_index == 0 && selection.ranges@
                    == seq![diagnostic_range(start, end, n as int)],
                None => jump is Closed,
            },
        },
{
    match location {
        DiagnosticLocation::File { uri, path, range, offset_encoding } => match path {
            Some(p) => DiagnosticJump::File {
                path: p.clone(),
                range: *range,
                offset_encoding: *offset_encoding,
            },
            None => {
                let mut m = String::from_str("unable to convert URI to filepath: ");
                m.append(uri.as_str());
                DiagnosticJump::NoFile(m)
            },
        },
        DiagnosticLocation::Document { doc_id, start, end, .. } => match len {
            Some(n) => DiagnosticJump::Document {
                doc_id: *doc_id,
                selection: select_diagnostic(*start, *end, n),
            },
            None => DiagnosticJump::Closed,
        },
    }
}

/// What is shown beside a list for the picked diagnostic.
pub enum DiagnosticPreview {
    File(String, (usize, usize)),
    Document(u64, (usize, usize)),
}

/// The lines that are shown for a diagnostic. `text` is that of its document, as long as that is
/// open.
pub fn diagnostic_file_location(location: &DiagnosticLocation, text: Option<&Text>) -> (preview: Option<
    DiagnosticPreview,
>)
    ensures
        match *location {
            DiagnosticLocation::File { uri, path, range, offset_encoding } => match path {
                Some(p) => preview matches Some(DiagnosticPreview::File(to, lines)) && to@ == p@
                    && lines.0 == range.start_line && lines.1 == range.end_line,
                None => preview is None,
            },
            DiagnosticLocation::Document { doc_id, path, start, end } => match text {
                Some(t) => preview matches Some(DiagnosticPreview::Document(id, lines)) && id
                    == doc_id && lines.0 == line_of(t@, min(start as int, t@.len() as int))
                    && lines.1 == line_of(t@, min(end as int, t@.len() as int)),
                None => preview is None,
            },
        },
{
    match location {
        DiagnosticLocation::File { path, range, .. } => match path {
            Some(p) => Some(
                DiagnosticPreview::File(
                    p.clone(),
                    (range.start_line as usize, range.end_line as usize),
                ),
            ),
            None => None,
        },
        DiagnosticLocation::Document { doc_id, start, end, .. } => match text {
            Some(t) => {
                let len = t.len_chars();
                let first = if *start <= len {
                    *start
                } else {
                    len
                };
                let last = if *end <= len {
                    *end
                } else {
                    len
                };
                Some(
                    DiagnosticPreview::Document(
                        *doc_id,
                        (t.char_to_line(first), t.char_to_line(last)),
                    ),
                )
            },
            None => None,
        },
    }
}

/// A diagnostic as an entry of the quicklist.
pub enum DiagnosticEntry {
    File { path: String, range: LspRange, offset_encoding: OffsetEncoding },
    Document { doc_id: u64, selection: Selection },
}

/// The entry of the quicklist for a diagnostic. `len` is the length of its document, as long as
/// that is open.
pub fn diagnostic_quicklist_entry(location: &DiagnosticLocation, len: Option<usize>) -> (entry: Option<
    DiagnosticEntry,
>)
    ensures
        match *location {
            DiagnosticLocation::File { uri, path, range, offset_encoding } => match path {
                Some(p) => entry matches Some(
                    DiagnosticEntry::File { path: to, range: r, offset_encoding: e },
                ) && to@ == p@ && r == range && e == offset_encoding,
                None => entry is None,
            },
            DiagnosticLocation::Document { doc_id, path, start, end } => match len {
                Some(n) => entry matches Some(
                    DiagnosticEntry::Document { doc_id: id, selection },
                ) && id == doc_id && selection.wf() && selection.primary_index == 0
                    && selection.ranges@ == seq![diagnostic_range(start, end, n as int)],
                None => entry is None,
            },
        },
{
    match jump_to_diagnostic(location, len) {
        DiagnosticJump::File { path, range, offset_encoding } => Some(
            DiagnosticEntry::File { path, range, offset_encoding },
        ),
        DiagnosticJump::Document { doc_id, selection } => Some(
            DiagnosticEntry::Document { doc_id, selection },
        ),
        DiagnosticJump::Closed => None,
        DiagnosticJump::NoFile(_) => None,
    }
}

/// The part of the theme that a severity is shown with.
pub fn severity_style(severity: Option<Severity>) -> (style: Option<&'static str>)
    ensures
        match severity {
            Some(Severity::Hint) => style matches Some(s) && s@ == "hint"@,
            Some(Severity::Info) => style matches Some(s) && s@ == "info"@,
            Some(Severity::Warning) => style matches Some(s) && s@ == "warning"@,
            Some(Severity::Error) => style matches Some(s) && s@ == "error"@,
            None => style is None,
        },
{
    match severity {
        Some(Severity::Hint) => Some("hint"),
        Some(Severity::Info) => Some("info"),
        Some(Severity::Warning) => Some("warning"),
        Some(Severity::Error) => Some("error"),
        None => None,
    }
}

/// The messages of the diagnostics that overlap a range, among the first `n`.
pub open spec fn messages_under(diagnostics: Seq<Diagnostic>, r: Range, n: nat) -> Seq<Seq<char>>
    decreases n,
{
    if n == 0 {
        Seq::empty()
    } else {
        let before = messages_under(diagnostics, r, (n - 1) as nat);
        let d = diagnostics[n - 1];
        if r.overlapping(Range { anchor: d.start, head: d.end }) {
            before.push(d.message@)
        } else {
            before
        }
    }
}

/// Why no diagnostic was copied.
pub enum YankError {
    InvalidRegister(String),
    Nothing,
}

impl YankError {
    /// The error as it is shown.
    pub fn message(&self) -> (m: &str)
        ensures
            m@ == (match self {
                YankError::InvalidRegister(m) => m@,
                YankError::Nothing => "No diagnostics under primary selection"@,
            }),
    {
        match self {
            YankError::InvalidRegister(m) => m.as_str(),
            YankError::Nothing => "No diagnostics under primary selection",
        }
    }
}

/// What is told when diagnostics were copied.
pub open spec fn yank_status(n: nat, register: char) -> Seq<char> {
    ("Yanked "@ + decimal(n) + " diagnostic"@ + (if n == 1 {
        ""@
    } else {
        "s"@
    }) + " to register "@).push(register)
}

/// The register that an argument names: its only character, or the clipboard without one.
pub open spec fn named_register(arg: Option<Seq<char>>) -> Option<char> {
    match arg {
        Some(s) => if s.len() == 1 {
            Some(s[0])
        } else {
            None
        },
        None => Some('+'),
    }
}

/// Copies the messages of the diagnostics under the primary range to a register.
pub fn yank_diagnostic(arg: Option<&str>, diagnostics: &Vec<Diagnostic>, primary: &Range) -> (done:
    Result<(char, Vec<String>, String), YankError>)
    ensures
        ({
            let register = named_register(
                match arg {
                    Some(s) => Some(s@),
                    None => None,
                },
            );
            let messages = messages_under(diagnostics@, *primary, diagnostics@.len());
            match done {
                Ok((reg, copied, status)) => register == Some(reg) && messages.len() > 0
                    && string_views(copied@) == messages && status@ == yank_status(
                    messages.len(),
                    reg,
                ),
                Err(YankError::InvalidRegister(message)) => register is None && message@
                    == "Invalid register "@ + arg->0@,
                Err(YankError::Nothing) => register is Some && messages.len() == 0,
            }
        }),
{
    let register = match arg {
        Some(s) => {
            let chars = to_chars(s);
            if chars.len() != 1 {
                let mut message = String::from_str("Invalid register ");
                message.append(s);
                return Err(YankError::InvalidRegister(message));
            }
            chars[0]
        },
        None => '+',
    };
    let mut copied: Vec<String> = Vec::new();
    let mut i: usize = 0;
    assert(string_views(copied@) =~= Seq::<Seq<char>>::empty());
    while i < diagnostics.len()
        invariant
            i <= diagnostics@.len(),
            string_views(copied@) == messages_under(diagnostics@, *primary, i as nat),
        decreases diagnostics.len() - i,
    {
        let r = Range::new(diagnostics[i].start, diagnostics[i].end);
        if primary.overlaps(&r) {
            let message = diagnostics[i].message.clone();
            assert(string_views(copied@.push(message)) =~= string_views(copied@).push(message@));
            copied.push(message);
        }
        i += 1;
    }
    assert(string_views(copied@).len() == copied@.len());
    let n = copied.len();
    if n == 0 {
        return Err(YankError::Nothing);
    }
    let mut status = String::from_str("Yanked ");
    status.append(to_decimal(n).as_str());
    status.append(" diagnostic");
    status.append(
        if n == 1 {
            ""
        } else {
            "s"
        },
    );
    status.append(" to register ");
    status.push(register);
    Ok((register, copied, status))
}

/// Errors are listed before warnings, these before infos, these before hints, and diagnostics
/// without a severity come last.
pub proof fn errors_are_listed_first(list: Seq<PickerView>, i: int, j: int)
    requires
        0 <= i < j < by_severity(list).len(),
    ensures
        ({
            let (a, b) = (by_severity(list)[i].severity, by_severity(list)[j].severity);
            &&& b == Some(Severity::Error) ==> a == Some(Severity::Error)
            &&& b == Some(Severity::Warning) ==> a == Some(Severity::Error) || a == Some(
                Severity::Warning,
            )
            &&& b == Some(Severity::Info) ==> a is Some && a != Some(Severity::Hint)
            &&& b == Some(Severity::Hint) ==> a is Some
        }),
{
    listed_by_severity(list);
    let all = by_severity(list);
    assert(rank(all[i].severity) >= rank(all[j].severity));
}

/// Servers number severities from 1, for errors, to 4, for hints: the lower the number, the
/// earlier it is listed. Every other number, and none, stands for no severity.
pub proof fn severities_are_numbered_from_errors_on(a: i32, b: i32)
    ensures
        numbered_severity(Some(1)) == Some(Severity::Error),
        1 <= a < b <= 4 ==> rank(numbered_severity(Some(a))) > rank(numbered_severity(Some(b))),
        1 <= a <= 4 <==> numbered_severity(Some(a)) is Some,
        numbered_severity(None) is None,
{
}

/// A diagnostic of a file that is not open is listed, with all that was reported of it, as long as
/// its server runs.
pub proof fn reported_diagnostics_are_listed(file: StoredFile, d: StoredDiagnostic)
    ensures
        stored_item(file, d) is Some <==> d.offset_encoding is Some,
        stored_item(file, d) matches Some(item) ==> {
            &&& item.message == d.message@
            &&& item.severity == numbered_severity(d.severity)
            &&& item.location matches LocationView::File { uri, path, range, offset_encoding } && uri
                == file.uri@ && path == text_of(file.path) && range == d.range && Some(
                offset_encoding,
            ) == d.offset_encoding
        },
{
}

proof fn lemma_stored_items(file: StoredFile, n: nat, item: PickerView)
    requires
        n <= file.diagnostics@.len(),
    ensures
        stored_items(file, n).contains(item) <==> exists|i: int|
            0 <= i < n && stored_item(file, #[trigger] file.diagnostics@[i]) == Some(item),
    decreases n,
{
    if n > 0 {
        let m = (n - 1) as nat;
        lemma_stored_items(file, m, item);
        let a = stored_items(file, m);
        let b = stored_items(file, n);
        if b.len() > a.len() {
            assert(b[a.len() as int] == b.last());
        }
        if a.contains(item) {
            let k = choose|k: int| 0 <= k < a.len() && a[k] == item;
            assert(b[k] == item);
        } else if b.contains(item) {
            let k = choose|k: int| 0 <= k < b.len() && b[k] == item;
            if k < a.len() {
                assert(a[k] == item);
            }
        }
        if exists|i: int| 0 <= i < n && stored_item(file, #[trigger] file.diagnostics@[i]) == Some(
            item,
        ) {
            let i = choose|i: int|
                0 <= i < n && stored_item(file, #[trigger] file.diagnostics@[i]) == Some(item);
            if i < m {
                assert(stored_item(file, file.diagnostics@[i]) == Some(item));
            } else {
                assert(b.last() == item);
            }
        }
    }
}

/// What servers reported for a file is listed exactly when no open document has its path: the
/// documents list their own diagnostics.
pub proof fn files_that_are_open_are_not_listed_twice(
    documents: Seq<OpenDocument>,
    files: Seq<StoredFile>,
    n: nat,
    item: PickerView,
)
    requires
        n <= files.len(),
    ensures
        closed_items(documents, files, n).contains(item) <==> exists|i: int, j: int|
            #![trigger files[i].diagnostics@[j]]
            0 <= i < n && 0 <= j < files[i].diagnostics@.len() && stored_item(
                files[i],
                files[i].diagnostics@[j],
            ) == Some(item) && !(files[i].path is Some && exists|k: int|
                0 <= k < documents.len() && (#[trigger] documents[k]).path is Some
                    && documents[k].path->0@ == files[i].path->0@),
    decreases n,
{
    if n > 0 {
        let m = (n - 1) as nat;
        files_that_are_open_are_not_listed_twice(documents, files, m, item);
        let a = closed_items(documents, files, m);
        let b = closed_items(documents, files, n);
        let file = files[n - 1];
        let open = file.path is Some && exists|k: int|
            0 <= k < documents.len() && (#[trigger] documents[k]).path is Some
                && documents[k].path->0@ == file.path->0@;
        if file.path is Some {
            assert(open == is_open(documents, file.path->0@)) by {
                if open {
                    let k = choose|k: int|
                        0 <= k < documents.len() && (#[trigger] documents[k]).path is Some
                            && documents[k].path->0@ == file.path->0@;
                    assert(text_of(documents[k].path) == Some(file.path->0@));
                }
                if is_open(documents, file.path->0@) {
                    let k = choose|k: int|
                        0 <= k < documents.len() && text_of((#[trigger] documents[k]).path) == Some(
                            file.path->0@,
                        );
                    assert(documents[k].path is Some);
                }
            }
        }
        let more = stored_items(file, file.diagnostics@.len());
        lemma_stored_items(file, file.diagnostics@.len(), item);
        assert(!open ==> b == a + more);
        assert(open ==> b == a);
        if a.contains(item) {
            let k = choose|k: int| 0 <= k < a.len() && a[k] == item;
            assert(b[k] == item);
            let (i, j) = choose|i: int, j: int|
                #![trigger files[i].diagnostics@[j]]
                0 <= i < m && 0 <= j < files[i].diagnostics@.len() && stored_item(
                    files[i],
                    files[i].diagnostics@[j],
                ) == Some(item) && !(files[i].path is Some && exists|k: int|
                    0 <= k < documents.len() && (#[trigger] documents[k]).path is Some
                        && documents[k].path->0@ == files[i].path->0@);
            assert(stored_item(files[i], files[i].diagnostics@[j]) == Some(item));
        } else if b.contains(item) {
            let k = choose|k: int| 0 <= k < b.len() && b[k] == item;
            if k < a.len() {
                assert(a[k] == item);
            }
            assert(!open);
            assert(more[k - a.len()] == item);
            let j = choose|j: int|
                0 <= j < file.diagnostics@.len() && stored_item(
                    file,
                    #[trigger] file.diagnostics@[j],
                ) == Some(item);
            assert(stored_item(files[n - 1], files[n - 1].diagnostics@[j]) == Some(item));
        }
        if exists|i: int, j: int|
            #![trigger files[i].diagnostics@[j]]
            0 <= i < n && 0 <= j < files[i].diagnostics@.len() && stored_item(
                files[i],
                files[i].diagnostics@[j],
            ) == Some(item) && !(files[i].path is Some && exists|k: int|
                0 <= k < documents.len() && (#[trigger] documents[k]).path is Some
                    && documents[k].path->0@ == files[i].path->0@) {
            let (i, j) = choose|i: int, j: int|
                #![trigger files[i].diagnostics@[j]]
                0 <= i < n && 0 <= j < files[i].diagnostics@.len() && stored_item(
                    files[i],
                    files[i].diagnostics@[j],
                ) == Some(item) && !(files[i].path is Some && exists|k: int|
                    0 <= k < documents.len() && (#[trigger] documents[k]).path is Some
                        && documents[k].path->0@ == files[i].path->0@);
            if i < m {
                assert(stored_item(files[i], files[i].diagnostics@[j]) == Some(item));
                assert(a.contains(item));
            } else {
                assert(stored_item(file, file.diagnostics@[j]) == Some(item));
                assert(more.contains(item));
                let k = choose|k: int| 0 <= k < more.len() && more[k] == item;
                assert(b[a.len() + k] == item);
            }
        }
    }
}

/// The selection of a diagnostic covers it, with the cursor at its beginning, and never reaches
/// beyond the text.
pub proof fn diagnostics_are_selected_in_the_text(start: usize, end: usize, len: usize)
    requires
        start <= end,
    ensures
        ({
            let r = diagnostic_range(start, end, len as int);
            &&& r.head <= r.anchor <= len
            &&& end <= len ==> r.head == start && r.anchor == end
            &&& start <= len < end ==> r.head == start && r.anchor == len
        }),
{
}

/// The messages that are copied are those of the diagnostics that overlap the range.
pub proof fn overlapping_messages_are_copied(
    diagnostics: Seq<Diagnostic>,
    r: Range,
    n: nat,
    message: Seq<char>,
)
    requires
        n <= diagnostics.len(),
    ensures
        messages_under(diagnostics, r, n).contains(message) <==> exists|i: int|
            0 <= i < n && (#[trigger] diagnostics[i]).message@ == message && r.overlapping(
                Range { anchor: diagnostics[i].start, head: diagnostics[i].end },
            ),
    decreases n,
{
    if n > 0 {
        let m = (n - 1) as nat;
        overlapping_messages_are_copied(diagnostics, r, m, message);
        let a = messages_under(diagnostics, r, m);
        let b = messages_under(diagnostics, r, n);
        if b.len() > a.len() {
            assert(b[a.len() as int] == b.last());
        }
        if a.contains(message) {
            let k = choose|k: int| 0 <= k < a.len() && a[k] == message;
            assert(b[k] == message);
        } else if b.contains(message) {
            let k = choose|k: int| 0 <= k < b.len() && b[k] == message;
            if k < a.len() {
                assert(a[k] == message);
            }
        }
    }
}

/// An argument names the register that is its only character; without one it is the clipboard's.
pub proof fn registers_are_single_characters(c: char, s: Seq<char>)
    ensures
        named_register(Some(seq![c])) == Some(c),
        s.len() != 1 ==> named_register(Some(s)) is None,
        named_register(None) == Some(crate::commands::registers::CLIPBOARD),
        crate::commands::registers::register_named(seq![c]) == Some(c),
        s.len() != 1 ==> crate::commands::registers::register_named(s) is None,
{
}

/// A negative number is written as its opposite behind a minus sign; others without a sign.
pub proof fn negative_numbers_carry_a_sign(n: int)
    requires
        n > 0,
    ensures
        signed_decimal(-n) == seq!['-'] + signed_decimal(n),
        signed_decimal(n) == decimal(n as nat),
        signed_decimal(0) == decimal(0),
{
}

/// Where each diagnostic begins behind the one before, going on from the beginning of one leads to
/// the next, and going back to the one before.
pub proof fn diagnostics_are_passed_one_by_one(diagnostics: Seq<Diagnostic>, k: int)
    requires
        0 <= k < diagnostics.len(),
        forall|i: int, j: int|
            0 <= i < j < diagnostics.len() ==> (#[trigger] diagnostics[i]).start < (
            #[trigger] diagnostics[j]).start,
    ensures
        next_from(diagnostics, diagnostics[k].start as int, 0) == (if k + 1 < diagnostics.len() {
            Some(k + 1)
        } else {
            None
        }),
        last_below(diagnostics, diagnostics[k].start as int, diagnostics.len()) == (if k > 0 {
            Some(k - 1)
        } else {
            None
        }),
{
    let cursor = diagnostics[k].start as int;
    assert forall|j: int| 0 <= j <= k implies (#[trigger] diagnostics[j]).start <= cursor by {
        if j < k {
            assert(diagnostics[j].start < diagnostics[k].start);
        }
    }
    assert forall|j: int| k <= j < diagnostics.len() implies (#[trigger] diagnostics[j]).start
        >= cursor by {
        if k < j {
            assert(diagnostics[k].start < diagnostics[j].start);
        }
    }
    lemma_next_passes(diagnostics, cursor, 0, k + 1);
    lemma_last_passes(diagnostics, cursor, diagnostics.len(), k as nat);
    if k + 1 < diagnostics.len() {
        assert(diagnostics[k].start < diagnostics[k + 1].start);
    }
    if k > 0 {
        assert(diagnostics[k - 1].start < diagnostics[k].start);
    }
}

proof fn lemma_next_passes(diagnostics: Seq<Diagnostic>, cursor: int, i: int, n: int)
    requires
        0 <= i <= n <= diagnostics.len(),
        forall|j: int| i <= j < n ==> (#[trigger] diagnostics[j]).start <= cursor,
    ensures
        next_from(diagnostics, cursor, i) == next_from(diagnostics, cursor, n),
    decreases n - i,
{
    if i < n {
        lemma_next_passes(diagnostics, cursor, i + 1, n);
    }
}

proof fn lemma_last_passes(diagnostics: Seq<Diagnostic>, cursor: int, n: nat, m: nat)
    requires
        m <= n <= diagnostics.len(),
        forall|j: int| m <= j < n ==> (#[trigger] diagnostics[j]).start >= cursor,
    ensures
        last_below(diagnostics, cursor, n) == last_below(diagnostics, cursor, m),
    decreases n,
{
    if m < n {
        assert(diagnostics[n - 1].start >= cursor);
        lemma_last_passes(diagnostics, cursor, (n - 1) as nat, m);
    }
}

} // verus!
