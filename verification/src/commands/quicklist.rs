//! The quicklist: listing its entries and jumping between them.

use crate::strings::{decimal, to_decimal};
use vstd::prelude::*;

verus! {

/// What an entry of the quicklist leads to: a file, or a document that has none.
pub enum QuicklistTarget {
    Path(String),
    Document(u64),
}

/// An entry: its target, the path of the target below the working directory where it has one, and
/// the lines it covers where they are known.
pub struct QuicklistEntry {
    pub target: QuicklistTarget,
    pub relative_path: Option<String>,
    pub lines: Option<(usize, usize)>,
}

/// A line of the list of entries.
pub struct QuicklistLine {
    pub index: usize,
    pub label: String,
    pub line: String,
    pub flags: &'static str,
}

/// How an entry is called: by its path, else as a scratch buffer with its number.
pub open spec fn entry_label(e: QuicklistEntry, scratch: Seq<char>) -> Seq<char> {
    match e.relative_path {
        Some(p) => p@,
        None => match e.target {
            QuicklistTarget::Document(id) => scratch + " ("@ + decimal(id as nat) + ")"@,
            QuicklistTarget::Path(p) => p@,
        },
    }
}

/// The line of an entry, counted from 1, where it is known.
pub open spec fn entry_line(e: QuicklistEntry) -> Seq<char> {
    match e.lines {
        Some((start, _)) => decimal((start + 1) as nat),
        None => ""@,
    }
}

/// How an entry is listed.
pub open spec fn lists_entry(
    l: QuicklistLine,
    e: QuicklistEntry,
    index: int,
    current: Option<usize>,
    scratch: Seq<char>,
) -> bool {
    &&& l.index == index
    &&& l.label@ == entry_label(e, scratch)
    &&& l.line@ == entry_line(e)
    &&& l.flags@ == (if current == Some(index as usize) {
        " (*)"@
    } else {
        ""@
    })
}

/// An entry for a file has its path.
pub open spec fn paths_known(e: QuicklistEntry) -> bool {
    &&& e.target is Path ==> e.relative_path is Some
    &&& e.lines matches Some((start, end)) ==> start < usize::MAX
    &&& e.target matches QuicklistTarget::Document(id) ==> id <= usize::MAX
}

fn list_entry(e: &QuicklistEntry, index: usize, current: Option<usize>, scratch: &str) -> (l: QuicklistLine)
    requires
        paths_known(*e),
    ensures
        lists_entry(l, *e, index as int, current, scratch@),
{
    let label = match &e.relative_path {
        Some(p) => p.clone(),
        None => match &e.target {
            QuicklistTarget::Document(id) => {
                let mut label = String::from_str(scratch);
                label.append(" (");
                label.append(to_decimal(*id as usize).as_str());
                label.append(")");
                label
            },
            QuicklistTarget::Path(p) => p.clone(),
        },
    };
    let line = match e.lines {
        Some((start, _)) => to_decimal(start + 1),
        None => String::from_str(""),
    };
    let is_current: bool = match current {
        Some(k) => k == index,
        None => false,
    };
    let flags = if is_current {
        " (*)"
    } else {
        ""
    };
    QuicklistLine { index, label, line, flags }
}

/// Lists the entries, and the line that is selected first: the current entry's.
pub fn quicklist_picker(entries: &Vec<QuicklistEntry>, current: Option<usize>, scratch: &str) -> (picker: Result<
    (Vec<QuicklistLine>, usize),
    &'static str,
>)
    requires
        forall|i: int| 0 <= i < entries@.len() ==> paths_known(#[trigger] entries@[i]),
    ensures
        match picker {
            Err(m) => entries@.len() == 0 && m@ == "No quicklist entries available"@,
            Ok((lines, cursor)) => {
                &&& entries@.len() > 0
                &&& lines@.len() == entries@.len()
                &&& forall|i: int|
                    0 <= i < entries@.len() ==> lists_entry(
                        #[trigger] lines@[i],
                        entries@[i],
                        i,
                        current,
                        scratch@,
                    )
                &&& cursor == match current {
                    Some(k) => k,
                    None => 0,
                }
            },
        },
{
    if entries.len() == 0 {
        return Err("No quicklist entries available");
    }
    let mut lines: Vec<QuicklistLine> = Vec::new();
    let mut i: usize = 0;
    while i < entries.len()
        invariant
            i <= entries@.len(),
            forall|i: int| 0 <= i < entries@.len() ==> paths_known(#[trigger] entries@[i]),
            lines@.len() == i,
            forall|j: int|
                0 <= j < i ==> lists_entry(
                    #[trigger] lines@[j],
                    entries@[j],
                    j,
                    current,
                    scratch@,
                ),
        decreases entries.len() - i,
    {
        assert(paths_known(entries@[i as int]));
        lines.push(list_entry(&entries[i], i, current, scratch));
        i += 1;
    }
    let cursor: usize = match current {
        Some(k) => k,
        None => 0,
    };
    Ok((lines, cursor))
}

/// The current entry after one was picked: the picked one, unless its target could not be shown.
pub fn picked_entry(current: Option<usize>, index: usize, activated: bool) -> (now: Option<usize>)
    ensures
        now == (if activated {
            Some(index)
        } else {
            current
        }),
{
    if activated {
        Some(index)
    } else {
        current
    }
}

/// The error of a jump that found no entry.
pub fn goto_quicklist_impl(jumped: bool, same_file: bool) -> (message: Option<&'static str>)
    ensures
        message is Some <==> !jumped,
        message matches Some(m) ==> m@ == (if same_file {
            "No quicklist entries available in the current file"@
        } else {
            "No quicklist entries available"@
        }),
{
    if jumped {
        None
    } else if same_file {
        Some("No quicklist entries available in the current file")
    } else {
        Some("No quicklist entries available")
    }
}

/// Lines are listed by their numbers, counted from 1; an entry without a line shows none. An entry
/// goes by its path where it has one.
pub proof fn entries_are_listed_by_path_and_line(e: QuicklistEntry, scratch: Seq<char>)
    requires
        paths_known(e),
    ensures
        e.lines matches Some((start, end)) ==> crate::strings::unsigned(entry_line(e)) == Some(
            (start + 1) as nat,
        ),
        e.lines is None ==> entry_line(e).len() == 0,
        e.relative_path is Some ==> entry_label(e, scratch) == e.relative_path->0@,
        e.relative_path is None ==> scratch.is_prefix_of(entry_label(e, scratch)),
{
    reveal_strlit("");
    if let Some((start, end)) = e.lines {
        crate::strings::reading_undoes_writing((start + 1) as nat);
    }
}

} // verus!
