//! Formatting: which server formats a selection, and what happens to the result.

use vstd::prelude::*;

verus! {

/// The first server that can format a range.
pub open spec fn first_formatter(servers: Seq<bool>) -> Option<int>
    decreases servers.len(),
{
    if servers.len() == 0 {
        None
    } else if servers[0] {
        Some(0)
    } else {
        match first_formatter(servers.skip(1)) {
            Some(k) => Some(k + 1),
            None => None,
        }
    }
}

/// Why a selection cannot be formatted.
#[derive(Clone, Copy, Debug, PartialEq, Eq, Structural)]
pub enum FormatError {
    SeveralSelections,
    NoServer,
    NoFormatter,
}

impl FormatError {
    pub open spec fn text(self) -> Seq<char> {
        match self {
            FormatError::SeveralSelections =>
                "format_selections only supports a single selection for now"@,
            FormatError::NoServer => "No configured language server supports range formatting"@,
            FormatError::NoFormatter =>
                "A formatter isn't available, and no language server provides formatting capabilities"@,
        }
    }

    /// The error as it is shown.
    pub fn message(&self) -> (m: &'static str)
        ensures
            m@ == self.text(),
    {
        match self {
            FormatError::SeveralSelections =>
                "format_selections only supports a single selection for now",
            FormatError::NoServer => "No configured language server supports range formatting",
            FormatError::NoFormatter =>
                "A formatter isn't available, and no language server provides formatting capabilities",
        }
    }
}

/// Which of the document's servers formats the selection: `servers` says of each whether it can
/// format a range.
pub fn format_selections(selections: usize, servers: &Vec<bool>) -> (server: Result<usize, FormatError>)
    ensures
        match server {
            Ok(k) => selections == 1 && first_formatter(servers@) == Some(k as int),
            Err(FormatError::SeveralSelections) => selections != 1,
            Err(FormatError::NoServer) => selections == 1 && first_formatter(servers@) is None,
            Err(FormatError::NoFormatter) => false,
        },
{
    if selections != 1 {
        return Err(FormatError::SeveralSelections);
    }
    let mut i: usize = 0;
    assert(servers@.skip(0) =~= servers@);
    while i < servers.len()
        invariant
            i <= servers@.len(),
            selections == 1,
            first_formatter(servers@) == (match first_formatter(servers@.skip(i as int)) {
                Some(k) => Some(k + i),
                None => None,
            }),
        decreases servers.len() - i,
    {
        assert(servers@.skip(i as int).skip(1) =~= servers@.skip(i + 1));
        if servers[i] {
            return Ok(i);
        }
        i += 1;
    }
    Err(FormatError::NoServer)
}

/// What is done when formatting has ended.
#[derive(Clone, Copy, Debug, PartialEq, Eq, Structural)]
pub struct FormatOutcome {
    /// The changes are applied.
    pub apply: bool,
    /// The error is shown.
    pub report: bool,
    /// The document is saved.
    pub save: bool,
}

/// What is done when formatting has ended. Changes are applied only to the version of the document
/// that they were made for. A document that was to be written is saved even when it could not be
/// formatted; else the error is shown.
pub fn finish_format(open: bool, formatted: bool, same_version: bool, write: bool) -> (outcome:
    FormatOutcome)
    ensures
        outcome.apply == (open && formatted && same_version),
        outcome.report == (open && !formatted && !write),
        outcome.save == (open && write),
{
    if !open {
        return FormatOutcome { apply: false, report: false, save: false };
    }
    if !formatted && !write {
        return FormatOutcome { apply: false, report: true, save: false };
    }
    FormatOutcome { apply: formatted && same_version, report: false, save: write }
}

/// The first server that can format a range is asked.
pub proof fn the_first_formatter_is_asked(servers: Seq<bool>)
    ensures
        match first_formatter(servers) {
            Some(k) => 0 <= k < servers.len() && servers[k] && forall|j: int|
                0 <= j < k ==> !(#[trigger] servers[j]),
            None => forall|j: int| 0 <= j < servers.len() ==> !(#[trigger] servers[j]),
        },
    decreases servers.len(),
{
    if servers.len() > 0 && !servers[0] {
        let rest = servers.skip(1);
        the_first_formatter_is_asked(rest);
        assert(forall|j: int| 0 < j < servers.len() ==> rest[j - 1] == #[trigger] servers[j]);
    }
}

} // verus!
