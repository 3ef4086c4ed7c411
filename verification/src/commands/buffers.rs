//! Buffers: listing them, choosing which to close, and what is left unsaved.

use crate::commands::catalog::same_text;
use crate::commands::files::{write_options, write_with, WriteFlags, WriteOptions};
use crate::commands::links::string_views;
use crate::commands::registers::{plural, plural_ending};
use crate::commands::search::PromptEvent;
use crate::commands::spelling::{join, joined_by};
use crate::strings::{decimal, to_decimal};
use vstd::prelude::*;

verus! {

/// An open buffer: how it goes by its path, its path below the working directory and its
/// displayed path, and when it was last in focus.
pub struct Buffer {
    pub id: u64,
    pub path: Option<String>,
    pub relative_path: Option<String>,
    pub display_path: Option<String>,
    pub display_name: String,
    pub modified: bool,
    pub focused_at: u64,
}

/// The texts of two optional strings are the same.
pub open spec fn is_text(a: Option<String>, b: Seq<char>) -> bool {
    a matches Some(s) && s@ == b
}

fn matches_text(a: &Option<String>, b: &str) -> (same: bool)
    ensures
        same == is_text(*a, b@),
{
    match a {
        Some(s) => same_text(s.as_str(), b),
        None => false,
    }
}

/// Places in order of focus: none was in focus before one that follows it.
pub open spec fn latest_first(order: Seq<usize>, focused: Seq<u64>) -> bool {
    forall|a: int, b: int|
        0 <= a < b < order.len() ==> focused[(#[trigger] order[a]) as int] >= focused[(
        #[trigger] order[b]) as int]
}

/// Each of the first `n` places stands in `order` once.
pub open spec fn lists_each(order: Seq<usize>, n: int) -> bool {
    &&& order.len() == n
    &&& forall|a: int| 0 <= a < order.len() ==> (#[trigger] order[a]) < n
    &&& forall|a: int, b: int|
        0 <= a < b < order.len() ==> (#[trigger] order[a]) != (#[trigger] order[b])
}

/// Lists the buffers, those that were in focus last first: `focused` says when each was.
pub fn buffers_by_focus(focused: &Vec<u64>) -> (order: Vec<usize>)
    ensures
        lists_each(order@, focused@.len() as int),
        latest_first(order@, focused@),
{
    let mut order: Vec<usize> = Vec::new();
    let mut i: usize = 0;
    while i < focused.len()
        invariant
            i <= focused@.len(),
            lists_each(order@, i as int),
            latest_first(order@, focused@),
        decreases focused.len() - i,
    {
        let ghost before = order@;
        let mut at: usize = order.len();
        while at > 0 && focused[order[at - 1]] < focused[i]
            invariant
                at <= order@.len(),
                order@ == before,
                i < focused@.len(),
                lists_each(before, i as int),
                latest_first(before, focused@),
                forall|k: int|
                    at <= k < before.len() ==> focused@[(#[trigger] before[k]) as int]
                        < focused@[i as int],
            decreases at,
        {
            at -= 1;
        }
        order.insert(at, i);
        proof {
            let after = order@;
            assert forall|a: int, b: int| 0 <= a < b < after.len() implies focused@[(
            #[trigger] after[a]) as int] >= focused@[(#[trigger] after[b]) as int] && after[a]
                != after[b] by {
                let x = if a < at {
                    a
                } else {
                    a - 1
                };
                let y = if b < at {
                    b
                } else {
                    b - 1
                };
                if a != at && b != at {
                    assert(focused@[before[x] as int] >= focused@[before[y] as int]);
                } else if b == at {
                    assert(before[a] < i);
                    assert(focused@[before[at - 1] as int] >= focused@[i as int]);
                    if a < at - 1 {
                        assert(focused@[before[a] as int] >= focused@[before[at - 1] as int]);
                    }
                } else {
                    assert(before[y] < i);
                    assert(focused@[before[y] as int] < focused@[i as int]);
                }
            }
            assert forall|a: int| 0 <= a < after.len() implies (#[trigger] after[a]) < i + 1 by {
                if a < at {
                    assert(before[a] < i);
                } else if a > at {
                    assert(before[a - 1] < i);
                }
            }
        }
        i += 1;
    }
    order
}

/// The marks of a buffer in the list: modified, and current.
pub open spec fn buffer_marks(modified: bool, current: bool) -> Seq<char> {
    (if modified {
        "+"@
    } else {
        ""@
    }) + (if current {
        "*"@
    } else {
        ""@
    })
}

/// The marks of a buffer in the list.
pub fn buffer_flags(modified: bool, current: bool) -> (flags: String)
    ensures
        flags@ == buffer_marks(modified, current),
{
    let mut flags = String::from_str(
        if modified {
            "+"
        } else {
            ""
        },
    );
    flags.append(
        if current {
            "*"
        } else {
            ""
        },
    );
    flags
}

/// A line of the buffer list.
pub struct BufferEntry {
    pub id: u64,
    pub flags: String,
    /// The path below the working directory, by which the list is searched.
    pub path: Option<String>,
}

/// The characters of a path, if there is one.
pub open spec fn path_view(path: Option<String>) -> Option<Seq<char>> {
    match path {
        Some(path) => Some(path@),
        None => None,
    }
}

/// How a buffer is listed.
pub open spec fn is_listed(entry: BufferEntry, buffer: Buffer, current: u64) -> bool {
    &&& entry.id == buffer.id
    &&& entry.flags@ == buffer_marks(buffer.modified, buffer.id == current)
    &&& path_view(entry.path) == path_view(buffer.relative_path)
}

/// The list of buffers, and which line of it is selected first: the buffer before the current one
/// if that is wanted, else the current one.
pub fn buffer_picker(buffers: &Vec<Buffer>, current: u64, start_at_previous: bool) -> (picker: (
    Vec<BufferEntry>,
    usize,
))
    ensures
        exists|order: Seq<usize>|
            {
                &&& #[trigger] lists_each(order, buffers@.len() as int)
                &&& latest_first(
                    order,
                    Seq::new(buffers@.len(), |i: int| buffers@[i].focused_at),
                )
                &&& picker.0@.len() == order.len()
                &&& forall|k: int|
                    0 <= k < order.len() ==> is_listed(
                        #[trigger] picker.0@[k],
                        buffers@[order[k] as int],
                        current,
                    )
            },
        picker.1 == (if start_at_previous && buffers@.len() > 0 {
            1int
        } else {
            0int
        }),
{
    let mut focused: Vec<u64> = Vec::new();
    let mut i: usize = 0;
    while i < buffers.len()
        invariant
            i <= buffers@.len(),
            focused@.len() == i,
            forall|j: int| 0 <= j < i ==> focused@[j] == buffers@[j].focused_at,
        decreases buffers.len() - i,
    {
        focused.push(buffers[i].focused_at);
        i += 1;
    }
    assert(focused@ =~= Seq::new(buffers@.len(), |i: int| buffers@[i].focused_at));
    let order = buffers_by_focus(&focused);
    let mut entries: Vec<BufferEntry> = Vec::new();
    let mut k: usize = 0;
    while k < order.len()
        invariant
            k <= order@.len(),
            lists_each(order@, buffers@.len() as int),
            entries@.len() == k,
            forall|j: int|
                0 <= j < k ==> is_listed(
                    #[trigger] entries@[j],
                    buffers@[order@[j] as int],
                    current,
                ),
        decreases order.len() - k,
    {
        assert(order@[k as int] < buffers@.len());
        let b = &buffers[order[k]];
        let path = match &b.relative_path {
            Some(path) => Some(path.clone()),
            None => None,
        };
        let flags = buffer_flags(b.modified, b.id == current);
        entries.push(BufferEntry { id: b.id, flags, path });
        k += 1;
    }
    let cursor: usize = if start_at_previous && buffers.len() > 0 {
        1
    } else {
        0
    };
    (entries, cursor)
}

/// How `format!` writes a list of strings with `{:?}`.
pub uninterp spec fn debug_list(names: Seq<Seq<char>>) -> Seq<char>;

/// `format!("{:?}", names)`: the names in quotes and brackets, as `std::fmt::Debug` writes them for
/// a vector of strings.
#[verifier::external_body]
fn write_debug(names: &Vec<String>) -> (s: String)
    ensures
        s@ == debug_list(string_views(names@)),
{
    format!("{:?}", names)
}

/// Reports the buffers that are not saved.
pub open spec fn unsaved_text(n: nat, listed: Seq<char>) -> Seq<char> {
    decimal(n) + " unsaved buffer"@ + plural(n) + " remaining: "@ + listed
}

/// Reports the buffers that are not saved; `listed` holds their names.
pub fn unsaved_message(n: usize, listed: &str) -> (m: String)
    ensures
        m@ == unsaved_text(n as nat, listed@),
{
    let mut m = to_decimal(n);
    m.append(" unsaved buffer");
    m.append(plural_ending(n));
    m.append(" remaining: ");
    m.append(listed);
    m
}

/// Buffers that are left unsaved: which buffer comes into focus, and the report.
pub struct Unsaved {
    pub focus: Option<u64>,
    pub message: String,
}

/// The first of the unsaved buffers comes into focus, unless the current buffer is one of them.
pub open spec fn unsaved_focus(ids: Seq<u64>, current: u64) -> Option<u64> {
    if ids.contains(current) {
        None
    } else {
        Some(ids[0])
    }
}

fn report_unsaved(ids: &Vec<u64>, names: &Vec<String>, current: u64) -> (left: Option<Unsaved>)
    requires
        ids@.len() == names@.len(),
    ensures
        left is Some <==> ids@.len() > 0,
        left matches Some(u) ==> u.focus == unsaved_focus(ids@, current) && u.message@
            == unsaved_text(names@.len(), debug_list(string_views(names@))),
{
    if ids.len() == 0 {
        return None;
    }
    let found = is_id_among(ids, current);
    let listed = write_debug(names);
    let focus = if found {
        None
    } else {
        Some(ids[0])
    };
    Some(Unsaved { focus, message: unsaved_message(names.len(), listed.as_str()) })
}

/// The buffers, among the first `n`, that could not be closed.
pub open spec fn kept_ids(ids: Seq<u64>, kept: Seq<Option<String>>, n: nat) -> Seq<u64>
    decreases n,
{
    if n == 0 {
        Seq::empty()
    } else {
        let before = kept_ids(ids, kept, (n - 1) as nat);
        if kept[n - 1] is Some {
            before.push(ids[n - 1])
        } else {
            before
        }
    }
}

/// The names of the buffers, among the first `n`, that could not be closed.
pub open spec fn kept_names(kept: Seq<Option<String>>, n: nat) -> Seq<Seq<char>>
    decreases n,
{
    if n == 0 {
        Seq::empty()
    } else {
        let before = kept_names(kept, (n - 1) as nat);
        match kept[n - 1] {
            Some(name) => before.push(name@),
            None => before,
        }
    }
}

/// What closing buffers leaves: `kept` holds, for each buffer, its name if it was modified and so
/// not closed.
pub fn buffer_close_by_ids_impl(ids: &Vec<u64>, kept: &Vec<Option<String>>, current: u64) -> (left: Option<
    Unsaved,
>)
    requires
        ids@.len() == kept@.len(),
    ensures
        ({
            let modified = kept_ids(ids@, kept@, ids@.len());
            let names = kept_names(kept@, kept@.len());
            match left {
                None => modified.len() == 0,
                Some(u) => {
                    &&& modified.len() > 0
                    &&& u.focus == unsaved_focus(modified, current)
                    &&& u.message@ == unsaved_text(modified.len(), debug_list(names))
                },
            }
        }),
{
    let mut modified: Vec<u64> = Vec::new();
    let mut names: Vec<String> = Vec::new();
    let mut i: usize = 0;
    assert(string_views(names@) =~= Seq::<Seq<char>>::empty());
    while i < ids.len()
        invariant
            i <= ids@.len() == kept@.len(),
            modified@ == kept_ids(ids@, kept@, i as nat),
            string_views(names@) == kept_names(kept@, i as nat),
            modified@.len() == names@.len(),
        decreases ids.len() - i,
    {
        match &kept[i] {
            Some(name) => {
                let copy = name.clone();
                assert(string_views(names@.push(copy)) =~= string_views(names@).push(name@));
                modified.push(ids[i]);
                names.push(copy);
            },
            None => {},
        }
        i += 1;
    }
    report_unsaved(&modified, &names, current)
}

/// The modified buffers among the first `n`.
pub open spec fn modified_ids(buffers: Seq<Buffer>, n: nat) -> Seq<u64>
    decreases n,
{
    if n == 0 {
        Seq::empty()
    } else {
        let before = modified_ids(buffers, (n - 1) as nat);
        if buffers[n - 1].modified {
            before.push(buffers[n - 1].id)
        } else {
            before
        }
    }
}

/// The names of the modified buffers among the first `n`.
pub open spec fn modified_names(buffers: Seq<Buffer>, n: nat) -> Seq<Seq<char>>
    decreases n,
{
    if n == 0 {
        Seq::empty()
    } else {
        let before = modified_names(buffers, (n - 1) as nat);
        if buffers[n - 1].modified {
            before.push(buffers[n - 1].display_name@)
        } else {
            before
        }
    }
}

/// The modified buffers that are left. The first of them comes into focus, unless the current one
/// is modified.
pub fn buffers_remaining_impl(buffers: &Vec<Buffer>, current: u64) -> (left: Option<Unsaved>)
    ensures
        ({
            let modified = modified_ids(buffers@, buffers@.len());
            let names = modified_names(buffers@, buffers@.len());
            match left {
                None => modified.len() == 0,
                Some(u) => {
                    &&& modified.len() > 0
                    &&& u.focus == unsaved_focus(modified, current)
                    &&& u.message@ == unsaved_text(modified.len(), debug_list(names))
                },
            }
        }),
{
    let mut modified: Vec<u64> = Vec::new();
    let mut names: Vec<String> = Vec::new();
    let mut i: usize = 0;
    assert(string_views(names@) =~= Seq::<Seq<char>>::empty());
    while i < buffers.len()
        invariant
            i <= buffers@.len(),
            modified@ == modified_ids(buffers@, i as nat),
            string_views(names@) == modified_names(buffers@, i as nat),
            modified@.len() == names@.len(),
        decreases buffers.len() - i,
    {
        if buffers[i].modified {
            let copy = buffers[i].display_name.clone();
            assert(string_views(names@.push(copy)) =~= string_views(names@).push(
                buffers@[i as int].display_name@,
            ));
            modified.push(buffers[i].id);
            names.push(copy);
        }
        i += 1;
    }
    report_unsaved(&modified, &names, current)
}

/// The argument names the buffer.
pub open spec fn goes_by(b: Buffer, arg: Seq<char>) -> bool {
    is_text(b.path, arg) || is_text(b.relative_path, arg) || is_text(b.display_path, arg)
}

/// The first buffer that the argument names.
pub open spec fn buffer_named(buffers: Seq<Buffer>, arg: Seq<char>) -> Option<u64>
    decreases buffers.len(),
{
    if buffers.len() == 0 {
        None
    } else if goes_by(buffers[0], arg) {
        Some(buffers[0].id)
    } else {
        buffer_named(buffers.skip(1), arg)
    }
}

fn find_buffer(buffers: &Vec<Buffer>, arg: &str) -> (id: Option<u64>)
    ensures
        id == buffer_named(buffers@, arg@),
{
    let mut i: usize = 0;
    assert(buffers@.skip(0) =~= buffers@);
    while i < buffers.len()
        invariant
            i <= buffers@.len(),
            buffer_named(buffers@, arg@) == buffer_named(buffers@.skip(i as int), arg@),
        decreases buffers.len() - i,
    {
        assert(buffers@.skip(i as int).skip(1) =~= buffers@.skip(i + 1));
        let b = &buffers[i];
        if matches_text(&b.path, arg) || matches_text(&b.relative_path, arg) || matches_text(
            &b.display_path,
            arg,
        ) {
            return Some(b.id);
        }
        i += 1;
    }
    None
}

/// The buffers that the first `n` arguments name.
pub open spec fn named_ids(buffers: Seq<Buffer>, args: Seq<String>, n: nat) -> Seq<u64>
    decreases n,
{
    if n == 0 {
        Seq::empty()
    } else {
        let before = named_ids(buffers, args, (n - 1) as nat);
        match buffer_named(buffers, args[n - 1]@) {
            Some(id) => before.push(id),
            None => before,
        }
    }
}

/// The arguments, among the first `n`, that name no buffer, in quotes.
pub open spec fn unknown_names(buffers: Seq<Buffer>, args: Seq<String>, n: nat) -> Seq<Seq<char>>
    decreases n,
{
    if n == 0 {
        Seq::empty()
    } else {
        let before = unknown_names(buffers, args, (n - 1) as nat);
        match buffer_named(buffers, args[n - 1]@) {
            Some(id) => before,
            None => before.push("'"@ + args[n - 1]@ + "'"@),
        }
    }
}

/// The buffers that arguments name, and the report of those that name none. Without arguments it
/// is the current buffer.
pub fn buffer_gather_paths_impl(buffers: &Vec<Buffer>, args: &Vec<String>, current: u64) -> (gathered: (
    Vec<u64>,
    Option<String>,
))
    ensures
        args@.len() == 0 ==> gathered.0@ == seq![current] && gathered.1 is None,
        args@.len() > 0 ==> {
            let unknown = unknown_names(buffers@, args@, args@.len());
            &&& gathered.0@ == named_ids(buffers@, args@, args@.len())
            &&& gathered.1 is Some <==> unknown.len() > 0
            &&& gathered.1 matches Some(m) ==> m@ == "cannot close non-existent buffers: "@
                + joined_by(unknown, ", "@)
        },
{
    let mut ids: Vec<u64> = Vec::new();
    if args.len() == 0 {
        ids.push(current);
        assert(ids@ =~= seq![current]);
        return (ids, None);
    }
    let mut unknown: Vec<String> = Vec::new();
    let mut i: usize = 0;
    assert(string_views(unknown@) =~= Seq::<Seq<char>>::empty());
    while i < args.len()
        invariant
            i <= args@.len(),
            ids@ == named_ids(buffers@, args@, i as nat),
            string_views(unknown@) == unknown_names(buffers@, args@, i as nat),
        decreases args.len() - i,
    {
        match find_buffer(buffers, args[i].as_str()) {
            Some(id) => {
                ids.push(id);
            },
            None => {
                let mut quoted = String::from_str("'");
                quoted.append(args[i].as_str());
                quoted.append("'");
                assert(string_views(unknown@.push(quoted)) =~= string_views(unknown@).push(
                    quoted@,
                ));
                unknown.push(quoted);
            },
        }
        i += 1;
    }
    assert(string_views(unknown@).len() == unknown@.len());
    if unknown.len() == 0 {
        return (ids, None);
    }
    let mut m = String::from_str("cannot close non-existent buffers: ");
    m.append(join(&unknown, ", ").as_str());
    (ids, Some(m))
}

/// The ids among the first `n` that are not among `skipped`.
pub open spec fn other_ids(ids: Seq<u64>, skipped: Seq<u64>, n: nat) -> Seq<u64>
    decreases n,
{
    if n == 0 {
        Seq::empty()
    } else {
        let before = other_ids(ids, skipped, (n - 1) as nat);
        if skipped.contains(ids[n - 1]) {
            before
        } else {
            before.push(ids[n - 1])
        }
    }
}

fn is_id_among(ids: &Vec<u64>, id: u64) -> (b: bool)
    ensures
        b == ids@.contains(id),
{
    let mut i: usize = 0;
    while i < ids.len()
        invariant
            i <= ids@.len(),
            forall|j: int| 0 <= j < i ==> ids@[j] != id,
        decreases ids.len() - i,
    {
        if ids[i] == id {
            return true;
        }
        i += 1;
    }
    false
}

/// The other buffers: all that no view shows, or all but the current one.
pub fn buffer_gather_others_impl(
    ids: &Vec<u64>,
    visible: &Vec<u64>,
    current: u64,
    skip_visible: bool,
) -> (others: Vec<u64>)
    ensures
        others@ == other_ids(
            ids@,
            if skip_visible {
                visible@
            } else {
                seq![current]
            },
            ids@.len(),
        ),
{
    let ghost skipped = if skip_visible {
        visible@
    } else {
        seq![current]
    };
    let mut others: Vec<u64> = Vec::new();
    let mut i: usize = 0;
    while i < ids.len()
        invariant
            i <= ids@.len(),
            skipped == (if skip_visible {
                visible@
            } else {
                seq![current]
            }),
            others@ == other_ids(ids@, skipped, i as nat),
        decreases ids.len() - i,
    {
        let skip: bool = if skip_visible {
            is_id_among(visible, ids[i])
        } else {
            ids[i] == current
        };
        proof {
            if !skip_visible {
                assert(skipped[0] == current);
                assert(skipped.contains(ids@[i as int]) <==> ids@[i as int] == current);
            }
        }
        if !skip {
            others.push(ids[i]);
        }
        i += 1;
    }
    others
}

/// Closing other buffers never closes one that is to stay.
pub proof fn skipped_buffers_stay(ids: Seq<u64>, skipped: Seq<u64>, n: nat)
    requires
        n <= ids.len(),
    ensures
        forall|k: int|
            0 <= k < other_ids(ids, skipped, n).len() ==> !skipped.contains(
                #[trigger] other_ids(ids, skipped, n)[k],
            ),
    decreases n,
{
    if n > 0 {
        skipped_buffers_stay(ids, skipped, (n - 1) as nat);
        let before = other_ids(ids, skipped, (n - 1) as nat);
        let all = other_ids(ids, skipped, n);
        assert forall|k: int| 0 <= k < all.len() implies !skipped.contains(#[trigger] all[k]) by {
            if k < before.len() {
                assert(all[k] == before[k]);
            }
        }
    }
}

/// The buffers that a command closes.
#[derive(Clone, Copy, Debug, PartialEq, Eq, Structural)]
pub enum Gather {
    /// Those that the arguments name, or the current one.
    Named,
    /// The others; with `skip_visible`, those that no view shows.
    Others { skip_visible: bool },
    All,
}

/// A step of closing buffers. The way ends with the first step that fails.
#[derive(Clone, Copy, Debug, PartialEq, Eq, Structural)]
pub enum CloseStep {
    /// The current buffer is written.
    Write(WriteOptions),
    /// Writes under way are waited for, and the buffers are closed; with `force`, modified ones
    /// too.
    Close { what: Gather, force: bool },
}

/// The commands that close buffers.
#[derive(Clone, Copy, Debug, PartialEq, Eq, Structural)]
pub enum CloseCommand {
    Close { what: Gather, force: bool },
    /// Writes the buffer, even over what stands in the way of it when forced, and closes it.
    WriteClose { force: bool },
}

/// The steps of a command that closes buffers. A buffer is closed after it is written only when
/// nothing unsaved is lost by it, even when its writing was forced.
pub open spec fn closing_steps(command: CloseCommand, flags: WriteFlags) -> Seq<CloseStep> {
    match command {
        CloseCommand::Close { what, force } => seq![CloseStep::Close { what, force }],
        CloseCommand::WriteClose { force } => seq![
            CloseStep::Write(write_with(force, flags)),
            CloseStep::Close { what: Gather::Named, force: false },
        ],
    }
}

/// Closes buffers, once the prompt is accepted.
pub fn buffer_close(event: PromptEvent, command: CloseCommand, flags: WriteFlags) -> (steps: Vec<
    CloseStep,
>)
    ensures
        steps@ == (if event == PromptEvent::Validate {
            closing_steps(command, flags)
        } else {
            Seq::empty()
        }),
{
    let mut steps: Vec<CloseStep> = Vec::new();
    if event == PromptEvent::Validate {
        match command {
            CloseCommand::Close { what, force } => {
                steps.push(CloseStep::Close { what, force });
            },
            CloseCommand::WriteClose { force } => {
                steps.push(CloseStep::Write(write_options(force, flags)));
                steps.push(CloseStep::Close { what: Gather::Named, force: false });
            },
        }
        assert(steps@ =~= closing_steps(command, flags));
    }
    steps
}

/// The buffers that are reported as kept are those that could not be closed.
pub proof fn buffers_that_stay_open_are_reported(ids: Seq<u64>, kept: Seq<Option<String>>, n: nat, id: u64)
    requires
        n <= ids.len(),
        ids.len() == kept.len(),
    ensures
        kept_ids(ids, kept, n).contains(id) <==> exists|i: int| 0 <= i < n && (#[trigger] ids[i]) == id && kept[i] is Some,
    decreases n,
{
    if n > 0 {
        let m = (n - 1) as nat;
        buffers_that_stay_open_are_reported(ids, kept, m, id);
        let a = kept_ids(ids, kept, m);
        let b = kept_ids(ids, kept, n);
        if b.len() > a.len() {
            assert(b[a.len() as int] == b.last());
        }
        if a.contains(id) {
            let k = choose|k: int| 0 <= k < a.len() && a[k] == id;
            assert(b[k] == id);
        } else if b.contains(id) {
            let k = choose|k: int| 0 <= k < b.len() && b[k] == id;
            if k < a.len() {
                assert(a[k] == id);
            }
        }
    }
}

/// The names that are reported are those of the buffers that could not be closed.
pub proof fn names_of_kept_buffers_are_reported(kept: Seq<Option<String>>, n: nat, name: Seq<char>)
    requires
        n <= kept.len(),
    ensures
        kept_names(kept, n).contains(name) <==> exists|i: int| 0 <= i < n && (#[trigger] kept[i]) is Some && kept[i]->0@ == name,
    decreases n,
{
    if n > 0 {
        let m = (n - 1) as nat;
        names_of_kept_buffers_are_reported(kept, m, name);
        let a = kept_names(kept, m);
        let b = kept_names(kept, n);
        if b.len() > a.len() {
            assert(b[a.len() as int] == b.last());
        }
        if a.contains(name) {
            let k = choose|k: int| 0 <= k < a.len() && a[k] == name;
            assert(b[k] == name);
        } else if b.contains(name) {
            let k = choose|k: int| 0 <= k < b.len() && b[k] == name;
            if k < a.len() {
                assert(a[k] == name);
            }
        }
    }
}

/// The modified buffers are found, and no others.
pub proof fn modified_buffers_are_found(buffers: Seq<Buffer>, n: nat, id: u64)
    requires
        n <= buffers.len(),
    ensures
        modified_ids(buffers, n).contains(id) <==> exists|i: int| 0 <= i < n && (#[trigger] buffers[i]).modified && buffers[i].id == id,
    decreases n,
{
    if n > 0 {
        let m = (n - 1) as nat;
        modified_buffers_are_found(buffers, m, id);
        let a = modified_ids(buffers, m);
        let b = modified_ids(buffers, n);
        if b.len() > a.len() {
            assert(b[a.len() as int] == b.last());
        }
        if a.contains(id) {
            let k = choose|k: int| 0 <= k < a.len() && a[k] == id;
            assert(b[k] == id);
        } else if b.contains(id) {
            let k = choose|k: int| 0 <= k < b.len() && b[k] == id;
            if k < a.len() {
                assert(a[k] == id);
            }
        }
    }
}

/// The modified buffers are reported by the names they are shown with.
pub proof fn modified_buffers_are_named(buffers: Seq<Buffer>, n: nat, name: Seq<char>)
    requires
        n <= buffers.len(),
    ensures
        modified_names(buffers, n).contains(name) <==> exists|i: int| 0 <= i < n && (#[trigger] buffers[i]).modified && buffers[i].display_name@ == name,
    decreases n,
{
    if n > 0 {
        let m = (n - 1) as nat;
        modified_buffers_are_named(buffers, m, name);
        let a = modified_names(buffers, m);
        let b = modified_names(buffers, n);
        if b.len() > a.len() {
            assert(b[a.len() as int] == b.last());
        }
        if a.contains(name) {
            let k = choose|k: int| 0 <= k < a.len() && a[k] == name;
            assert(b[k] == name);
        } else if b.contains(name) {
            let k = choose|k: int| 0 <= k < b.len() && b[k] == name;
            if k < a.len() {
                assert(a[k] == name);
            }
        }
    }
}

/// The buffers to close are those that the arguments name.
pub proof fn named_buffers_are_closed(buffers: Seq<Buffer>, args: Seq<String>, n: nat, id: u64)
    requires
        n <= args.len(),
    ensures
        named_ids(buffers, args, n).contains(id) <==> exists|i: int| 0 <= i < n && buffer_named(buffers, (#[trigger] args[i])@) == Some(id),
    decreases n,
{
    if n > 0 {
        let m = (n - 1) as nat;
        named_buffers_are_closed(buffers, args, m, id);
        let a = named_ids(buffers, args, m);
        let b = named_ids(buffers, args, n);
        if b.len() > a.len() {
            assert(b[a.len() as int] == b.last());
        }
        if a.contains(id) {
            let k = choose|k: int| 0 <= k < a.len() && a[k] == id;
            assert(b[k] == id);
        } else if b.contains(id) {
            let k = choose|k: int| 0 <= k < b.len() && b[k] == id;
            if k < a.len() {
                assert(a[k] == id);
            }
        }
    }
}

/// The arguments that name no buffer are reported in quotes, and no others.
pub proof fn unknown_arguments_are_reported(buffers: Seq<Buffer>, args: Seq<String>, n: nat, name: Seq<char>)
    requires
        n <= args.len(),
    ensures
        unknown_names(buffers, args, n).contains(name) <==> exists|i: int| 0 <= i < n && buffer_named(buffers, (#[trigger] args[i])@) is None && name == "'"@ + args[i]@ + "'"@,
    decreases n,
{
    if n > 0 {
        let m = (n - 1) as nat;
        unknown_arguments_are_reported(buffers, args, m, name);
        let a = unknown_names(buffers, args, m);
        let b = unknown_names(buffers, args, n);
        if b.len() > a.len() {
            assert(b[a.len() as int] == b.last());
        }
        if a.contains(name) {
            let k = choose|k: int| 0 <= k < a.len() && a[k] == name;
            assert(b[k] == name);
        } else if b.contains(name) {
            let k = choose|k: int| 0 <= k < b.len() && b[k] == name;
            if k < a.len() {
                assert(a[k] == name);
            }
        }
    }
}

/// An argument names the first buffer that goes by it: by its path, its path below the working
/// directory or the path it is shown with.
pub proof fn the_first_buffer_of_a_name_is_meant(buffers: Seq<Buffer>, arg: Seq<char>)
    ensures
        match buffer_named(buffers, arg) {
            Some(id) => exists|k: int|
                0 <= k < buffers.len() && (#[trigger] buffers[k]).id == id && ((buffers[k].path is Some
                    && buffers[k].path->0@ == arg) || (buffers[k].relative_path is Some
                    && buffers[k].relative_path->0@ == arg) || (buffers[k].display_path is Some
                    && buffers[k].display_path->0@ == arg)) && forall|j: int|
                    0 <= j < k ==> !goes_by(#[trigger] buffers[j], arg),
            None => forall|j: int|
                0 <= j < buffers.len() ==> !((#[trigger] buffers[j]).path is Some
                    && buffers[j].path->0@ == arg),
        },
    decreases buffers.len(),
{
    if buffers.len() > 0 {
        if goes_by(buffers[0], arg) {
            assert(buffers[0].id == buffer_named(buffers, arg)->0);
        } else {
            let rest = buffers.skip(1);
            the_first_buffer_of_a_name_is_meant(rest, arg);
            assert(forall|j: int| 0 < j < buffers.len() ==> rest[j - 1] == #[trigger] buffers[j]);
            if let Some(id) = buffer_named(buffers, arg) {
                let k = choose|k: int|
                    0 <= k < rest.len() && (#[trigger] rest[k]).id == id && ((rest[k].path is Some
                        && rest[k].path->0@ == arg) || (rest[k].relative_path is Some
                        && rest[k].relative_path->0@ == arg) || (rest[k].display_path is Some
                        && rest[k].display_path->0@ == arg)) && forall|j: int|
                        0 <= j < k ==> !goes_by(#[trigger] rest[j], arg);
                assert(buffers[k + 1] == rest[k]);
                assert forall|j: int| 0 <= j < k + 1 implies !goes_by(#[trigger] buffers[j], arg) by {
                    if j > 0 {
                        assert(rest[j - 1] == buffers[j]);
                    }
                }
            }
        }
    }
}

/// A buffer is marked with a plus sign while it is modified, and with a star while it is current.
pub proof fn marks_tell_the_state_of_a_buffer(modified: bool, current: bool)
    ensures
        buffer_marks(modified, current).contains('+') <==> modified,
        buffer_marks(modified, current).contains('*') <==> current,
        !modified && !current ==> buffer_marks(modified, current).len() == 0,
{
    reveal_strlit("+");
    reveal_strlit("*");
    reveal_strlit("");
    let marks = buffer_marks(modified, current);
    if modified {
        assert(marks[0] == '+');
    }
    if current {
        assert(marks[marks.len() - 1] == '*');
    }
}

/// An unsaved buffer is in focus afterwards: the current one where it is unsaved, else the first.
pub proof fn an_unsaved_buffer_comes_into_focus(ids: Seq<u64>, current: u64)
    requires
        ids.len() > 0,
    ensures
        match unsaved_focus(ids, current) {
            Some(id) => !ids.contains(current) && id == ids[0],
            None => ids.contains(current),
        },
{
}

/// Writing and closing a buffer writes it first, and then closes it without force, so that
/// nothing unsaved is lost.
pub proof fn buffers_are_written_before_they_are_closed(force: bool, flags: WriteFlags)
    ensures
        ({
            let steps = closing_steps(CloseCommand::WriteClose { force }, flags);
            &&& steps.len() == 2
            &&& steps[0] matches CloseStep::Write(options) && options.force == force
                && options.auto_format == !flags.no_format && options.code_actions
                == !flags.no_code_actions
            &&& steps[1] matches CloseStep::Close { what, force: forced } && !forced
        }),
{
}

} // verus!
