//! Opening, saving and moving files.

use crate::commands::catalog::same_text;
use crate::commands::insert_text::IndentStyle;
use crate::commands::search::PromptEvent;
use crate::range::Range;
use crate::selection::Selection;
use crate::strings::{decimal, lowered, parse_usize, to_chars, to_decimal, to_lowered, unsigned};
use crate::text::Text;
use crate::transaction::{
    copy_chars, edits, lemma_edits_push, lemma_valid_push, valid_edits, Change, Edit, Transaction,
};
use vstd::prelude::*;

verus! {

/// How a buffer is moved to another path.
#[derive(Clone, Copy, Debug, PartialEq, Eq, Structural)]
pub struct MoveBufferOptions {
    pub force: bool,
}

/// What a file system knows of a move: whether the new path is a directory, whether the old path
/// has a file name and exists, and whether the parent of the target exists, if it has one.
#[derive(Clone, Copy, Debug, PartialEq, Eq, Structural)]
pub struct MoveFacts {
    pub scratch: bool,
    pub new_is_dir: bool,
    pub old_has_name: bool,
    pub old_exists: bool,
    pub parent_exists: Option<bool>,
}

/// How a move is made.
#[derive(Clone, Copy, Debug, PartialEq, Eq, Structural)]
pub struct MovePlan {
    /// The file keeps its name and goes into the directory that was named.
    pub into_directory: bool,
    /// The parent of the target is created first.
    pub create_parent: bool,
}

/// Why a buffer is not moved.
#[derive(Clone, Copy, Debug, PartialEq, Eq, Structural)]
pub enum MoveError {
    Scratch,
    MissingParent,
}

impl MoveError {
    /// The error as it is shown.
    pub fn message(&self) -> (s: &'static str)
        ensures
            s@ == (match self {
                MoveError::Scratch => "Scratch buffer cannot be moved. Use :write instead"@,
                MoveError::MissingParent =>
                    "can't move file, parent directory does not exist (use :mv! to create it)"@,
            }),
    {
        match self {
            MoveError::Scratch => "Scratch buffer cannot be moved. Use :write instead",
            MoveError::MissingParent =>
                "can't move file, parent directory does not exist (use :mv! to create it)",
        }
    }
}

/// The parent of the target has to be created before the file can be moved.
pub open spec fn parent_missing(facts: MoveFacts) -> bool {
    facts.old_exists && facts.parent_exists == Some(false)
}

/// Plans the move of a buffer.
pub fn move_buffer_impl(facts: MoveFacts, options: MoveBufferOptions) -> (plan: Result<
    MovePlan,
    MoveError,
>)
    ensures
        facts.scratch ==> plan == Err::<MovePlan, MoveError>(MoveError::Scratch),
        !facts.scratch && parent_missing(facts) && !options.force ==> plan == Err::<
            MovePlan,
            MoveError,
        >(MoveError::MissingParent),
        !facts.scratch && !(parent_missing(facts) && !options.force) ==> plan == Ok::<
            MovePlan,
            MoveError,
        >(
            MovePlan {
                into_directory: facts.new_is_dir && facts.old_has_name,
                create_parent: parent_missing(facts),
            },
        ),
{
    if facts.scratch {
        return Err(MoveError::Scratch);
    }
    let missing: bool = facts.old_exists && match facts.parent_exists {
        Some(exists) => !exists,
        None => false,
    };
    if missing && !options.force {
        return Err(MoveError::MissingParent);
    }
    Ok(
        MovePlan {
            into_directory: facts.new_is_dir && facts.old_has_name,
            create_parent: missing,
        },
    )
}

/// Moves the buffer when the command is entered, and does nothing while it is typed.
pub fn move_buffer(event: PromptEvent, facts: MoveFacts) -> (plan: Option<
    Result<MovePlan, MoveError>,
>)
    ensures
        plan is Some <==> event == PromptEvent::Validate,
        plan matches Some(p) ==> (p is Ok <==> !facts.scratch && !parent_missing(facts)),
        plan matches Some(Err(e)) ==> e == (if facts.scratch {
            MoveError::Scratch
        } else {
            MoveError::MissingParent
        }),
        plan matches Some(Ok(m)) ==> m == (MovePlan {
            into_directory: facts.new_is_dir && facts.old_has_name,
            create_parent: false,
        }),
{
    match event {
        PromptEvent::Validate => Some(move_buffer_impl(facts, MoveBufferOptions { force: false })),
        _ => None,
    }
}

/// Moves the buffer, creating the directories that are missing.
pub fn force_move_buffer(event: PromptEvent, facts: MoveFacts) -> (plan: Option<
    Result<MovePlan, MoveError>,
>)
    ensures
        plan is Some <==> event == PromptEvent::Validate,
        plan matches Some(p) ==> (p is Ok <==> !facts.scratch),
        plan matches Some(Err(e)) ==> e == MoveError::Scratch,
        plan matches Some(Ok(m)) ==> m == (MovePlan {
            into_directory: facts.new_is_dir && facts.old_has_name,
            create_parent: parent_missing(facts),
        }),
{
    match event {
        PromptEvent::Validate => Some(move_buffer_impl(facts, MoveBufferOptions { force: true })),
        _ => None,
    }
}

/// How a buffer is written.
#[derive(Clone, Copy, Debug, PartialEq, Eq, Structural)]
pub struct WriteOptions {
    pub force: bool,
    pub auto_format: bool,
    pub code_actions: bool,
}

/// How all buffers are written.
#[derive(Clone, Copy, Debug, PartialEq, Eq, Structural)]
pub struct WriteAllOptions {
    pub force: bool,
    pub write_scratch: bool,
    pub auto_format: bool,
    pub code_actions: bool,
}

/// The flags of the commands that write.
#[derive(Clone, Copy, Debug, PartialEq, Eq, Structural)]
pub struct WriteFlags {
    pub no_format: bool,
    pub no_code_actions: bool,
}

/// How the commands that write a buffer write it.
pub open spec fn write_with(force: bool, flags: WriteFlags) -> WriteOptions {
    WriteOptions {
        force,
        auto_format: !flags.no_format,
        code_actions: !flags.no_code_actions,
    }
}

/// How the commands that write a buffer write it.
pub fn write_options(force: bool, flags: WriteFlags) -> (options: WriteOptions)
    ensures
        options == write_with(force, flags),
{
    WriteOptions {
        force,
        auto_format: !flags.no_format,
        code_actions: !flags.no_code_actions,
    }
}

/// Writes the buffer.
pub fn write(event: PromptEvent, flags: WriteFlags) -> (options: Option<WriteOptions>)
    ensures
        options == (if event == PromptEvent::Validate {
            Some(write_with(false, flags))
        } else {
            None
        }),
{
    match event {
        PromptEvent::Validate => Some(write_options(false, flags)),
        _ => None,
    }
}

/// Writes the buffer, creating directories that are missing.
pub fn force_write(event: PromptEvent, flags: WriteFlags) -> (options: Option<WriteOptions>)
    ensures
        options == (if event == PromptEvent::Validate {
            Some(write_with(true, flags))
        } else {
            None
        }),
{
    match event {
        PromptEvent::Validate => Some(write_options(true, flags)),
        _ => None,
    }
}

/// Writes the buffer if it was modified.
pub fn update(event: PromptEvent, modified: bool, flags: WriteFlags) -> (options: Option<WriteOptions>)
    ensures
        options == (if event == PromptEvent::Validate && modified {
            Some(write_with(false, flags))
        } else {
            None
        }),
{
    match event {
        PromptEvent::Validate if modified => Some(write_options(false, flags)),
        _ => None,
    }
}

/// How all buffers are written, once the command is entered.
pub open spec fn all_written(event: PromptEvent, force: bool, flags: WriteFlags) -> Option<
    WriteAllOptions,
> {
    if event == PromptEvent::Validate {
        Some(
            WriteAllOptions {
                force,
                write_scratch: true,
                auto_format: !flags.no_format,
                code_actions: !flags.no_code_actions,
            },
        )
    } else {
        None
    }
}

/// Writes all buffers, those without a path too.
pub fn write_all(event: PromptEvent, force: bool, flags: WriteFlags) -> (options: Option<
    WriteAllOptions,
>)
    ensures
        options == all_written(event, force, flags),
{
    match event {
        PromptEvent::Validate => Some(
            WriteAllOptions {
                force,
                write_scratch: true,
                auto_format: !flags.no_format,
                code_actions: !flags.no_code_actions,
            },
        ),
        _ => None,
    }
}

/// What saving a buffer begins with.
#[derive(Clone, Copy, Debug, PartialEq, Eq, Structural)]
pub enum SaveStart {
    /// The buffer is written at once.
    Write,
    /// A job formats the buffer and writes it.
    Format,
    /// A job runs the actions of the language servers, and then formats and writes.
    CodeActions,
}

/// What saving a buffer begins with. `actions_job` tells whether running code actions, where they
/// are asked for, made a job that ends in the buffer being written; without one it is written at
/// once.
pub fn submit_save(auto_format: bool, code_actions: bool, actions_job: bool) -> (start: SaveStart)
    ensures
        start == (if code_actions {
            if actions_job {
                SaveStart::CodeActions
            } else {
                SaveStart::Write
            }
        } else if auto_format {
            SaveStart::Format
        } else {
            SaveStart::Write
        }),
{
    if code_actions {
        if actions_job {
            SaveStart::CodeActions
        } else {
            SaveStart::Write
        }
    } else if auto_format {
        SaveStart::Format
    } else {
        SaveStart::Write
    }
}

/// What the end of the chain that saves a buffer does.
#[derive(Clone, Copy, Debug, PartialEq, Eq, Structural)]
pub enum SaveEnd {
    /// The buffer was closed in the meantime.
    Nothing,
    Format,
    Write,
}

/// What is done at the end of a save.
pub open spec fn save_end(still_open: bool, auto_format: bool, formatter: bool) -> SaveEnd {
    if !still_open {
        SaveEnd::Nothing
    } else if auto_format && formatter {
        SaveEnd::Format
    } else {
        SaveEnd::Write
    }
}

/// What the end of the chain does: formats the latest text and writes it, or writes it as it is
/// where formatting is off or there is no formatter.
pub fn finish_save(still_open: bool, auto_format: bool, formatter: bool) -> (end: SaveEnd)
    ensures
        end == save_end(still_open, auto_format, formatter),
{
    if !still_open {
        SaveEnd::Nothing
    } else if auto_format && formatter {
        SaveEnd::Format
    } else {
        SaveEnd::Write
    }
}

/// How an indent style is reported.
pub open spec fn indent_style_name(style: IndentStyle) -> Seq<char> {
    match style {
        IndentStyle::Tabs => "tabs"@,
        IndentStyle::Spaces(n) => if n == 1 {
            "1 space"@
        } else {
            decimal(n as nat) + " spaces"@
        },
    }
}

/// Reports an indent style.
pub fn report_indent_style(style: IndentStyle) -> (status: String)
    ensures
        status@ == indent_style_name(style),
{
    match style {
        IndentStyle::Tabs => String::from_str("tabs"),
        IndentStyle::Spaces(n) => if n == 1 {
            String::from_str("1 space")
        } else {
            let mut status = to_decimal(n as usize);
            status.append(" spaces");
            status
        },
    }
}

/// The indent style that an argument asks for: a beginning of the word "tabs", in letters of
/// either case, or `0`, or a number of spaces from 1 to 16.
pub open spec fn named_indent_style(arg: Seq<char>) -> Option<IndentStyle> {
    if crate::commands::search::has_prefix("tabs"@, lowered(arg)) || arg == "0"@ {
        Some(IndentStyle::Tabs)
    } else {
        match unsigned(arg) {
            Some(n) if 1 <= n <= 16 => Some(IndentStyle::Spaces(n as u8)),
            _ => None,
        }
    }
}

/// Reads an indent style.
pub fn set_indent_style(arg: &str) -> (style: Result<IndentStyle, &'static str>)
    ensures
        match named_indent_style(arg@) {
            Some(named) => style matches Ok(s) && s == named && s.wf(),
            None => style matches Err(e) && e@ == "invalid indent style"@,
        },
{
    let chars = to_chars(arg);
    let low = to_lowered(&chars);
    if crate::commands::search::begins_with(&to_chars("tabs"), &low) || same_text(arg, "0") {
        return Ok(IndentStyle::Tabs);
    }
    match parse_usize(&chars) {
        Some(n) if 1 <= n && n <= 16 => Ok(IndentStyle::Spaces(n as u8)),
        _ => Err("invalid indent style"),
    }
}

/// Where a picker of files opens, and what is told about it.
#[derive(Clone, Copy, Debug, PartialEq, Eq, Structural)]
pub enum PickerRoot {
    /// In the directory that was asked for.
    Asked,
    /// In the working directory, for want of another; this is told.
    Working,
    /// Nowhere.
    Missing,
}

/// Where a picker for the directory of the current buffer opens.
pub fn picker_in_buffer_directory(has_parent: bool, cwd_exists: bool) -> (root: PickerRoot)
    ensures
        root == (if has_parent {
            PickerRoot::Asked
        } else if cwd_exists {
            PickerRoot::Working
        } else {
            PickerRoot::Missing
        }),
{
    if has_parent {
        PickerRoot::Asked
    } else if cwd_exists {
        PickerRoot::Working
    } else {
        PickerRoot::Missing
    }
}

/// Which picker opens.
#[derive(Clone, Copy, Debug, PartialEq, Eq, Structural)]
pub enum PickerKind {
    Files,
    Explorer,
}

/// What is told about where a picker for the directory of the current buffer opens.
pub fn picker_message(root: PickerRoot, kind: PickerKind) -> (message: Option<&'static str>)
    ensures
        (match message {
            Some(m) => Some(m@),
            None => None,
        }) == (match root {
            PickerRoot::Asked => None,
            PickerRoot::Working => Some(
                match kind {
                    PickerKind::Files =>
                        "Current buffer has no parent, opening file picker in current working directory"@,
                    PickerKind::Explorer =>
                        "Current buffer has no parent, opening file explorer in current working directory"@,
                },
            ),
            PickerRoot::Missing => Some(
                "Current buffer has no parent and current working directory does not exist"@,
            ),
        }),
{
    match root {
        PickerRoot::Asked => None,
        PickerRoot::Working => match kind {
            PickerKind::Files => Some(
                "Current buffer has no parent, opening file picker in current working directory",
            ),
            PickerKind::Explorer => Some(
                "Current buffer has no parent, opening file explorer in current working directory",
            ),
        },
        PickerRoot::Missing => Some(
            "Current buffer has no parent and current working directory does not exist",
        ),
    }
}

/// What reading a file into the buffer puts in at a range.
pub open spec fn read_edit(contents: Seq<char>, r: Range) -> Edit {
    Edit { from: r.head as int, to: r.head as int, text: contents }
}

/// Puts the contents of a file in at the head of every range.
pub fn read(text: &Text, selection: &Selection, contents: &Vec<char>) -> (t: Transaction)
    requires
        selection.wf(),
        selection.within(text@.len() as int),
    ensures
        t.edits() == selection.ranges@.map_values(|r: Range| read_edit(contents@, r)),
        valid_edits(t.edits(), text@.len() as int),
        t.selection is None,
{
    let ghost rs = selection.ranges@;
    let ghost f = |r: Range| read_edit(contents@, r);
    let mut changes: Vec<Change> = Vec::new();
    let mut i: usize = 0;
    assert(edits(changes@) =~= rs.take(0).map_values(f));
    while i < selection.ranges.len()
        invariant
            i <= rs.len(),
            rs == selection.ranges@,
            selection.wf(),
            selection.within(text@.len() as int),
            f == (|r: Range| read_edit(contents@, r)),
            edits(changes@) == rs.take(i as int).map_values(f),
            valid_edits(edits(changes@), text@.len() as int),
        decreases selection.ranges.len() - i,
    {
        let r = selection.ranges[i];
        let change = Change { from: r.head, to: r.head, text: copy_chars(contents) };
        proof {
            assert(rs[i as int].within(text@.len() as int));
            if i > 0 {
                assert(rs[i - 1].hi() <= rs[i as int].lo());
            }
            assert(change@ =~= read_edit(contents@, r));
            lemma_edits_push(changes@, change);
            lemma_valid_push(edits(changes@), change@, text@.len() as int);
            assert(rs.take(i + 1) =~= rs.take(i as int).push(r));
            assert(edits(changes@).push(change@) =~= rs.take(i + 1).map_values(f));
        }
        changes.push(change);
        i += 1;
    }
    assert(rs.take(i as int) =~= rs);
    Transaction { changes, selection: None }
}

/// What the command that sets the language of a buffer does.
#[derive(Clone, Copy, Debug, PartialEq, Eq, Structural)]
pub enum LanguageAction {
    /// Reports the language.
    Report,
    /// Takes the language away.
    Clear,
    /// Gives it the language that is named.
    Change,
}

/// What the command that sets the language of a buffer does; the word for a buffer without a
/// language is `default`.
pub fn language(arg: Option<&str>, default: &str) -> (action: LanguageAction)
    ensures
        action == (match arg {
            None => LanguageAction::Report,
            Some(name) => if name@ == default@ {
                LanguageAction::Clear
            } else {
                LanguageAction::Change
            },
        }),
{
    match arg {
        None => LanguageAction::Report,
        Some(name) => if same_text(name, default) {
            LanguageAction::Clear
        } else {
            LanguageAction::Change
        },
    }
}

/// The views that a reload goes through: those that show the document, or the focused one where
/// none does.
pub fn reload_views(shown_in: &Vec<u64>, focused: u64) -> (views: Vec<u64>)
    ensures
        views@ == (if shown_in@.len() == 0 {
            seq![focused]
        } else {
            shown_in@
        }),
        views@.len() > 0,
{
    if shown_in.len() == 0 {
        let mut views: Vec<u64> = Vec::new();
        views.push(focused);
        assert(views@ =~= seq![focused]);
        views
    } else {
        shown_in.clone()
    }
}

/// A buffer that is read from its file again.
pub struct Reloading {
    pub id: u64,
    /// The views in which the buffer has a selection.
    pub selected_in: Vec<u64>,
    pub has_path: bool,
    /// Whether the file watcher follows the file already.
    pub watched: bool,
    /// Whether the file could not be read.
    pub failed: bool,
}

/// What reading a buffer again comes to.
pub struct Reloaded {
    pub id: u64,
    /// The view whose history the change is put into.
    pub through: u64,
    /// Whether the buffer had no view, and gets one.
    pub prepared: bool,
    /// Whether a failure is reported.
    pub report: bool,
    /// Whether the language servers are told of the file.
    pub notify: bool,
    /// The views that follow the new text.
    pub synced: Vec<u64>,
}

/// The views that a reload goes through.
pub open spec fn views_of(d: Reloading, focused: u64) -> Seq<u64> {
    if d.selected_in@.len() == 0 {
        seq![focused]
    } else {
        d.selected_in@
    }
}

/// Whether a view shows a buffer.
pub open spec fn shows(shown: Seq<(u64, u64)>, view: u64, id: u64) -> bool {
    exists|i: int| 0 <= i < shown.len() && #[trigger] shown[i] == (view, id)
}

/// The views, among the first `n`, that show a buffer.
pub open spec fn showing(views: Seq<u64>, shown: Seq<(u64, u64)>, id: u64, n: nat) -> Seq<u64>
    decreases n,
{
    if n == 0 {
        Seq::empty()
    } else {
        let before = showing(views, shown, id, (n - 1) as nat);
        if shows(shown, views[n - 1], id) {
            before.push(views[n - 1])
        } else {
            before
        }
    }
}

/// Language servers hear of a buffer that was read again when no watcher tells them.
pub open spec fn tells_servers(d: Reloading) -> bool {
    !d.failed && d.has_path && !d.watched
}

/// A buffer was read again: through its first view, and every view that shows it follows. After a
/// failure nothing follows.
pub open spec fn reloaded(d: Reloading, focused: u64, shown: Seq<(u64, u64)>, r: Reloaded) -> bool {
    let views = views_of(d, focused);
    &&& r.id == d.id
    &&& r.through == views[0]
    &&& r.prepared == (d.selected_in@.len() == 0)
    &&& r.report == d.failed
    &&& r.notify == tells_servers(d)
    &&& r.synced@ == (if d.failed {
        Seq::empty()
    } else {
        showing(views, shown, d.id, views.len())
    })
}

fn is_shown(shown: &Vec<(u64, u64)>, view: u64, id: u64) -> (b: bool)
    ensures
        b == shows(shown@, view, id),
{
    let mut i: usize = 0;
    while i < shown.len()
        invariant
            i <= shown@.len(),
            forall|k: int| 0 <= k < i ==> #[trigger] shown@[k] != (view, id),
        decreases shown.len() - i,
    {
        if shown[i].0 == view && shown[i].1 == id {
            assert(shown@[i as int] == (view, id));
            return true;
        }
        i += 1;
    }
    false
}

fn reload_one(d: &Reloading, focused: u64, shown: &Vec<(u64, u64)>) -> (r: Reloaded)
    ensures
        reloaded(*d, focused, shown@, r),
{
    let views = reload_views(&d.selected_in, focused);
    assert(views@ == views_of(*d, focused));
    let mut synced: Vec<u64> = Vec::new();
    if !d.failed {
        let mut i: usize = 0;
        while i < views.len()
            invariant
                i <= views@.len(),
                synced@ == showing(views@, shown@, d.id, i as nat),
            decreases views.len() - i,
        {
            if is_shown(shown, views[i], d.id) {
                synced.push(views[i]);
            }
            i += 1;
        }
    }
    Reloaded {
        id: d.id,
        through: views[0],
        prepared: d.selected_in.len() == 0,
        report: d.failed,
        notify: !d.failed && d.has_path && !d.watched,
        synced,
    }
}

/// Reads the current buffer again: whether the language servers are told, unless the prompt is not
/// accepted yet or the file could not be read.
pub fn reload(event: PromptEvent, current: &Reloading) -> (notify: bool)
    ensures
        notify == (event == PromptEvent::Validate && tells_servers(*current)),
{
    event == PromptEvent::Validate && !current.failed && current.has_path && !current.watched
}

/// Reads all buffers again. A buffer that cannot be read does not keep the others from it. `shown`
/// holds each view with the buffer that it shows.
pub fn reload_all(
    event: PromptEvent,
    buffers: &Vec<Reloading>,
    focused: u64,
    shown: &Vec<(u64, u64)>,
) -> (done: Vec<Reloaded>)
    ensures
        done@.len() == (if event == PromptEvent::Validate {
            buffers@.len()
        } else {
            0
        }),
        forall|i: int|
            0 <= i < done@.len() ==> reloaded(buffers@[i], focused, shown@, #[trigger] done@[i]),
{
    let mut done: Vec<Reloaded> = Vec::new();
    if event != PromptEvent::Validate {
        return done;
    }
    let mut i: usize = 0;
    while i < buffers.len()
        invariant
            i <= buffers@.len(),
            done@.len() == i,
            forall|k: int|
                0 <= k < i ==> reloaded(buffers@[k], focused, shown@, #[trigger] done@[k]),
        decreases buffers.len() - i,
    {
        let one = reload_one(&buffers[i], focused, shown);
        done.push(one);
        i += 1;
    }
    done
}

/// A directory that pickers open in.
#[derive(Clone, Copy, Debug, PartialEq, Eq, Structural)]
pub enum PickerDirectory {
    Workspace,
    Working,
}

/// Whether a picker can open in a directory.
pub fn check_picker_directory(directory: PickerDirectory, exists: bool) -> (checked: Result<
    (),
    &'static str,
>)
    ensures
        checked is Ok <==> exists,
        checked matches Err(m) ==> m@ == (match directory {
            PickerDirectory::Workspace => "Workspace directory does not exist"@,
            PickerDirectory::Working => "Current working directory does not exist"@,
        }),
{
    if exists {
        return Ok(());
    }
    match directory {
        PickerDirectory::Workspace => Err("Workspace directory does not exist"),
        PickerDirectory::Working => Err("Current working directory does not exist"),
    }
}

/// How a path or an address is opened.
#[derive(Clone, Copy, Debug, PartialEq, Eq, Structural)]
pub enum OpenTarget {
    /// By another program.
    External,
    /// By a picker on the directory.
    Picker,
    /// In a buffer.
    Buffer,
}

/// How a path or an address is opened. `external` tells that it is an address which the editor
/// does not show itself.
pub fn open_url(external: bool, is_dir: bool) -> (target: OpenTarget)
    ensures
        target == (if external {
            OpenTarget::External
        } else if is_dir {
            OpenTarget::Picker
        } else {
            OpenTarget::Buffer
        }),
{
    if external {
        OpenTarget::External
    } else if is_dir {
        OpenTarget::Picker
    } else {
        OpenTarget::Buffer
    }
}

/// What is told when a file that a selection names cannot be opened.
pub fn open_file_failed(error: &str) -> (m: String)
    ensures
        m@ == "Open file failed: "@ + error@,
{
    let mut m = String::from_str("Open file failed: ");
    m.append(error);
    m
}

/// What setting the encoding does: without a label the present one is shown.
#[derive(Clone, Copy, Debug, PartialEq, Eq, Structural)]
pub enum EncodingAction {
    Nothing,
    Report,
    Change,
}

/// What setting the encoding does.
pub fn set_encoding(event: PromptEvent, label: Option<&str>) -> (action: EncodingAction)
    ensures
        action == (if event != PromptEvent::Validate {
            EncodingAction::Nothing
        } else if label is Some {
            EncodingAction::Change
        } else {
            EncodingAction::Report
        }),
{
    match event {
        PromptEvent::Validate => match label {
            Some(_) => EncodingAction::Change,
            None => EncodingAction::Report,
        },
        _ => EncodingAction::Nothing,
    }
}

/// The views that are brought up to date are those that show the buffer.
pub proof fn views_that_show_the_buffer_are_synced(views: Seq<u64>, shown: Seq<(u64, u64)>, id: u64, n: nat, view: u64)
    requires
        n <= views.len(),
    ensures
        showing(views, shown, id, n).contains(view) <==> exists|i: int| 0 <= i < n && (#[trigger] views[i]) == view && shown.contains((view, id)),
    decreases n,
{
    if n > 0 {
        let m = (n - 1) as nat;
        views_that_show_the_buffer_are_synced(views, shown, id, m, view);
        let a = showing(views, shown, id, m);
        let b = showing(views, shown, id, n);
        if b.len() > a.len() {
            assert(b[a.len() as int] == b.last());
        }
        if a.contains(view) {
            let k = choose|k: int| 0 <= k < a.len() && a[k] == view;
            assert(b[k] == view);
        } else if b.contains(view) {
            let k = choose|k: int| 0 <= k < b.len() && b[k] == view;
            if k < a.len() {
                assert(a[k] == view);
            }
        }
    }
}

/// A number from 1 to 16 asks for so many spaces; zero, and any beginning of the word `tabs` in
/// either case, for tabs; a greater number for nothing.
pub proof fn indent_styles_are_named(n: nat, arg: Seq<char>)
    ensures
        1 <= n <= 16 ==> named_indent_style(decimal(n)) == Some(IndentStyle::Spaces(n as u8)),
        n == 0 || n > 16 ==> (named_indent_style(decimal(n)) is Some <==> n == 0),
        named_indent_style(decimal(0)) == Some(IndentStyle::Tabs),
        lowered(arg).len() <= 4 && "tabs"@.take(lowered(arg).len() as int) == lowered(arg)
            ==> named_indent_style(arg) == Some(IndentStyle::Tabs),
{
    reveal_strlit("tabs");
    reveal_strlit("0");
    let s = decimal(n);
    crate::strings::reading_undoes_writing(n);
    crate::strings::lemma_decimal_digits(n);
    crate::strings::reading_undoes_writing(0);
    assert(decimal(0) =~= "0"@);
    assert(crate::strings::is_digit(s[0]));
    crate::strings::only_capital_letters_are_made_small(s, 0);
    if crate::commands::search::has_prefix("tabs"@, lowered(s)) {
        assert("tabs"@.take(lowered(s).len() as int)[0] == 't');
        assert(lowered(s)[0] == 't');
    }
    if s == "0"@ {
        assert(decimal(0) == s);
    }
}

/// What is read stands right before the head of the range, and nothing else changes.
pub proof fn read_files_stand_at_the_head(s: Seq<char>, contents: Seq<char>, r: Range)
    requires
        r.within(s.len() as int),
    ensures
        crate::transaction::applied(s, seq![read_edit(contents, r)]) == s.take(r.head as int)
            + contents + s.skip(r.head as int),
{
    let e = read_edit(contents, r);
    let es = seq![e];
    assert(es.drop_last() =~= Seq::<Edit>::empty());
    assert(es.last() == e);
    assert(crate::transaction::applied(s.take(e.from), es.drop_last()) == s.take(e.from));
}

/// Files are formatted and their code actions run when they are written, unless a flag says no.
pub proof fn flags_switch_off_what_writing_does(force: bool, flags: WriteFlags)
    ensures
        write_with(force, flags).force == force,
        write_with(force, flags).auto_format <==> !flags.no_format,
        write_with(force, flags).code_actions <==> !flags.no_code_actions,
{
}

/// A buffer that is still open is saved, by way of the formatter exactly where formatting is on and
/// there is a formatter; one that was closed is left alone.
pub proof fn open_buffers_are_saved(auto_format: bool, formatter: bool)
    ensures
        save_end(false, auto_format, formatter) is Nothing,
        !(save_end(true, auto_format, formatter) is Nothing),
        save_end(true, auto_format, formatter) is Format <==> auto_format && formatter,
{
}

/// Buffers are written only when the command is entered: scratch buffers too, with force where it
/// is asked for, and with all that the flags do not switch off.
pub proof fn entered_commands_write_all_buffers(event: PromptEvent, force: bool, flags: WriteFlags)
    ensures
        all_written(event, force, flags) is Some <==> event == PromptEvent::Validate,
        all_written(event, force, flags) matches Some(options) ==> options.write_scratch
            && options.force == force && (options.auto_format <==> !flags.no_format) && (
        options.code_actions <==> !flags.no_code_actions),
{
}

} // verus!
