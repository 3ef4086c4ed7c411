//! The command palette.

use crate::commands::catalog::{same_text, TypableCommand};
use crate::commands::links::string_views;
use crate::mode::Mode;
use vstd::prelude::*;

verus! {

/// A command that a key can be bound to.
pub enum MappableCommand {
    /// A command of the command line.
    Typable { name: String, args: String, doc: String },
    /// A command of its own.
    Static { name: String, doc: String },
}

impl MappableCommand {
    /// The name of the command.
    pub open spec fn called(&self) -> Seq<char> {
        match self {
            MappableCommand::Typable { name, args, doc } => name@,
            MappableCommand::Static { name, doc } => name@,
        }
    }

    /// The name of the command.
    pub fn name(&self) -> (name: &str)
        ensures
            name@ == self.called(),
    {
        match self {
            MappableCommand::Typable { name, args: _, doc: _ } => name.as_str(),
            MappableCommand::Static { name, doc: _ } => name.as_str(),
        }
    }
}

/// How the palette styles a column.
#[derive(Clone, Copy, Debug, PartialEq, Eq, Structural)]
pub enum PaletteStyle {
    Command,
    Binding,
}

/// What the palette shows in a column.
pub struct PaletteCell {
    pub content: String,
    pub style: PaletteStyle,
}

/// The name of a command as the palette shows it: a command of the command line with a colon.
pub fn command_palette_name(item: &MappableCommand) -> (cell: PaletteCell)
    ensures
        cell.style == PaletteStyle::Command,
        cell.content@ == match item {
            MappableCommand::Typable { name, args, doc } => ":"@ + name@,
            MappableCommand::Static { name, doc } => name@,
        },
{
    let content = match item {
        MappableCommand::Typable { name, args: _, doc: _ } => {
            let mut shown = String::from_str(":");
            shown.append(name.as_str());
            shown
        },
        MappableCommand::Static { name, doc: _ } => name.clone(),
    };
    PaletteCell { content, style: PaletteStyle::Command }
}

/// A key in a sequence of keys: one that is not a single character stands in angle brackets.
pub open spec fn key_in_sequence(key: Seq<char>) -> Seq<char> {
    if key.len() > 1 {
        "<"@ + key + ">"@
    } else {
        key
    }
}

/// A sequence of keys.
pub open spec fn key_sequence(keys: Seq<Seq<char>>) -> Seq<char>
    decreases keys.len(),
{
    if keys.len() == 0 {
        Seq::empty()
    } else {
        key_sequence(keys.drop_last()) + key_in_sequence(keys.last())
    }
}

/// The sequences that a command is bound to, with a space between them.
pub open spec fn shown_bindings(bindings: Seq<Vec<String>>) -> Seq<char>
    decreases bindings.len(),
{
    if bindings.len() == 0 {
        Seq::empty()
    } else {
        let before = shown_bindings(bindings.drop_last());
        (if before.len() > 0 {
            before + " "@
        } else {
            before
        }) + key_sequence(string_views(bindings.last()@))
    }
}

/// The bindings of a command: for each command that is bound, its name and its sequences of keys.
pub struct Bindings {
    pub command: String,
    pub sequences: Vec<Vec<String>>,
}

/// The sequences that the command called `name` is bound to.
pub open spec fn bindings_of(keymap: Seq<Bindings>, name: Seq<char>) -> Seq<Vec<String>>
    decreases keymap.len(),
{
    if keymap.len() == 0 {
        Seq::empty()
    } else if keymap[0].command@ == name {
        keymap[0].sequences@
    } else {
        bindings_of(keymap.skip(1), name)
    }
}

fn push_sequence(out: &mut String, keys: &Vec<String>)
    ensures
        final(out)@ == old(out)@ + key_sequence(string_views(keys@)),
{
    let ghost before = out@;
    let ghost all = string_views(keys@);
    let mut i: usize = 0;
    assert(all.take(0) =~= Seq::<Seq<char>>::empty());
    assert(before + Seq::<char>::empty() =~= before);
    while i < keys.len()
        invariant
            i <= keys@.len(),
            all == string_views(keys@),
            out@ == before + key_sequence(all.take(i as int)),
        decreases keys.len() - i,
    {
        assert(all.take(i + 1).drop_last() =~= all.take(i as int));
        let key = keys[i].as_str();
        if key.unicode_len() > 1 {
            out.append("<");
            out.append(key);
            out.append(">");
        } else {
            out.append(key);
        }
        assert(out@ =~= before + key_sequence(all.take(i + 1)));
        i += 1;
    }
    assert(all.take(i as int) =~= all);
}

fn show_bindings(sequences: &Vec<Vec<String>>) -> (out: String)
    ensures
        out@ == shown_bindings(sequences@),
{
    let mut out = String::new();
    let mut i: usize = 0;
    assert(sequences@.take(0) =~= Seq::<Vec<String>>::empty());
    while i < sequences.len()
        invariant
            i <= sequences@.len(),
            out@ == shown_bindings(sequences@.take(i as int)),
        decreases sequences.len() - i,
    {
        assert(sequences@.take(i + 1).drop_last() =~= sequences@.take(i as int));
        if out.as_str().unicode_len() > 0 {
            out.append(" ");
        }
        push_sequence(&mut out, &sequences[i]);
        i += 1;
    }
    assert(sequences@.take(i as int) =~= sequences@);
    out
}

/// The keys that a command is bound to, as the palette shows them.
pub fn command_palette_bindings(item: &MappableCommand, keymap: &Vec<Bindings>) -> (cell: PaletteCell)
    ensures
        cell.style == PaletteStyle::Binding,
        cell.content@ == shown_bindings(bindings_of(keymap@, item.called())),
{
    let mut i: usize = 0;
    assert(keymap@.skip(0) =~= keymap@);
    while i < keymap.len()
        invariant
            i <= keymap@.len(),
            bindings_of(keymap@, item.called()) == bindings_of(
                keymap@.skip(i as int),
                item.called(),
            ),
        decreases keymap.len() - i,
    {
        assert(keymap@.skip(i as int).skip(1) =~= keymap@.skip(i + 1));
        if same_text(keymap[i].command.as_str(), item.name()) {
            return PaletteCell {
                content: show_bindings(&keymap[i].sequences),
                style: PaletteStyle::Binding,
            };
        }
        i += 1;
    }
    let none: Vec<Vec<String>> = Vec::new();
    assert(none@ =~= Seq::<Vec<String>>::empty());
    PaletteCell { content: show_bindings(&none), style: PaletteStyle::Binding }
}

/// What a command says: its name, arguments and documentation, and whether it is one of the command
/// line.
#[verifier::ext_equal]
pub struct MappableView {
    pub typable: bool,
    pub name: Seq<char>,
    pub args: Seq<char>,
    pub doc: Seq<char>,
}

impl View for MappableCommand {
    type V = MappableView;

    open spec fn view(&self) -> MappableView {
        match self {
            MappableCommand::Typable { name, args, doc } => MappableView {
                typable: true,
                name: name@,
                args: args@,
                doc: doc@,
            },
            MappableCommand::Static { name, doc } => MappableView {
                typable: false,
                name: name@,
                args: Seq::empty(),
                doc: doc@,
            },
        }
    }
}

/// What each command says.
pub open spec fn mappable_views(commands: Seq<MappableCommand>) -> Seq<MappableView> {
    commands.map_values(|c: MappableCommand| c@)
}

/// A command of the command line in the palette: without arguments.
pub open spec fn offered(c: TypableCommand) -> MappableView {
    MappableView { typable: true, name: c.name@, args: Seq::empty(), doc: c.doc@ }
}

/// The commands that the palette lists: those that keys are bound to, then all commands of the
/// command line.
pub fn command_palette(bound: Vec<MappableCommand>, typable: &Vec<TypableCommand>) -> (commands: Vec<
    MappableCommand,
>)
    ensures
        mappable_views(commands@) == mappable_views(bound@) + typable@.map_values(
            |c: TypableCommand| offered(c),
        ),
{
    let ghost before = mappable_views(bound@);
    let ghost behind = typable@.map_values(|c: TypableCommand| offered(c));
    let mut commands = bound;
    let mut i: usize = 0;
    assert(behind.take(0) =~= Seq::<MappableView>::empty());
    while i < typable.len()
        invariant
            i <= typable@.len(),
            behind == typable@.map_values(|c: TypableCommand| offered(c)),
            mappable_views(commands@) == before + behind.take(i as int),
        decreases typable.len() - i,
    {
        let ghost so_far = commands@;
        let command = MappableCommand::Typable {
            name: typable[i].name.to_string(),
            args: String::new(),
            doc: typable[i].doc.to_string(),
        };
        assert(command@ =~= offered(typable@[i as int]));
        commands.push(command);
        assert(mappable_views(commands@) =~= mappable_views(so_far).push(command@));
        assert(behind.take(i + 1) =~= behind.take(i as int).push(behind[i as int]));
        i += 1;
    }
    assert(behind.take(i as int) =~= behind);
    commands
}

/// What follows a command that was picked: whether the view in which the palette was opened, if it
/// is still there, scrolls to its cursor, and whether the changes go into the history. While text
/// is inserted they wait for the end of the insertion.
pub fn picked_command(view_open: bool, mode: Mode) -> (follow: (bool, bool))
    ensures
        follow.0 == view_open,
        follow.1 == (view_open && mode != Mode::Insert),
{
    (view_open, view_open && mode != Mode::Insert)
}

/// The error that there is no picker to reopen.
pub fn last_picker(kept: bool) -> (message: Option<&'static str>)
    ensures
        message is Some <==> !kept,
        message matches Some(m) ==> m@ == "no last picker"@,
{
    if kept {
        None
    } else {
        Some("no last picker")
    }
}

/// A sequence of keys is written key by key: one of a single character as it is, and others between
/// angle brackets.
pub proof fn keys_are_written_in_sequence(keys: Seq<Seq<char>>, key: Seq<char>)
    ensures
        key.len() == 1 ==> key_sequence(keys.push(key)) == key_sequence(keys) + key,
        key.len() > 1 ==> key_sequence(keys.push(key)) == key_sequence(keys) + seq!['<'] + key + seq![
            '>',
        ],
{
    reveal_strlit("<");
    reveal_strlit(">");
    assert(keys.push(key).drop_last() =~= keys);
    if key.len() > 1 {
        assert(key_sequence(keys.push(key)) =~= key_sequence(keys) + seq!['<'] + key + seq!['>']);
    }
}

/// The bindings of a command are those of the first entry of its name.
pub proof fn bindings_are_found_by_name(keymap: Seq<Bindings>, name: Seq<char>, k: int)
    requires
        0 <= k < keymap.len(),
        keymap[k].command@ == name,
        forall|j: int| 0 <= j < k ==> (#[trigger] keymap[j]).command@ != name,
    ensures
        bindings_of(keymap, name) == keymap[k].sequences@,
    decreases k,
{
    if k > 0 {
        assert(keymap[0].command@ != name);
        let rest = keymap.skip(1);
        assert forall|j: int| 0 <= j < k - 1 implies (#[trigger] rest[j]).command@ != name by {
            assert(keymap[j + 1].command@ != name);
        }
        bindings_are_found_by_name(rest, name, k - 1);
    }
}

/// Each further binding is shown behind the others and a space.
pub proof fn bindings_are_shown_apart(bindings: Seq<Vec<String>>, last: Vec<String>)
    ensures
        shown_bindings(bindings).len() > 0 ==> shown_bindings(bindings.push(last)) == shown_bindings(
            bindings,
        ) + seq![' '] + key_sequence(string_views(last@)),
        shown_bindings(bindings).len() == 0 ==> shown_bindings(bindings.push(last)) == key_sequence(
            string_views(last@),
        ),
{
    reveal_strlit(" ");
    assert(" "@ =~= seq![' ']);
    assert(bindings.push(last).drop_last() =~= bindings);
    if shown_bindings(bindings).len() == 0 {
        assert(shown_bindings(bindings) =~= Seq::<char>::empty());
        assert(shown_bindings(bindings.push(last)) =~= key_sequence(string_views(last@)));
    }
}

} // verus!
