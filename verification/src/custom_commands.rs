//! Commands that the user has put together from others.

use crate::commands::catalog::same_text;
use crate::commands::links::string_views;
use crate::strings::{from_chars, to_chars};
use vstd::prelude::*;

verus! {

/// The sign before a name that stands for the built-in command of that name.
pub const ESCAPE: char = '^';

/// A command made of others.
pub struct CustomCommand {
    pub name: String,
    pub description: Option<String>,
    pub commands: Vec<String>,
    /// What the command accepts, for its description.
    pub accepts: Option<String>,
    /// The command whose arguments are completed as those of this one.
    pub completer: Option<String>,
    /// The command is not offered for completion.
    pub hidden: bool,
}

/// A command as it is written in the configuration: one command, several, or several with more to
/// say.
pub enum CommandSource {
    One(String),
    Many(Vec<String>),
    Described {
        commands: Vec<String>,
        description: Option<String>,
        accepts: Option<String>,
        completer: Option<String>,
    },
}

/// A name without the colon before it.
pub open spec fn without_colon(name: Seq<char>) -> Seq<char> {
    if name.len() > 0 && name[0] == ':' {
        name.skip(1)
    } else {
        name
    }
}

/// Takes the colon from the beginning of a name.
pub fn strip_colon(name: &str) -> (bare: String)
    ensures
        bare@ == without_colon(name@),
{
    strip_first(name, ':')
}

/// A text without a character at its beginning.
pub open spec fn without_first(s: Seq<char>, c: char) -> Seq<char> {
    if s.len() > 0 && s[0] == c {
        s.skip(1)
    } else {
        s
    }
}

/// Takes a character from the beginning of a text.
pub fn strip_first(s: &str, c: char) -> (bare: String)
    ensures
        bare@ == without_first(s@, c),
{
    let chars = to_chars(s);
    if chars.len() > 0 && chars[0] == c {
        let mut rest: Vec<char> = Vec::new();
        let mut i: usize = 1;
        while i < chars.len()
            invariant
                1 <= i <= chars@.len(),
                rest@ == chars@.subrange(1, i as int),
            decreases chars.len() - i,
        {
            rest.push(chars[i]);
            i += 1;
        }
        assert(rest@ =~= chars@.skip(1));
        from_chars(&rest)
    } else {
        from_chars(&chars)
    }
}

/// A macro of keys, which begins with an at sign.
pub open spec fn is_macro(command: Seq<char>) -> bool {
    command.len() > 0 && command[0] == '@'
}

/// There is a macro among the commands.
pub open spec fn holds_macro(commands: Seq<String>) -> bool {
    exists|i: int| 0 <= i < commands.len() && is_macro(#[trigger] commands[i]@)
}

fn find_macro(commands: &Vec<String>) -> (b: bool)
    ensures
        b == holds_macro(commands@),
{
    let mut i: usize = 0;
    while i < commands.len()
        invariant
            i <= commands@.len(),
            forall|j: int| 0 <= j < i ==> !is_macro(#[trigger] commands@[j]@),
        decreases commands.len() - i,
    {
        let c = commands[i].as_str();
        if c.unicode_len() > 0 && c.get_char(0) == '@' {
            assert(is_macro(commands@[i as int]@));
            return true;
        }
        i += 1;
    }
    false
}

/// The names of two optional completers are the same, but for a colon.
pub open spec fn same_completer(c: Option<String>, source: Option<String>) -> bool {
    match source {
        Some(s) => c matches Some(n) && n@ == without_colon(s@),
        None => c is None,
    }
}

impl CustomCommand {
    /// The command that the configuration describes. A sequence of commands may not hold a macro.
    pub fn from_source(source: CommandSource) -> (command: Result<CustomCommand, &'static str>)
        ensures
            match source {
                CommandSource::One(only) => command matches Ok(c) && c.commands@ == seq![only]
                    && c.description is None && c.accepts is None && c.completer is None,
                CommandSource::Many(commands) => match command {
                    Ok(c) => !holds_macro(commands@) && c.commands == commands && c.description
                        is None && c.accepts is None && c.completer is None,
                    Err(m) => holds_macro(commands@) && m@
                        == "macro keybindings may not be used in command sequences"@,
                },
                CommandSource::Described { commands, description, accepts, completer } =>
                    match command {
                        Ok(c) => !holds_macro(commands@) && c.commands == commands && c.description
                            == description && c.accepts == accepts && same_completer(
                            c.completer,
                            completer,
                        ),
                        Err(m) => holds_macro(commands@) && m@
                            == "macro keybindings may not be used in command sequences"@,
                    },
            },
            command matches Ok(c) ==> c.name@ == Seq::<char>::empty() && !c.hidden,
    {
        match source {
            CommandSource::One(only) => {
                let mut commands: Vec<String> = Vec::new();
                commands.push(only);
                assert(commands@ =~= seq![only]);
                Ok(
                    CustomCommand {
                        name: String::new(),
                        description: None,
                        commands,
                        accepts: None,
                        completer: None,
                        hidden: false,
                    },
                )
            },
            CommandSource::Many(commands) => {
                if find_macro(&commands) {
                    return Err("macro keybindings may not be used in command sequences");
                }
                Ok(
                    CustomCommand {
                        name: String::new(),
                        description: None,
                        commands,
                        accepts: None,
                        completer: None,
                        hidden: false,
                    },
                )
            },
            CommandSource::Described { commands, description, accepts, completer } => {
                if find_macro(&commands) {
                    return Err("macro keybindings may not be used in command sequences");
                }
                let completer = match completer {
                    Some(s) => Some(strip_colon(s.as_str())),
                    None => None,
                };
                Ok(
                    CustomCommand {
                        name: String::new(),
                        description,
                        commands,
                        accepts,
                        completer,
                        hidden: false,
                    },
                )
            },
        }
    }

    /// Names the command. One whose name is written without a colon is not offered for completion.
    pub fn named(self, name: &str) -> (c: CustomCommand)
        ensures
            c.name@ == without_colon(name@),
            c.hidden == !(name@.len() > 0 && name@[0] == ':'),
            c.description == self.description,
            c.commands == self.commands,
            c.accepts == self.accepts,
            c.completer == self.completer,
    {
        let visible = name.unicode_len() > 0 && name.get_char(0) == ':';
        CustomCommand {
            name: strip_colon(name),
            description: self.description,
            commands: self.commands,
            accepts: self.accepts,
            completer: self.completer,
            hidden: !visible,
        }
    }

    /// The description that the prompt shows: the name, what it accepts, what it does and the
    /// commands it stands for.
    pub open spec fn described(&self) -> Seq<char> {
        "`:"@ + self.name@ + "`"@ + (match self.accepts {
            Some(a) => " `"@ + a@ + "`"@,
            None => ""@,
        }) + (match self.description {
            Some(d) => " — "@ + d@,
            None => ""@,
        }) + "\nMaps to: "@ + mapped(string_views(self.commands@))
    }

    /// The description that the prompt shows.
    pub fn prompt(&self) -> (out: String)
        ensures
            out@ == self.described(),
    {
        let mut out = String::from_str("`:");
        out.append(self.name.as_str());
        out.append("`");
        match &self.accepts {
            Some(a) => {
                out.append(" `");
                out.append(a.as_str());
                out.append("`");
            },
            None => {
                out.append("");
            },
        }
        let ghost accepted = match &self.accepts {
            Some(a) => " `"@ + a@ + "`"@,
            None => ""@,
        };
        assert(out@ =~= "`:"@ + self.name@ + "`"@ + accepted);
        match &self.description {
            Some(d) => {
                out.append(" — ");
                out.append(d.as_str());
            },
            None => {
                out.append("");
            },
        }
        let ghost told = match &self.description {
            Some(d) => " — "@ + d@,
            None => ""@,
        };
        assert(out@ =~= "`:"@ + self.name@ + "`"@ + accepted + told);
        out.append("\nMaps to: ");
        let ghost before = out@;
        let ghost all = string_views(self.commands@);
        let mut i: usize = 0;
        assert(all.take(0) =~= Seq::<Seq<char>>::empty());
        assert(before + Seq::<char>::empty() =~= before);
        while i < self.commands.len()
            invariant
                i <= self.commands@.len(),
                all == string_views(self.commands@),
                out@ == before + mapped(all.take(i as int)),
            decreases self.commands.len() - i,
        {
            assert(all.take(i + 1).drop_last() =~= all.take(i as int));
            if i > 0 {
                out.append(" → ");
            }
            out.append("`");
            out.append(self.commands[i].as_str());
            out.append("`");
            assert(out@ =~= before + mapped(all.take(i + 1)));
            i += 1;
        }
        assert(all.take(i as int) =~= all);
        out
    }
}

/// Commands in the order in which they run.
pub open spec fn mapped(commands: Seq<Seq<char>>) -> Seq<char>
    decreases commands.len(),
{
    if commands.len() == 0 {
        Seq::empty()
    } else if commands.len() == 1 {
        "`"@ + commands[0] + "`"@
    } else {
        mapped(commands.drop_last()) + " → "@ + "`"@ + commands.last() + "`"@
    }
}

/// The commands that the user has put together.
pub struct CustomCommands {
    pub commands: Vec<CustomCommand>,
}

/// The place of the first command called `name`.
pub open spec fn command_place(commands: Seq<CustomCommand>, name: Seq<char>) -> Option<int>
    decreases commands.len(),
{
    if commands.len() == 0 {
        None
    } else if commands[0].name@ == name {
        Some(0)
    } else {
        match command_place(commands.skip(1), name) {
            Some(k) => Some(k + 1),
            None => None,
        }
    }
}

/// The names, among the first `n` commands, that are offered for completion.
pub open spec fn offered(commands: Seq<CustomCommand>, n: nat) -> Seq<Seq<char>>
    decreases n,
{
    if n == 0 {
        Seq::empty()
    } else {
        let before = offered(commands, (n - 1) as nat);
        if commands[n - 1].hidden {
            before
        } else {
            before.push(commands[n - 1].name@)
        }
    }
}

impl CustomCommands {
    /// The command called `name`.
    pub fn get(&self, name: &str) -> (found: Option<&CustomCommand>)
        ensures
            match found {
                Some(c) => exists|k: int|
                    command_place(self.commands@, name@) == Some(k) && 0 <= k
                        < self.commands@.len() && *c == #[trigger] self.commands@[k] && c.name@
                        == name@,
                None => command_place(self.commands@, name@) is None,
            },
    {
        let mut i: usize = 0;
        assert(self.commands@.skip(0) =~= self.commands@);
        while i < self.commands.len()
            invariant
                i <= self.commands@.len(),
                command_place(self.commands@, name@) == (match command_place(
                    self.commands@.skip(i as int),
                    name@,
                ) {
                    Some(k) => Some(k + i),
                    None => None,
                }),
            decreases self.commands.len() - i,
        {
            assert(self.commands@.skip(i as int).skip(1) =~= self.commands@.skip(i + 1));
            if same_text(self.commands[i].name.as_str(), name) {
                assert(self.commands@.skip(i as int)[0] == self.commands@[i as int]);
                assert(command_place(self.commands@, name@) == Some(i as int));
                return Some(&self.commands[i]);
            }
            i += 1;
        }
        None
    }

    /// The names that are offered for completion.
    pub fn visible_names(&self) -> (names: Vec<String>)
        ensures
            string_views(names@) == offered(self.commands@, self.commands@.len()),
    {
        let mut names: Vec<String> = Vec::new();
        let mut i: usize = 0;
        assert(string_views(names@) =~= Seq::<Seq<char>>::empty());
        while i < self.commands.len()
            invariant
                i <= self.commands@.len(),
                string_views(names@) == offered(self.commands@, i as nat),
            decreases self.commands.len() - i,
        {
            if !self.commands[i].hidden {
                let copy = self.commands[i].name.clone();
                assert(string_views(names@.push(copy)) =~= string_views(names@).push(copy@));
                names.push(copy);
            }
            i += 1;
        }
        names
    }
}

/// The commands that are offered for completion are those that are not hidden.
pub proof fn commands_that_are_not_hidden_are_offered(commands: Seq<CustomCommand>, n: nat, name: Seq<char>)
    requires
        n <= commands.len(),
    ensures
        offered(commands, n).contains(name) <==> exists|i: int| 0 <= i < n && (#[trigger] commands[i]).name@ == name && !commands[i].hidden,
    decreases n,
{
    if n > 0 {
        let m = (n - 1) as nat;
        commands_that_are_not_hidden_are_offered(commands, m, name);
        let a = offered(commands, m);
        let b = offered(commands, n);
        if b.len() > a.len() {
            assert(b[a.len() as int] == b.last());
        }
        if a.contains(name) {
            let k = choose|k: int| 0 <= k < a.len() && a[k] == name;
            assert(b[k] == name);
        } else if b.contains(name) {
            let k = choose|k: int| 0 <= k < b.len() && b[k] == name;
            if k < a.len() {
                assert(a[k] == name);
            }
        }
    }
}

/// A name means the first command that is called so.
pub proof fn the_first_command_of_a_name_is_meant(commands: Seq<CustomCommand>, name: Seq<char>)
    ensures
        match command_place(commands, name) {
            Some(k) => 0 <= k < commands.len() && commands[k].name@ == name && forall|j: int|
                0 <= j < k ==> (#[trigger] commands[j]).name@ != name,
            None => forall|j: int|
                0 <= j < commands.len() ==> (#[trigger] commands[j]).name@ != name,
        },
    decreases commands.len(),
{
    if commands.len() > 0 && commands[0].name@ != name {
        let rest = commands.skip(1);
        the_first_command_of_a_name_is_meant(rest, name);
        assert(forall|j: int| 0 < j < commands.len() ==> rest[j - 1] == #[trigger] commands[j]);
    }
}

/// A colon before a name is dropped, once, and every other name stays as it is.
pub proof fn colons_are_dropped_once(name: Seq<char>)
    ensures
        without_colon(seq![':'] + name) == name,
        name.len() == 0 || name[0] != ':' ==> without_colon(name) == name,
        without_first(seq!['@'] + name, '@') == name,
        name.len() == 0 || name[0] != '@' ==> without_first(name, '@') == name,
        is_macro(seq!['@'] + name),
{
    assert((seq![':'] + name).skip(1) =~= name);
    assert((seq!['@'] + name).skip(1) =~= name);
}

/// Commands are described in the order in which they run, each in quotes, with an arrow between
/// each two.
pub proof fn commands_are_described_in_order(commands: Seq<Seq<char>>, last: Seq<char>)
    requires
        commands.len() > 0,
    ensures
        mapped(seq![last]) == "`"@ + last + "`"@,
        mapped(commands.push(last)) == mapped(commands) + " → "@ + mapped(seq![last]),
{
    assert(commands.push(last).drop_last() =~= commands);
    assert(mapped(commands.push(last)) =~= mapped(commands) + " → "@ + mapped(seq![last]));
}

} // verus!
