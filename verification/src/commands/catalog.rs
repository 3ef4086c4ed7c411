//! Typable commands: their names, arguments and completion, and finding one by its name.

use vstd::prelude::*;

verus! {

/// Ways to complete an argument of a command.
#[derive(Clone, Copy, Debug, PartialEq, Eq, Structural)]
pub enum Completer {
    Nothing,
    ActiveLanguageServers,
    Buffer,
    ConfiguredLanguageServers,
    Directory,
    Filename,
    Language,
    LspWorkspaceCommand,
    Program,
    Register,
    RepeatingFilenames,
    Setting,
    SpellingLanguage,
    Theme,
}

/// How the arguments of a command are completed: those in the first places one by one, all others
/// in one way.
pub struct CommandCompleter {
    pub positional_args: Vec<Completer>,
    pub var_args: Completer,
}

impl CommandCompleter {
    /// How argument `n` is completed.
    pub open spec fn for_argument(&self, n: int) -> Completer {
        if 0 <= n < self.positional_args@.len() {
            self.positional_args@[n]
        } else {
            self.var_args
        }
    }

    /// Completes no argument.
    pub fn none() -> (c: CommandCompleter)
        ensures
            c.positional_args@ == Seq::<Completer>::empty(),
            c.var_args == Completer::Nothing,
    {
        CommandCompleter { positional_args: Vec::new(), var_args: Completer::Nothing }
    }

    /// Completes the first arguments one by one, and no others.
    pub fn positional(completers: Vec<Completer>) -> (c: CommandCompleter)
        ensures
            c.positional_args@ == completers@,
            c.var_args == Completer::Nothing,
    {
        CommandCompleter { positional_args: completers, var_args: Completer::Nothing }
    }

    /// Completes every argument in the same way.
    pub fn all(completer: Completer) -> (c: CommandCompleter)
        ensures
            c.positional_args@ == Seq::<Completer>::empty(),
            c.var_args == completer,
    {
        CommandCompleter { positional_args: Vec::new(), var_args: completer }
    }

    /// How argument `n` is completed.
    pub fn for_argument_number(&self, n: usize) -> (c: Completer)
        ensures
            c == self.for_argument(n as int),
    {
        if n < self.positional_args.len() {
            self.positional_args[n]
        } else {
            self.var_args
        }
    }
}

/// A flag that a command accepts.
pub struct Flag {
    pub name: &'static str,
    pub alias: Option<char>,
    pub doc: &'static str,
    /// The values of the argument that the flag takes, if it takes one.
    pub completions: Option<Vec<&'static str>>,
}

/// A flag by what it is called and does.
#[verifier::ext_equal]
pub struct FlagView {
    pub name: Seq<char>,
    pub alias: Option<char>,
    pub doc: Seq<char>,
    pub completions: Option<Seq<Seq<char>>>,
}

/// The characters of some literals.
pub open spec fn literal_views(parts: Seq<&'static str>) -> Seq<Seq<char>> {
    parts.map_values(|s: &'static str| s@)
}

impl View for Flag {
    type V = FlagView;

    open spec fn view(&self) -> FlagView {
        FlagView {
            name: self.name@,
            alias: self.alias,
            doc: self.doc@,
            completions: match self.completions {
                Some(c) => Some(literal_views(c@)),
                None => None,
            },
        }
    }
}

/// The arguments and the flags that a command accepts.
pub struct Signature {
    /// The least number of positional arguments, and the greatest if there is one.
    pub positionals: (usize, Option<usize>),
    /// From which argument on the input is taken as it stands.
    pub raw_after: Option<u8>,
    pub flags: Vec<Flag>,
}

/// What a shell command accepts: a program, and the rest of the input as it stands.
pub fn shell_signature() -> (s: Signature)
    ensures
        s.positionals == (1usize, Some(2usize)),
        s.raw_after == Some(1u8),
        s.flags@ == Seq::<Flag>::empty(),
{
    Signature { positionals: (1, Some(2)), raw_after: Some(1), flags: Vec::new() }
}

/// How a shell command is completed: first the program, then names of files.
pub fn shell_completer() -> (c: CommandCompleter)
    ensures
        c.positional_args@ == seq![Completer::Program, Completer::RepeatingFilenames],
        c.var_args == Completer::Nothing,
{
    let mut completers: Vec<Completer> = Vec::new();
    completers.push(Completer::Program);
    completers.push(Completer::RepeatingFilenames);
    assert(completers@ =~= seq![Completer::Program, Completer::RepeatingFilenames]);
    CommandCompleter::positional(completers)
}

/// A command that is typed at the prompt.
pub struct TypableCommand {
    pub name: &'static str,
    pub aliases: Vec<&'static str>,
    pub doc: &'static str,
    pub completer: CommandCompleter,
    pub signature: Signature,
}

/// A command by what it is called, does and accepts.
#[verifier::ext_equal]
pub struct CommandView {
    pub name: Seq<char>,
    pub aliases: Seq<Seq<char>>,
    pub doc: Seq<char>,
    pub positional_args: Seq<Completer>,
    pub var_args: Completer,
    pub positionals: (usize, Option<usize>),
    pub raw_after: Option<u8>,
    pub flags: Seq<FlagView>,
}

/// What each flag is called and does.
pub open spec fn flag_views(flags: Seq<Flag>) -> Seq<FlagView> {
    flags.map_values(|f: Flag| f@)
}

/// What each command is called, does and accepts.
pub open spec fn command_views(commands: Seq<TypableCommand>) -> Seq<CommandView> {
    commands.map_values(|c: TypableCommand| c@)
}

impl View for TypableCommand {
    type V = CommandView;

    open spec fn view(&self) -> CommandView {
        CommandView {
            name: self.name@,
            aliases: literal_views(self.aliases@),
            doc: self.doc@,
            positional_args: self.completer.positional_args@,
            var_args: self.completer.var_args,
            positionals: self.signature.positionals,
            raw_after: self.signature.raw_after,
            flags: flag_views(self.signature.flags@),
        }
    }
}

/// A command without aliases, completion or flags, that accepts so many arguments.
pub open spec fn plain(name: Seq<char>, doc: Seq<char>, positionals: (usize, Option<usize>)) -> CommandView {
    CommandView {
        name,
        aliases: Seq::empty(),
        doc,
        positional_args: Seq::empty(),
        var_args: Completer::Nothing,
        positionals,
        raw_after: None,
        flags: Seq::empty(),
    }
}

impl CommandView {
    /// Whether the command is called `name`, or has it for an alias.
    pub open spec fn answers(self, name: Seq<char>) -> bool {
        self.name == name || self.aliases.contains(name)
    }

    /// The command with one more alias.
    pub open spec fn alias(self, alias: Seq<char>) -> CommandView {
        CommandView { aliases: self.aliases.push(alias), ..self }
    }

    /// The command with a completer for its next argument.
    pub open spec fn completes(self, completer: Completer) -> CommandView {
        CommandView { positional_args: self.positional_args.push(completer), ..self }
    }

    /// The command with a completer for all other arguments.
    pub open spec fn completes_all(self, completer: Completer) -> CommandView {
        CommandView { var_args: completer, ..self }
    }

    /// The command with its input taken as it stands from argument `n` on.
    pub open spec fn raw_from(self, n: u8) -> CommandView {
        CommandView { raw_after: Some(n), ..self }
    }

    /// The command with one more flag.
    pub open spec fn flag(self, name: Seq<char>, alias: Option<char>, doc: Seq<char>) -> CommandView {
        CommandView {
            flags: self.flags.push(FlagView { name, alias, doc, completions: None }),
            ..self
        }
    }
}

impl TypableCommand {
    /// A command without aliases, completion or flags, that accepts so many arguments.
    pub fn plain(name: &'static str, doc: &'static str, least: usize, most: Option<usize>) -> (c:
        TypableCommand)
        ensures
            c@ == plain(name@, doc@, (least, most)),
    {
        let c = TypableCommand {
            name,
            aliases: Vec::new(),
            doc,
            completer: CommandCompleter::none(),
            signature: Signature {
                positionals: (least, most),
                raw_after: None,
                flags: Vec::new(),
            },
        };
        assert(c@ =~= plain(name@, doc@, (least, most)));
        c
    }

    /// Adds an alias.
    pub fn alias(self, alias: &'static str) -> (c: TypableCommand)
        ensures
            c@ == self@.alias(alias@),
    {
        let mut c = self;
        c.aliases.push(alias);
        assert(c@.aliases =~= self@.aliases.push(alias@));
        c
    }

    /// Adds a completer for the next argument.
    pub fn completes(self, completer: Completer) -> (c: TypableCommand)
        ensures
            c@ == self@.completes(completer),
    {
        let mut c = self;
        c.completer.positional_args.push(completer);
        c
    }

    /// Sets the completer for all other arguments.
    pub fn completes_all(self, completer: Completer) -> (c: TypableCommand)
        ensures
            c@ == self@.completes_all(completer),
    {
        let mut c = self;
        c.completer.var_args = completer;
        c
    }

    /// Takes the input as it stands from argument `n` on.
    pub fn raw_from(self, n: u8) -> (c: TypableCommand)
        ensures
            c@ == self@.raw_from(n),
    {
        let mut c = self;
        c.signature.raw_after = Some(n);
        c
    }

    /// Adds a flag.
    pub fn flag(self, name: &'static str, alias: Option<char>, doc: &'static str) -> (c: TypableCommand)
        ensures
            c@ == self@.flag(name@, alias, doc@),
    {
        let mut c = self;
        let f = Flag { name, alias, doc, completions: None };
        c.signature.flags.push(f);
        assert(c@.flags =~= self@.flags.push(f@));
        c
    }
}

impl TypableCommand {
    /// The command is called `name`, or has it for an alias.
    pub open spec fn answers_to(&self, name: Seq<char>) -> bool {
        self.name@ == name || exists|k: int|
            0 <= k < self.aliases@.len() && (#[trigger] self.aliases@[k])@ == name
    }

    /// Whether the command is called `name`, or has it for an alias.
    pub fn is_called(&self, name: &str) -> (b: bool)
        ensures
            b == self.answers_to(name@),
    {
        if same_text(self.name, name) {
            return true;
        }
        let mut k: usize = 0;
        while k < self.aliases.len()
            invariant
                k <= self.aliases@.len(),
                self.name@ != name@,
                forall|j: int| 0 <= j < k ==> (#[trigger] self.aliases@[j])@ != name@,
            decreases self.aliases.len() - k,
        {
            if same_text(self.aliases[k], name) {
                return true;
            }
            k += 1;
        }
        false
    }
}

/// Whether two strings hold the same characters.
pub fn same_text(a: &str, b: &str) -> (same: bool)
    ensures
        same == (a@ == b@),
{
    let n = a.unicode_len();
    if n != b.unicode_len() {
        return false;
    }
    let mut i: usize = 0;
    while i < n
        invariant
            n == a@.len() == b@.len(),
            i <= n,
            forall|j: int| 0 <= j < i ==> a@[j] == b@[j],
        decreases n - i,
    {
        if a.get_char(i) != b.get_char(i) {
            return false;
        }
        i += 1;
    }
    assert(a@ =~= b@);
    true
}

/// The last of the first `n` commands that answers to `name`.
pub open spec fn find_last(commands: Seq<TypableCommand>, name: Seq<char>, n: nat) -> Option<int>
    decreases n,
{
    if n == 0 {
        None
    } else if commands[n - 1].answers_to(name) {
        Some(n - 1)
    } else {
        find_last(commands, name, (n - 1) as nat)
    }
}

/// The command that `name` stands for; of several the one that is listed last.
pub fn find_command(commands: &Vec<TypableCommand>, name: &str) -> (found: Option<usize>)
    ensures
        (match found {
            Some(k) => Some(k as int),
            None => None,
        }) == find_last(commands@, name@, commands@.len()),
        found matches Some(k) ==> k < commands@.len() && commands@[k as int].answers_to(name@),
        found is None ==> forall|k: int|
            0 <= k < commands@.len() ==> !(#[trigger] commands@[k]).answers_to(name@),
{
    let mut n: usize = commands.len();
    while n > 0
        invariant
            n <= commands@.len(),
            find_last(commands@, name@, commands@.len()) == find_last(commands@, name@, n as nat),
            forall|k: int|
                n <= k < commands@.len() ==> !(#[trigger] commands@[k]).answers_to(name@),
        decreases n,
    {
        if commands[n - 1].is_called(name) {
            return Some(n - 1);
        }
        n -= 1;
    }
    None
}

/// Where no two commands share a name or an alias, each is found by every name it answers to.
pub proof fn every_name_finds_its_command(commands: Seq<TypableCommand>, i: int, name: Seq<char>)
    requires
        0 <= i < commands.len(),
        commands[i].answers_to(name),
        forall|j: int|
            0 <= j < commands.len() && j != i ==> !(#[trigger] commands[j]).answers_to(name),
    ensures
        find_last(commands, name, commands.len()) == Some(i),
{
    lemma_find_last(commands, name, i, commands.len());
}

proof fn lemma_find_last(commands: Seq<TypableCommand>, name: Seq<char>, i: int, n: nat)
    requires
        0 <= i < n <= commands.len(),
        commands[i].answers_to(name),
        forall|j: int|
            0 <= j < commands.len() && j != i ==> !(#[trigger] commands[j]).answers_to(name),
    ensures
        find_last(commands, name, n) == Some(i),
    decreases n,
{
    if n - 1 != i {
        lemma_find_last(commands, name, i, (n - 1) as nat);
    }
}

} // verus!
