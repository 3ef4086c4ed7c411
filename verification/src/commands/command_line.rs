//! The command line: what is typed at the prompt, its help and its completion.

use crate::chars::{is_whitespace, whitespace};
use crate::commands::catalog::{
    command_views, find_command, find_last, flag_views, literal_views, CommandCompleter,
    CommandView, Completer, Flag, FlagView, TypableCommand,
};
use crate::commands::insert::{blank, bytes, count_bytes, lemma_bytes};
use crate::commands::links::string_views;
use crate::commands::names::{lemma_listed, lemma_listed_word};
use crate::commands::search::{
    char_at_byte, char_of, characters_begin_apart, on_character, PromptEvent,
};
use crate::commands::table::{all_commands, lemma_answers, listed_commands_are_found};
use crate::custom_commands::{command_place, offered, without_first, CustomCommands, ESCAPE};
use crate::strings::{from_chars, parse_usize, to_chars, unsigned};
use crate::transaction::{append, copy_chars, repeated};
use vstd::prelude::*;

verus! {

/// A space or a tab, which end the name of a command.
pub open spec fn separates(c: char) -> bool {
    c == ' ' || c == '\t'
}

/// Where the name of the command ends.
pub open spec fn name_end(line: Seq<char>) -> int
    decreases line.len(),
{
    if line.len() == 0 || separates(line[0]) {
        0
    } else {
        1 + name_end(line.skip(1))
    }
}

/// The name of the command in a line.
pub open spec fn command_part(line: Seq<char>) -> Seq<char> {
    line.take(name_end(line))
}

/// The arguments in a line, behind the separator.
pub open spec fn args_part(line: Seq<char>) -> Seq<char> {
    if name_end(line) < line.len() {
        line.skip(name_end(line) + 1)
    } else {
        Seq::empty()
    }
}

/// It is the name of the command that is still being typed.
pub open spec fn completes_name(line: Seq<char>) -> bool {
    command_part(line).len() == 0 || (blank(args_part(line)) && !(line.len() > 0 && separates(
        line.last(),
    )))
}

proof fn lemma_name_end(line: Seq<char>)
    ensures
        0 <= name_end(line) <= line.len(),
    decreases line.len(),
{
    if line.len() > 0 && !separates(line[0]) {
        lemma_name_end(line.skip(1));
    }
}

/// Splitting a line loses nothing but the separator, and the name holds no separator.
pub proof fn a_split_line_is_whole(line: Seq<char>)
    ensures
        name_end(line) == line.len() ==> line == command_part(line) && args_part(line).len() == 0,
        name_end(line) < line.len() ==> separates(line[name_end(line)]) && line == command_part(
            line,
        ).push(line[name_end(line)]) + args_part(line),
        forall|i: int|
            0 <= i < command_part(line).len() ==> !separates(#[trigger] command_part(line)[i]),
    decreases line.len(),
{
    lemma_name_end(line);
    let end = name_end(line);
    if line.len() > 0 && !separates(line[0]) {
        let rest = line.skip(1);
        a_split_line_is_whole(rest);
        lemma_name_end(rest);
        if end < line.len() {
            assert(rest[end - 1] == line[end]);
        }
        assert forall|i: int| 0 <= i < command_part(line).len() implies !separates(
            #[trigger] command_part(line)[i],
        ) by {
            if i > 0 {
                assert(command_part(rest)[i - 1] == line[i]);
            }
        }
    }
    if end < line.len() {
        assert(line =~= command_part(line).push(line[end]) + args_part(line));
    } else {
        assert(line =~= command_part(line));
    }
}

/// A line in its parts.
pub struct SplitLine {
    pub command: String,
    pub args: String,
    /// It is the name of the command that is still being typed.
    pub complete_command: bool,
}

fn is_blank_text(s: &Vec<char>) -> (b: bool)
    ensures
        b == blank(s@),
{
    let mut i: usize = 0;
    while i < s.len()
        invariant
            i <= s@.len(),
            forall|j: int| 0 <= j < i ==> whitespace(#[trigger] s@[j]),
        decreases s.len() - i,
    {
        if !is_whitespace(s[i]) {
            assert(!whitespace(s@[i as int]));
            return false;
        }
        i += 1;
    }
    true
}

fn part_of(s: &Vec<char>, from: usize, to: usize) -> (part: Vec<char>)
    requires
        from <= to <= s@.len(),
    ensures
        part@ == s@.subrange(from as int, to as int),
{
    let mut part: Vec<char> = Vec::new();
    let mut i: usize = from;
    while i < to
        invariant
            from <= i <= to <= s@.len(),
            part@ == s@.subrange(from as int, i as int),
        decreases to - i,
    {
        part.push(s[i]);
        i += 1;
    }
    part
}

/// Splits a line into the name of the command and its arguments.
pub fn split(line: &str) -> (parts: SplitLine)
    ensures
        parts.command@ == command_part(line@),
        parts.args@ == args_part(line@),
        parts.complete_command == completes_name(line@),
{
    let chars = to_chars(line);
    let mut end: usize = 0;
    assert(chars@.skip(0) =~= chars@);
    while end < chars.len() && !(chars[end] == ' ' || chars[end] == '\t')
        invariant
            end <= chars@.len(),
            name_end(chars@) == end + name_end(chars@.skip(end as int)),
        decreases chars.len() - end,
    {
        assert(chars@.skip(end as int).skip(1) =~= chars@.skip(end + 1));
        assert(chars@.skip(end as int)[0] == chars@[end as int]);
        end += 1;
    }
    proof {
        if end < chars@.len() {
            assert(chars@.skip(end as int)[0] == chars@[end as int]);
        }
    }
    let command = part_of(&chars, 0, end);
    assert(command@ =~= command_part(line@));
    let args = if end < chars.len() {
        let rest = part_of(&chars, end + 1, chars.len());
        assert(rest@ =~= chars@.skip(end + 1));
        rest
    } else {
        let none: Vec<char> = Vec::new();
        assert(none@ =~= Seq::<char>::empty());
        none
    };
    let ends: bool = chars.len() > 0 && (chars[chars.len() - 1] == ' ' || chars[chars.len() - 1]
        == '\t');
    let complete_command = command.len() == 0 || (is_blank_text(&args) && !ends);
    SplitLine { command: from_chars(&command), args: from_chars(&args), complete_command }
}

/// A name that stands for the built-in command.
pub open spec fn escaped(command: Seq<char>) -> bool {
    command.len() > 0 && command[0] == ESCAPE
}

fn is_escaped(command: &str) -> (b: bool)
    ensures
        b == escaped(command@),
{
    command.unicode_len() > 0 && command.get_char(0) == ESCAPE
}

/// A step of a custom command.
pub enum CustomStep {
    /// A command of the list, with its arguments.
    Typable(usize, String),
    /// A command that keys are bound to.
    Mappable(String),
    /// A name that no command has. The steps end here.
    Unknown(String),
}

/// The error that there is no such command.
pub open spec fn unknown_text(name: Seq<char>) -> Seq<char> {
    "no such command: '"@ + name + "'"@
}

fn unknown_message(name: &str) -> (m: String)
    ensures
        m@ == unknown_text(name@),
{
    let mut m = String::from_str("no such command: '");
    m.append(name);
    m.append("'");
    m
}

/// What a step of a custom command is, when it is entered or while it is typed.
pub open spec fn is_step(
    step: CustomStep,
    configured: Seq<char>,
    commands: Seq<TypableCommand>,
) -> bool {
    if configured.len() > 0 && configured[0] == ':' {
        let typed = configured.skip(1);
        match find_last(commands, command_part(typed), commands.len()) {
            Some(k) => step matches CustomStep::Typable(i, args) && i == k && args@ == args_part(
                typed,
            ),
            None => step matches CustomStep::Unknown(m) && m@ == unknown_text(command_part(typed)),
        }
    } else {
        step matches CustomStep::Mappable(name) && name@ == configured
    }
}

/// A command that is passed over while the line is being typed: only those of the command line
/// show a preview.
pub open spec fn passed_over(configured: Seq<char>, event: PromptEvent) -> bool {
    !(configured.len() > 0 && configured[0] == ':') && event != PromptEvent::Validate
}

/// The places, among the first `n` configured commands, of those that become steps. They end with
/// one that names no command.
pub open spec fn step_places(
    configured: Seq<Seq<char>>,
    commands: Seq<TypableCommand>,
    event: PromptEvent,
    n: nat,
) -> (Seq<int>, bool)
    decreases n,
{
    if n == 0 {
        (Seq::empty(), false)
    } else {
        let (before, ended) = step_places(configured, commands, event, (n - 1) as nat);
        let c = configured[n - 1];
        if ended || passed_over(c, event) {
            (before, ended)
        } else {
            let unknown = c.len() > 0 && c[0] == ':' && find_last(
                commands,
                command_part(c.skip(1)),
                commands.len(),
            ) is None;
            (before.push(n - 1), unknown)
        }
    }
}

/// The steps of a custom command.
pub open spec fn are_steps(
    steps: Seq<CustomStep>,
    configured: Seq<Seq<char>>,
    commands: Seq<TypableCommand>,
    event: PromptEvent,
) -> bool {
    let places = step_places(configured, commands, event, configured.len()).0;
    &&& steps.len() == places.len()
    &&& forall|k: int|
        0 <= k < steps.len() ==> is_step(
            #[trigger] steps[k],
            configured[places[k]],
            commands,
        )
}

fn custom_steps(configured: &Vec<String>, commands: &Vec<TypableCommand>, event: PromptEvent) -> (steps: Vec<
    CustomStep,
>)
    ensures
        are_steps(steps@, string_views(configured@), commands@, event),
{
    let ghost all = string_views(configured@);
    let mut steps: Vec<CustomStep> = Vec::new();
    let mut ended: bool = false;
    let mut i: usize = 0;
    while i < configured.len()
        invariant
            i <= configured@.len(),
            all == string_views(configured@),
            ended == step_places(all, commands@, event, i as nat).1,
            steps@.len() == step_places(all, commands@, event, i as nat).0.len(),
            forall|k: int|
                0 <= k < steps@.len() ==> is_step(
                    #[trigger] steps@[k],
                    all[step_places(all, commands@, event, i as nat).0[k]],
                    commands@,
                ),
        decreases configured.len() - i,
    {
        let ghost places = step_places(all, commands@, event, i as nat).0;
        let c = configured[i].as_str();
        assert(all[i as int] == c@);
        if !ended {
            if c.unicode_len() > 0 && c.get_char(0) == ':' {
                let typed = crate::custom_commands::strip_first(c, ':');
                assert(typed@ == c@.skip(1));
                let parts = split(typed.as_str());
                match find_command(commands, parts.command.as_str()) {
                    Some(k) => {
                        steps.push(CustomStep::Typable(k, parts.args));
                    },
                    None => {
                        steps.push(CustomStep::Unknown(unknown_message(parts.command.as_str())));
                        ended = true;
                    },
                }
                assert(is_step(steps@.last(), all[i as int], commands@));
            } else {
                let entered: bool = match event {
                    PromptEvent::Validate => true,
                    _ => false,
                };
                if entered {
                    steps.push(CustomStep::Mappable(configured[i].clone()));
                    assert(is_step(steps@.last(), all[i as int], commands@));
                }
            }
        }
        i += 1;
    }
    steps
}

/// What a line does.
pub enum CommandPlan {
    Nothing,
    /// The steps of a custom command, with the arguments of the line, which the steps may ask for.
    Custom(Vec<CustomStep>, String),
    /// Goes to a line; its number is the argument of the command that does.
    Goto(String),
    /// A command of the list, with its arguments.
    Run(usize, String),
    /// There is no such command.
    Unknown(String),
}

/// A name that is the number of a line.
pub open spec fn is_line_number(command: Seq<char>) -> bool {
    unsigned(command) matches Some(n) && n <= usize::MAX
}

/// What a line does. A custom command comes before the built-in one of the same name, unless that
/// is asked for with a caret. A number alone goes to that line. A name that no command has is an
/// error once the line is entered.
pub fn execute_command_line(
    input: &str,
    event: PromptEvent,
    custom: &CustomCommands,
    commands: &Vec<TypableCommand>,
) -> (plan: CommandPlan)
    ensures
        ({
            let command = command_part(input@);
            let args = args_part(input@);
            let name = without_first(command, ESCAPE);
            let place = command_place(custom.commands@, command);
            if command.len() == 0 {
                plan is Nothing
            } else if !escaped(command) && place is Some {
                plan matches CommandPlan::Custom(steps, given) && are_steps(
                    steps@,
                    string_views(custom.commands@[place->0].commands@),
                    commands@,
                    event,
                ) && given@ == args
            } else if is_line_number(name) && blank(args) {
                plan matches CommandPlan::Goto(line) && line@ == name
            } else {
                match find_last(commands@, name, commands@.len()) {
                    Some(k) => plan matches CommandPlan::Run(i, a) && i == k && a@ == args,
                    None => if event == PromptEvent::Validate {
                        plan matches CommandPlan::Unknown(m) && m@ == unknown_text(name)
                    } else {
                        plan is Nothing
                    },
                }
            }
        }),
{
    let parts = split(input);
    if parts.command.as_str().unicode_len() == 0 {
        return CommandPlan::Nothing;
    }
    let builtin = is_escaped(parts.command.as_str());
    let name = crate::custom_commands::strip_first(parts.command.as_str(), ESCAPE);
    if !builtin {
        match custom.get(parts.command.as_str()) {
            Some(c) => {
                let steps = custom_steps(&c.commands, commands, event);
                return CommandPlan::Custom(steps, parts.args);
            },
            None => {},
        }
    }
    if parse_usize(&to_chars(name.as_str())).is_some() && is_blank_text(
        &to_chars(parts.args.as_str()),
    ) {
        return CommandPlan::Goto(name);
    }
    match find_command(commands, name.as_str()) {
        Some(k) => CommandPlan::Run(k, parts.args),
        None => match event {
            PromptEvent::Validate => CommandPlan::Unknown(unknown_message(name.as_str())),
            _ => CommandPlan::Nothing,
        },
    }
}

/// The error of a command: its name before what went wrong.
pub fn command_error(name: &str, error: &str) -> (m: String)
    ensures
        m@ == "'"@ + name@ + "': "@ + error@,
{
    let mut m = String::from_str("'");
    m.append(name);
    m.append("': ");
    m.append(error);
    m
}

/// A flag as it is typed: its name, its alias and whether it takes an argument.
pub open spec fn flag_text(f: FlagView) -> Seq<char> {
    f.name + (match f.alias {
        Some(c) => "/-"@ + seq![c],
        None => ""@,
    }) + (if f.completions is Some {
        " <arg>"@
    } else {
        ""@
    })
}

/// The width of the widest flag, in bytes.
pub open spec fn widest(flags: Seq<FlagView>) -> int
    decreases flags.len(),
{
    if flags.len() == 0 {
        0
    } else {
        let before = widest(flags.drop_last());
        let w = bytes(flag_text(flags.last()));
        if w > before {
            w
        } else {
            before
        }
    }
}

/// The help on flags, in which their descriptions stand under each other.
pub open spec fn flags_help(flags: Seq<FlagView>, width: int) -> Seq<char>
    decreases flags.len(),
{
    if flags.len() == 0 {
        Seq::empty()
    } else {
        let f = flags.last();
        flags_help(flags.drop_last(), width) + "\n  `--"@ + flag_text(f) + "`"@ + repeated(
            seq![' '],
            (width - bytes(flag_text(f))) as nat,
        ) + "  "@ + f.doc
    }
}

/// The aliases of a command as its help shows them.
pub open spec fn aliases_help(aliases: Seq<Seq<char>>) -> Seq<char>
    decreases aliases.len(),
{
    if aliases.len() == 0 {
        Seq::empty()
    } else if aliases.len() == 1 {
        "`:"@ + aliases[0] + "`"@
    } else {
        aliases_help(aliases.drop_last()) + ", "@ + "`:"@ + aliases.last() + "`"@
    }
}

/// The help on a command.
pub open spec fn command_help(c: CommandView) -> Seq<char> {
    c.doc + (if c.aliases.len() > 0 {
        "\nAliases: "@ + aliases_help(c.aliases)
    } else {
        ""@
    }) + (if c.flags.len() > 0 {
        "\nFlags:"@ + flags_help(c.flags, widest(c.flags))
    } else {
        ""@
    })
}

/// How many bytes `chars` take in UTF-8.
fn width_of(chars: &Vec<char>) -> (n: u128)
    ensures
        n == bytes(chars@),
        n <= 4 * usize::MAX,
{
    let mut n: u128 = 0;
    let mut i: usize = 0;
    assert(chars@.take(0) =~= Seq::<char>::empty());
    while i < chars.len()
        invariant
            i <= chars@.len(),
            n == bytes(chars@.take(i as int)),
            n <= 4 * i,
        decreases chars.len() - i,
    {
        assert(chars@.take(i + 1).drop_last() =~= chars@.take(i as int));
        let code = chars[i] as u32;
        n += if code < 0x80 {
            1u128
        } else if code < 0x800 {
            2u128
        } else if code < 0x10000 {
            3u128
        } else {
            4u128
        };
        i += 1;
    }
    assert(chars@.take(i as int) =~= chars@);
    n
}

fn push_spaces(doc: &mut Vec<char>, count: u128)
    ensures
        final(doc)@ == old(doc)@ + repeated(seq![' '], count as nat),
{
    let ghost before = doc@;
    let mut i: u128 = 0;
    assert(before + Seq::<char>::empty() =~= before);
    while i < count
        invariant
            i <= count,
            doc@ == before + repeated(seq![' '], i as nat),
        decreases count - i,
    {
        doc.push(' ');
        assert(doc@ =~= before + repeated(seq![' '], (i + 1) as nat));
        i += 1;
    }
}

fn show_flag(f: &Flag) -> (text: Vec<char>)
    ensures
        text@ == flag_text(f@),
{
    let mut text = String::from_str(f.name);
    match f.alias {
        Some(c) => {
            text.append("/-");
            text.push(c);
            assert(text@ =~= f.name@ + ("/-"@ + seq![c]));
        },
        None => {
            text.append("");
        },
    }
    if f.completions.is_some() {
        text.append(" <arg>");
    } else {
        text.append("");
    }
    to_chars(text.as_str())
}

fn widest_flag(flags: &Vec<Flag>) -> (width: u128)
    ensures
        width == widest(flag_views(flags@)),
        forall|i: int|
            0 <= i < flags@.len() ==> bytes(flag_text((#[trigger] flags@[i])@)) <= width,
{
    let ghost all = flag_views(flags@);
    let mut width: u128 = 0;
    let mut i: usize = 0;
    assert(all.take(0) =~= Seq::<FlagView>::empty());
    while i < flags.len()
        invariant
            i <= flags@.len(),
            all == flag_views(flags@),
            width == widest(all.take(i as int)),
            forall|j: int| 0 <= j < i ==> bytes(flag_text((#[trigger] flags@[j])@)) <= width,
        decreases flags.len() - i,
    {
        assert(all.take(i + 1).drop_last() =~= all.take(i as int));
        assert(all[i as int] == flags@[i as int]@);
        let w = width_of(&show_flag(&flags[i]));
        if w > width {
            width = w;
        }
        i += 1;
    }
    assert(all.take(i as int) =~= all);
    width
}

fn push_flags(doc: &mut Vec<char>, flags: &Vec<Flag>)
    ensures
        final(doc)@ == old(doc)@ + flags_help(flag_views(flags@), widest(flag_views(flags@))),
{
    let ghost before = doc@;
    let ghost all = flag_views(flags@);
    let width = widest_flag(flags);
    let mut i: usize = 0;
    assert(all.take(0) =~= Seq::<FlagView>::empty());
    assert(before + Seq::<char>::empty() =~= before);
    while i < flags.len()
        invariant
            i <= flags@.len(),
            all == flag_views(flags@),
            width == widest(all),
            forall|i: int|
                0 <= i < flags@.len() ==> bytes(flag_text((#[trigger] flags@[i])@)) <= width,
            doc@ == before + flags_help(all.take(i as int), width as int),
        decreases flags.len() - i,
    {
        assert(all.take(i + 1).drop_last() =~= all.take(i as int));
        assert(all[i as int] == flags@[i as int]@);
        let text = show_flag(&flags[i]);
        let w = width_of(&text);
        let ghost here = doc@;
        append(doc, &to_chars("\n  `--"));
        append(doc, &text);
        append(doc, &to_chars("`"));
        push_spaces(doc, width - w);
        append(doc, &to_chars("  "));
        append(doc, &to_chars(flags[i].doc));
        assert(doc@ =~= before + flags_help(all.take(i + 1), width as int));
        i += 1;
    }
    assert(all.take(i as int) =~= all);
}

fn push_aliases(doc: &mut Vec<char>, aliases: &Vec<&'static str>)
    ensures
        final(doc)@ == old(doc)@ + aliases_help(literal_views(aliases@)),
{
    let ghost before = doc@;
    let ghost all = literal_views(aliases@);
    let mut i: usize = 0;
    assert(all.take(0) =~= Seq::<Seq<char>>::empty());
    assert(before + Seq::<char>::empty() =~= before);
    while i < aliases.len()
        invariant
            i <= aliases@.len(),
            all == literal_views(aliases@),
            doc@ == before + aliases_help(all.take(i as int)),
        decreases aliases.len() - i,
    {
        assert(all.take(i + 1).drop_last() =~= all.take(i as int));
        if i > 0 {
            append(doc, &to_chars(", "));
        }
        append(doc, &to_chars("`:"));
        append(doc, &to_chars(aliases[i]));
        append(doc, &to_chars("`"));
        assert(doc@ =~= before + aliases_help(all.take(i + 1)));
        i += 1;
    }
    assert(all.take(i as int) =~= all);
}

/// The help on a command.
pub fn describe_command(command: &TypableCommand) -> (help: String)
    ensures
        help@ == command_help(command@),
{
    let mut doc = to_chars(command.doc);
    let ghost c = command@;
    if command.aliases.len() > 0 {
        append(&mut doc, &to_chars("\nAliases: "));
        push_aliases(&mut doc, &command.aliases);
    } else {
        append(&mut doc, &to_chars(""));
    }
    let ghost named = doc@;
    assert(named =~= c.doc + (if c.aliases.len() > 0 {
        "\nAliases: "@ + aliases_help(c.aliases)
    } else {
        ""@
    }));
    if command.signature.flags.len() > 0 {
        append(&mut doc, &to_chars("\nFlags:"));
        push_flags(&mut doc, &command.signature.flags);
    } else {
        append(&mut doc, &to_chars(""));
    }
    assert(doc@ =~= command_help(c));
    from_chars(&doc)
}

/// The help on the command that a line names, with or without the mark for a built-in command.
pub open spec fn help_on(commands: Seq<TypableCommand>, line: Seq<char>) -> Option<Seq<char>> {
    match find_last(commands, without_first(command_part(line), ESCAPE), commands.len()) {
        Some(k) => Some(command_help(commands[k]@)),
        None => None,
    }
}

/// The help on the command that is being typed.
pub fn command_line_doc(input: &str, commands: &Vec<TypableCommand>) -> (help: Option<String>)
    ensures
        (match help {
            Some(h) => Some(h@),
            None => None,
        }) == help_on(commands@, input@),
{
    let parts = split(input);
    let name = crate::custom_commands::strip_first(parts.command.as_str(), ESCAPE);
    match find_command(commands, name.as_str()) {
        Some(k) => Some(describe_command(&commands[k])),
        None => None,
    }
}

proof fn lemma_command_word(word: Seq<char>, rest: Seq<char>)
    requires
        forall|k: int| 0 <= k < word.len() ==> !separates(#[trigger] word[k]),
        rest.len() > 0 ==> separates(rest[0]),
    ensures
        name_end(word + rest) == word.len(),
        command_part(word + rest) == word,
    decreases word.len(),
{
    let line = word + rest;
    if word.len() > 0 {
        assert(!separates(word[0]));
        assert(line.skip(1) =~= word.skip(1) + rest);
        assert forall|k: int| 0 <= k < word.skip(1).len() implies !separates(
            #[trigger] word.skip(1)[k],
        ) by {
            assert(!separates(word[k + 1]));
        }
        lemma_command_word(word.skip(1), rest);
    } else {
        assert(line =~= rest);
    }
    assert(line.take(word.len() as int) =~= word);
}

/// Every alias of a command gives the same help as its name, with or without the mark for a
/// built-in command, and whatever arguments follow. The help begins with the command's
/// documentation.
pub proof fn aliases_give_the_same_help(
    commands: Seq<TypableCommand>,
    i: int,
    name: Seq<char>,
    rest: Seq<char>,
)
    requires
        command_views(commands) == all_commands(),
        0 <= i < commands.len(),
        commands[i].answers_to(name),
        rest.len() > 0 ==> separates(rest[0]),
    ensures
        help_on(commands, name + rest) == Some(command_help(commands[i]@)),
        help_on(commands, seq![ESCAPE] + name + rest) == Some(command_help(commands[i]@)),
        commands[i].doc@.is_prefix_of(command_help(commands[i]@)),
{
    listed_commands_are_found(commands, i, name);
    lemma_answers(commands[i], name);
    assert(command_views(commands)[i] == commands[i]@);
    lemma_listed(i, name);
    lemma_listed_word(i, name);
    lemma_command_word(name, rest);
    let marked = seq![ESCAPE] + name;
    assert forall|k: int| 0 <= k < marked.len() implies !separates(#[trigger] marked[k]) by {
        if k > 0 {
            assert(!separates(name[k - 1]));
        }
    }
    lemma_command_word(marked, rest);
    assert(marked.skip(1) =~= name);
}

/// There is no help exactly when no command answers to the word that a line begins with.
pub proof fn unknown_words_have_no_help(commands: Seq<TypableCommand>, line: Seq<char>)
    ensures
        help_on(commands, line) is None <==> forall|k: int|
            0 <= k < commands.len() ==> !(#[trigger] commands[k]).answers_to(
                without_first(command_part(line), ESCAPE),
            ),
{
    lemma_found_last(commands, without_first(command_part(line), ESCAPE), commands.len());
}

proof fn lemma_found_last(commands: Seq<TypableCommand>, name: Seq<char>, n: nat)
    requires
        n <= commands.len(),
    ensures
        find_last(commands, name, n) is None <==> forall|k: int|
            0 <= k < n ==> !(#[trigger] commands[k]).answers_to(name),
    decreases n,
{
    if n > 0 {
        lemma_found_last(commands, name, (n - 1) as nat);
    }
}

/// The help on the command that is being typed. A custom command comes before the built-in one of
/// the same name; one that is hidden has no help.
pub fn command_line_doc_with_custom(
    input: &str,
    custom: &CustomCommands,
    commands: &Vec<TypableCommand>,
) -> (help: Option<String>)
    ensures
        ({
            let command = command_part(input@);
            let name = without_first(command, ESCAPE);
            let place = command_place(custom.commands@, command);
            if !escaped(command) && place is Some {
                let c = custom.commands@[place->0];
                &&& help is Some <==> !c.hidden
                &&& help matches Some(h) ==> h@ == c.described()
            } else {
                match find_last(commands@, name, commands@.len()) {
                    Some(k) => help matches Some(h) && h@ == command_help(commands@[k]@),
                    None => help is None,
                }
            }
        }),
{
    let parts = split(input);
    if !is_escaped(parts.command.as_str()) {
        match custom.get(parts.command.as_str()) {
            Some(c) => {
                if c.hidden {
                    return None;
                }
                return Some(c.prompt());
            },
            None => {},
        }
    }
    command_line_doc(input, commands)
}

/// How a line is completed.
pub enum LineCompletion {
    Nothing,
    /// The name, among these; what is found is put in with `prefix` before it.
    Name { pattern: String, candidates: Vec<String>, prefix: &'static str },
    /// The arguments of a command, which begin `offset` bytes into the line.
    Args { command: usize, args: String, offset: usize },
}

/// The names of the first `n` commands.
pub open spec fn command_names(commands: Seq<TypableCommand>, n: nat) -> Seq<Seq<char>>
    decreases n,
{
    if n == 0 {
        Seq::empty()
    } else {
        command_names(commands, (n - 1) as nat).push(commands[n - 1].name@)
    }
}

fn push_names(names: &mut Vec<String>, commands: &Vec<TypableCommand>)
    ensures
        string_views(final(names)@) == string_views(old(names)@) + command_names(
            commands@,
            commands@.len(),
        ),
{
    let ghost before = string_views(names@);
    let mut i: usize = 0;
    assert(before + Seq::<Seq<char>>::empty() =~= before);
    while i < commands.len()
        invariant
            i <= commands@.len(),
            string_views(names@) == before + command_names(commands@, i as nat),
        decreases commands.len() - i,
    {
        let name = String::from_str(commands[i].name);
        assert(string_views(names@.push(name)) =~= string_views(names@).push(name@));
        names.push(name);
        assert(string_views(names@) =~= before + command_names(commands@, (i + 1) as nat));
        i += 1;
    }
}

/// The command whose arguments are completed for `command`: the one that a custom command names
/// for it, else the command itself.
pub open spec fn completed_command(custom: CustomCommands, command: Seq<char>) -> Seq<char> {
    match command_place(custom.commands@, command) {
        Some(k) => match custom.commands@[k].completer {
            Some(c) => c@,
            None => command,
        },
        None => command,
    }
}

/// How a line is completed: the names of custom and built-in commands, or, behind a caret, of
/// built-in ones; and the arguments of a command once its name is typed.
pub fn complete_command_line(input: &str, custom: &CustomCommands, commands: &Vec<TypableCommand>) -> (
completion: LineCompletion)
    requires
        4 * input@.len() + 2 <= usize::MAX,
    ensures
        ({
            let command = command_part(input@);
            let name = without_first(command, ESCAPE);
            let names = command_names(commands@, commands@.len());
            if completes_name(input@) {
                completion matches LineCompletion::Name { pattern, candidates, prefix } && pattern@
                    == name && prefix@ == (if escaped(command) {
                    "^"@
                } else {
                    ""@
                }) && string_views(candidates@) == (if escaped(command) {
                    names
                } else {
                    offered(custom.commands@, custom.commands@.len()) + names
                })
            } else {
                let completed = if escaped(command) {
                    name
                } else {
                    completed_command(*custom, command)
                };
                match find_last(commands@, completed, commands@.len()) {
                    Some(k) => completion matches LineCompletion::Args { command: i, args, offset }
                        && i == k && args@ == args_part(input@) && offset == bytes(command) + 1,
                    None => completion is Nothing,
                }
            }
        }),
{
    let parts = split(input);
    let builtin = is_escaped(parts.command.as_str());
    let name = crate::custom_commands::strip_first(parts.command.as_str(), ESCAPE);
    if parts.complete_command {
        let mut candidates: Vec<String> = Vec::new();
        if builtin {
            assert(string_views(candidates@) =~= Seq::<Seq<char>>::empty());
            push_names(&mut candidates, commands);
            assert(string_views(candidates@) =~= command_names(commands@, commands@.len()));
            return LineCompletion::Name { pattern: name, candidates, prefix: "^" };
        }
        candidates = custom.visible_names();
        push_names(&mut candidates, commands);
        return LineCompletion::Name { pattern: name, candidates, prefix: "" };
    }
    proof {
        lemma_name_end(input@);
        lemma_bytes(command_part(input@));
    }
    let offset = count_bytes(&to_chars(parts.command.as_str())) + 1;
    let found = if builtin {
        find_command(commands, name.as_str())
    } else {
        match custom.get(parts.command.as_str()) {
            Some(c) => match &c.completer {
                Some(other) => find_command(commands, other.as_str()),
                None => find_command(commands, parts.command.as_str()),
            },
            None => find_command(commands, parts.command.as_str()),
        }
    };
    match found {
        Some(k) => LineCompletion::Args { command: k, args: parts.args, offset },
        None => LineCompletion::Nothing,
    }
}

/// A quotation mark.
#[derive(Clone, Copy, Debug, PartialEq, Eq, Structural)]
pub enum Quote {
    Single,
    Backtick,
}

impl Quote {
    pub open spec fn sign(self) -> char {
        match self {
            Quote::Single => '\'',
            Quote::Backtick => '`',
        }
    }

    /// The mark itself.
    pub fn char(&self) -> (c: char)
        ensures
            c == self.sign(),
    {
        match self {
            Quote::Single => '\'',
            Quote::Backtick => '`',
        }
    }
}

/// A kind of expansion.
#[derive(Clone, Copy, Debug, PartialEq, Eq, Structural)]
pub enum ExpansionKind {
    Variable,
    Unicode,
    Shell,
    Register,
    Arg,
}

/// A kind of token of the command line.
#[derive(Clone, Copy, Debug, PartialEq, Eq, Structural)]
pub enum TokenKind {
    Unquoted,
    Quoted(Quote),
    /// Double quotes, in which expansions are made.
    Expand,
    Expansion(ExpansionKind),
    /// The name of a kind of expansion, which is still being typed.
    ExpansionKind,
}

/// A token of the command line: its text, the byte at which it begins, and whether it is closed.
pub struct Token {
    pub kind: TokenKind,
    pub content_start: usize,
    pub content: Vec<char>,
    pub is_terminated: bool,
}

/// The token that is completed: the last one, or an empty one where the input ends between tokens.
/// `ends` tells at which byte the tokenizer stood behind each token.
pub fn completed_token(tokens: Vec<Token>, ends: &Vec<usize>, cursor: usize) -> (token: (Token, bool))
    requires
        tokens@.len() == ends@.len(),
    ensures
        ({
            let reached = exists|i: int| 0 <= i < ends@.len() && #[trigger] ends@[i] >= cursor;
            &&& token.1 == !reached
            &&& reached ==> token.0 == tokens@.last()
            &&& !reached ==> token.0.kind == TokenKind::Unquoted && token.0.content_start == cursor
                && token.0.content@ == Seq::<char>::empty() && !token.0.is_terminated
        }),
{
    let mut reached: bool = false;
    let mut i: usize = 0;
    while i < ends.len()
        invariant
            i <= ends@.len(),
            reached == exists|j: int| 0 <= j < i && #[trigger] ends@[j] >= cursor,
        decreases ends.len() - i,
    {
        if ends[i] >= cursor {
            reached = true;
            assert(ends@[i as int] >= cursor);
        }
        i += 1;
    }
    if reached {
        let mut tokens = tokens;
        match tokens.pop() {
            Some(t) => {
                return (t, false);
            },
            None => {},
        }
    }
    let content: Vec<char> = Vec::new();
    assert(content@ =~= Seq::<char>::empty());
    (
        Token {
            kind: TokenKind::Unquoted,
            content_start: cursor,
            content,
            is_terminated: false,
        },
        true,
    )
}

/// What the argument being typed is.
pub enum CompletionState {
    /// The argument at this place.
    Positional(usize),
    /// A flag.
    Flag,
    /// The argument of the flag at this place.
    FlagArgument(usize),
}

/// How an argument is completed. Offsets are in bytes.
pub enum ArgCompletion {
    Nothing,
    /// In the way of the command; what is found is quoted as the token is.
    Positional(Completer),
    /// The names of flags, for the pattern; what is found is put in behind two dashes at `offset`.
    Flags { pattern: Vec<char>, offset: usize },
    /// The values of the flag at place `flag`.
    FlagValues { flag: usize, offset: usize },
    /// In expansions, or in the way of the command where there is none.
    Expand { completer: Option<Completer>, offset: usize },
    Variable { offset: usize },
    Register { offset: usize },
    Kind { offset: usize },
}

/// The pattern for flags: what is typed, without the dashes before it.
pub open spec fn without_dashes(s: Seq<char>) -> Seq<char>
    decreases s.len(),
{
    if s.len() > 0 && s[0] == '-' {
        without_dashes(s.skip(1))
    } else {
        s
    }
}

fn strip_dashes(s: &Vec<char>) -> (out: Vec<char>)
    ensures
        out@ == without_dashes(s@),
{
    let mut i: usize = 0;
    assert(s@.skip(0) =~= s@);
    while i < s.len() && s[i] == '-'
        invariant
            i <= s@.len(),
            without_dashes(s@) == without_dashes(s@.skip(i as int)),
        decreases s.len() - i,
    {
        assert(s@.skip(i as int).skip(1) =~= s@.skip(i + 1));
        i += 1;
    }
    let out = part_of(s, i, s.len());
    assert(out@ =~= s@.skip(i as int));
    out
}

/// How an argument is completed. Closed tokens are not completed.
pub open spec fn is_arg_completion(
    plan: ArgCompletion,
    token: Token,
    state: CompletionState,
    completer: CommandCompleter,
    offset: usize,
) -> bool {
    let at = offset + token.content_start;
    if token.is_terminated {
        plan is Nothing
    } else {
        match token.kind {
            TokenKind::Unquoted | TokenKind::Quoted(_) => match state {
                CompletionState::Positional(n) => plan == ArgCompletion::Positional(
                    completer.for_argument(n as int),
                ),
                CompletionState::Flag => plan matches ArgCompletion::Flags { pattern, offset: o }
                    && pattern@ == without_dashes(token.content@) && o == at,
                CompletionState::FlagArgument(k) => plan matches ArgCompletion::FlagValues {
                    flag,
                    offset: o,
                } && flag == k && o == at,
            },
            TokenKind::Expand | TokenKind::Expansion(ExpansionKind::Shell) => plan matches
                ArgCompletion::Expand { completer: c, offset: o } && o == at && c == (match state {
                CompletionState::Positional(n) => Some(completer.for_argument(n as int)),
                _ => None,
            }),
            TokenKind::Expansion(ExpansionKind::Variable) => plan matches ArgCompletion::Variable {
                offset: o,
            } && o == at,
            TokenKind::Expansion(ExpansionKind::Register) => plan matches ArgCompletion::Register {
                offset: o,
            } && o == at,
            TokenKind::Expansion(_) => plan is Nothing,
            TokenKind::ExpansionKind => plan matches ArgCompletion::Kind { offset: o } && o == at,
        }
    }
}

/// How the argument that is being typed is completed.
pub fn complete_command_args(
    token: &Token,
    state: &CompletionState,
    completer: &CommandCompleter,
    offset: usize,
) -> (plan: ArgCompletion)
    requires
        offset + token.content_start <= usize::MAX,
    ensures
        is_arg_completion(plan, *token, *state, *completer, offset),
{
    let at = offset + token.content_start;
    if token.is_terminated {
        return ArgCompletion::Nothing;
    }
    match token.kind {
        TokenKind::Unquoted | TokenKind::Quoted(_) => match state {
            CompletionState::Positional(n) => ArgCompletion::Positional(
                completer.for_argument_number(*n),
            ),
            CompletionState::Flag => ArgCompletion::Flags {
                pattern: strip_dashes(&token.content),
                offset: at,
            },
            CompletionState::FlagArgument(k) => ArgCompletion::FlagValues { flag: *k, offset: at },
        },
        TokenKind::Expand => expand_plan(state, completer, at),
        TokenKind::Expansion(kind) => match kind {
            ExpansionKind::Shell => expand_plan(state, completer, at),
            ExpansionKind::Variable => ArgCompletion::Variable { offset: at },
            ExpansionKind::Register => ArgCompletion::Register { offset: at },
            ExpansionKind::Unicode | ExpansionKind::Arg => ArgCompletion::Nothing,
        },
        TokenKind::ExpansionKind => ArgCompletion::Kind { offset: at },
    }
}

fn expand_plan(state: &CompletionState, completer: &CommandCompleter, at: usize) -> (plan: ArgCompletion)
    ensures
        plan matches ArgCompletion::Expand { completer: c, offset: o } && o == at && c == (
        match state {
            CompletionState::Positional(n) => Some(completer.for_argument(*n as int)),
            _ => None,
        }),
{
    let c = match state {
        CompletionState::Positional(n) => Some(completer.for_argument_number(*n)),
        _ => None,
    };
    ArgCompletion::Expand { completer: c, offset: at }
}

/// A text in which a character is written twice.
pub open spec fn doubled(s: Seq<char>, c: char) -> Seq<char>
    decreases s.len(),
{
    if s.len() == 0 {
        Seq::empty()
    } else if s.last() == c {
        doubled(s.drop_last(), c).push(c).push(c)
    } else {
        doubled(s.drop_last(), c).push(s.last())
    }
}

/// Writes a character twice wherever it stands.
pub fn double(s: &Vec<char>, c: char) -> (out: Vec<char>)
    ensures
        out@ == doubled(s@, c),
{
    let mut out: Vec<char> = Vec::new();
    let mut i: usize = 0;
    assert(s@.take(0) =~= Seq::<char>::empty());
    while i < s.len()
        invariant
            i <= s@.len(),
            out@ == doubled(s@.take(i as int), c),
        decreases s.len() - i,
    {
        assert(s@.take(i + 1).drop_last() =~= s@.take(i as int));
        if s[i] == c {
            out.push(c);
        }
        out.push(s[i]);
        i += 1;
    }
    assert(s@.take(i as int) =~= s@);
    out
}

/// A text that has to be quoted: it holds a space, a tab or a percent sign.
pub open spec fn needs_quotes(s: Seq<char>) -> bool {
    s.contains(' ') || s.contains('\t') || s.contains('%')
}

fn holds_special(s: &Vec<char>) -> (b: bool)
    ensures
        b == needs_quotes(s@),
{
    let mut i: usize = 0;
    while i < s.len()
        invariant
            i <= s@.len(),
            forall|j: int| 0 <= j < i ==> s@[j] != ' ' && s@[j] != '\t' && s@[j] != '%',
        decreases s.len() - i,
    {
        if s[i] == ' ' || s[i] == '\t' || s[i] == '%' {
            assert(s@.contains(s@[i as int]));
            return true;
        }
        i += 1;
    }
    false
}

/// The text of a completion, with the style that it is shown in.
pub struct CompletionSpan<S> {
    pub content: Vec<char>,
    pub style: S,
}

/// A completion that takes its place in the line: where it begins, in bytes, and its text. `start`
/// is the byte of the token's text at which the completion begins.
pub open spec fn quoted_completion(
    kind: TokenKind,
    content_start: int,
    content: Seq<char>,
    start: int,
    text: Seq<char>,
    offset: int,
) -> (int, Seq<char>) {
    match kind {
        TokenKind::Unquoted if needs_quotes(text) => (
            offset + content_start,
            seq!['\''] + doubled(content.take(char_of(content, start)), '\'') + doubled(text, '\'')
                + seq!['\''],
        ),
        TokenKind::Quoted(quote) => (start + offset + content_start, doubled(text, quote.sign())),
        TokenKind::Expand => (start + offset, doubled(text, '"')),
        _ => (start + offset + content_start, text),
    }
}

/// Puts a completion into the line, quoted as the token is. In a token without quotes a completion
/// that needs them takes the place of the whole token, and is put in quotes together with the part
/// of the token before it. Where the token is quoted already, quotes in the completion are doubled.
pub fn quote_completion<S>(
    token: &Token,
    start: usize,
    span: CompletionSpan<S>,
    offset: usize,
) -> (placed: (usize, CompletionSpan<S>))
    requires
        token.kind == TokenKind::Unquoted && needs_quotes(span.content@) ==> on_character(
            token.content@,
            start as int,
        ),
        start + offset + token.content_start <= usize::MAX,
    ensures
        (placed.0 as int, placed.1.content@) == quoted_completion(
            token.kind,
            token.content_start as int,
            token.content@,
            start as int,
            span.content@,
            offset as int,
        ),
        placed.1.style == span.style,
{
    let (at, content) = match token.kind {
        TokenKind::Unquoted => {
            if holds_special(&span.content) {
                let k = match char_at_byte(&token.content, start) {
                    Some(k) => k,
                    None => 0,
                };
                proof {
                    let c = char_of(token.content@, start as int);
                    characters_begin_apart(token.content@, start as int, k as int, c);
                }
                let kept = part_of(&token.content, 0, k);
                assert(kept@ =~= token.content@.take(k as int));
                let mut out: Vec<char> = Vec::new();
                out.push('\'');
                append(&mut out, &double(&kept, '\''));
                append(&mut out, &double(&span.content, '\''));
                out.push('\'');
                assert(out@ =~= seq!['\''] + doubled(kept@, '\'') + doubled(span.content@, '\'')
                    + seq!['\'']);
                (offset + token.content_start, out)
            } else {
                (start + offset + token.content_start, copy_chars(&span.content))
            }
        },
        TokenKind::Quoted(quote) => (
            start + offset + token.content_start,
            double(&span.content, quote.char()),
        ),
        TokenKind::Expand => (start + offset, double(&span.content, '"')),
        _ => (start + offset + token.content_start, copy_chars(&span.content)),
    };
    (at, CompletionSpan { content, style: span.style })
}

/// A text as it is read between quotes: of two marks that follow each other one is read.
pub open spec fn undoubled(s: Seq<char>, c: char) -> Seq<char>
    decreases s.len(),
{
    if s.len() == 0 {
        Seq::empty()
    } else if s.len() >= 2 && s.last() == c && s[s.len() - 2] == c {
        undoubled(s.drop_last().drop_last(), c).push(c)
    } else {
        undoubled(s.drop_last(), c).push(s.last())
    }
}

/// Reading a quoted completion gives back the completion.
pub proof fn quoting_is_undone(s: Seq<char>, c: char)
    ensures
        undoubled(doubled(s, c), c) == s,
        doubled(s, c).len() > 0 && doubled(s, c).last() != c ==> s.len() > 0 && s.last() != c,
    decreases s.len(),
{
    if s.len() > 0 {
        quoting_is_undone(s.drop_last(), c);
        let before = doubled(s.drop_last(), c);
        if s.last() == c {
            let d = before.push(c).push(c);
            assert(d.drop_last().drop_last() =~= before);
            assert(s =~= s.drop_last().push(c));
        } else {
            let d = before.push(s.last());
            assert(d.drop_last() =~= before);
            assert(s =~= s.drop_last().push(s.last()));
        }
    } else {
        assert(undoubled(doubled(s, c), c) =~= s);
    }
}

/// A token that begins with a percent sign: how many bytes it takes, and the token itself where
/// there is one. Its text begins `content_start` bytes behind the sign.
pub struct PercentToken {
    pub length: usize,
    pub token: Option<(TokenKind, usize, bool)>,
}

/// How a text between double quotes is completed: in the last expansion that is still open.
pub enum ExpandPlan {
    Nothing,
    /// The name of a variable. The token begins at byte `at` of the text.
    Variable { at: usize, offset: usize },
    /// A shell command, which holds expansions of its own.
    Shell { at: usize, offset: usize },
    /// The name of a kind of expansion.
    Kind { at: usize, offset: usize },
    /// There is no expansion: in the way of the command.
    Argument,
}

/// The first percent sign from byte `from` on.
pub open spec fn next_percent(content: Seq<u8>, from: int) -> Option<int>
    decreases content.len() - from,
{
    if from < 0 || from >= content.len() {
        None
    } else if content[from] == 0x25 {
        Some(from)
    } else {
        next_percent(content, from + 1)
    }
}

fn find_percent(content: &Vec<u8>, from: usize) -> (found: Option<usize>)
    ensures
        (match found {
            Some(k) => Some(k as int),
            None => None,
        }) == next_percent(content@, from as int),
        found matches Some(k) ==> from <= k < content@.len(),
{
    let mut i: usize = from;
    while i < content.len()
        invariant
            from <= i,
            next_percent(content@, from as int) == next_percent(content@, i as int),
        decreases content.len() - i,
    {
        if content[i] == 0x25 {
            return Some(i);
        }
        i += 1;
    }
    None
}

/// The names of kinds of expansions that are offered: all but the first, which is that of
/// variables and is empty.
pub fn complete_expansion_kind(names: &Vec<String>) -> (offered: Vec<String>)
    ensures
        names@.len() == 0 ==> offered@.len() == 0,
        names@.len() > 0 ==> string_views(offered@) == string_views(names@).skip(1),
{
    let mut offered: Vec<String> = Vec::new();
    let mut i: usize = 1;
    while i < names.len()
        invariant
            1 <= i,
            i <= names@.len() || names@.len() == 0,
            names@.len() == 0 ==> offered@.len() == 0,
            names@.len() > 0 ==> string_views(offered@) =~= string_views(names@).subrange(
                1,
                i as int,
            ),
        decreases names.len() - i,
    {
        offered.push(names[i].clone());
        i += 1;
    }
    offered
}

/// How a text is completed from byte `start` on. `tokens` holds the token at each byte where a
/// percent sign stands. Two signs that follow each other stand for one, and closed expansions are
/// passed over.
pub open spec fn expand_from(
    content: Seq<u8>,
    tokens: Seq<PercentToken>,
    has_completer: bool,
    offset: usize,
    start: nat,
) -> ExpandPlan
    decreases
            (if content.len() >= start {
                content.len() - start
            } else {
                0
            }),
{
    proof {
        lemma_next_percent(content, start as int);
    }
    match next_percent(content, start as int) {
        None => if has_completer && start == 0 {
            ExpandPlan::Argument
        } else {
            ExpandPlan::Nothing
        },
        Some(k) => if k + 1 < content.len() && content[k + 1] == 0x25 {
            expand_from(content, tokens, has_completer, offset, (k + 2) as nat)
        } else {
            let t = tokens[k];
            match t.token {
                Some((TokenKind::Expansion(ExpansionKind::Variable), begin, false)) =>
                    ExpandPlan::Variable { at: k as usize, offset: (offset + k + begin) as usize },
                Some((TokenKind::Expansion(ExpansionKind::Shell), begin, false)) =>
                    ExpandPlan::Shell { at: k as usize, offset: (offset + k + begin) as usize },
                Some((TokenKind::ExpansionKind, begin, false)) => ExpandPlan::Kind {
                    at: k as usize,
                    offset: (offset + k + begin) as usize,
                },
                _ => if t.length > 0 {
                    expand_from(content, tokens, has_completer, offset, (k + t.length) as nat)
                } else {
                    ExpandPlan::Nothing
                },
            }
        },
    }
}

/// A percent sign that is found stands in the text, from `from` on.
pub proof fn lemma_next_percent(content: Seq<u8>, from: int)
    ensures
        next_percent(content, from) matches Some(k) ==> from <= k < content.len() && 0 <= k,
    decreases content.len() - from,
{
    if 0 <= from < content.len() && content[from] != 0x25 {
        lemma_next_percent(content, from + 1);
    }
}

/// How a text between double quotes is completed.
pub fn complete_expand(content: &Vec<u8>, tokens: &Vec<PercentToken>, has_completer: bool, offset: usize) -> (
plan: ExpandPlan)
    requires
        tokens@.len() == content@.len(),
        forall|k: int|
            0 <= k < tokens@.len() ==> 0 < (#[trigger] tokens@[k]).length && k + tokens@[k].length
                <= usize::MAX && (tokens@[k].token matches Some((kind, begin, closed)) ==> offset + k
                + begin <= usize::MAX),
        content@.len() < usize::MAX,
    ensures
        plan == expand_from(content@, tokens@, has_completer, offset, 0),
{
    let mut start: usize = 0;
    loop
        invariant
            tokens@.len() == content@.len(),
            forall|k: int|
                0 <= k < tokens@.len() ==> 0 < (#[trigger] tokens@[k]).length && k
                    + tokens@[k].length <= usize::MAX && (tokens@[k].token matches Some(
                    (kind, begin, closed),
                ) ==> offset + k + begin <= usize::MAX),
            content@.len() < usize::MAX,
            expand_from(content@, tokens@, has_completer, offset, 0) == expand_from(
                content@,
                tokens@,
                has_completer,
                offset,
                start as nat,
            ),
        decreases
                (if content@.len() >= start {
                    content@.len() - start
                } else {
                    0
                }),
    {
        match find_percent(content, start) {
            None => {
                return if has_completer && start == 0 {
                    ExpandPlan::Argument
                } else {
                    ExpandPlan::Nothing
                };
            },
            Some(k) => {
                if k + 1 < content.len() && content[k + 1] == 0x25 {
                    start = k + 2;
                } else {
                    assert(0 < tokens@[k as int].length);
                    match tokens[k].token {
                        Some((kind, begin, closed)) => {
                            if !closed {
                                match kind {
                                    TokenKind::Expansion(e) => match e {
                                        ExpansionKind::Variable => {
                                            return ExpandPlan::Variable {
                                                at: k,
                                                offset: offset + k + begin,
                                            };
                                        },
                                        ExpansionKind::Shell => {
                                            return ExpandPlan::Shell {
                                                at: k,
                                                offset: offset + k + begin,
                                            };
                                        },
                                        _ => {},
                                    },
                                    TokenKind::ExpansionKind => {
                                        return ExpandPlan::Kind {
                                            at: k,
                                            offset: offset + k + begin,
                                        };
                                    },
                                    _ => {},
                                }
                            }
                        },
                        None => {},
                    }
                    start = k + tokens[k].length;
                }
            },
        }
    }
}

/// While a name is typed it is the name that is completed; behind a separator it is the arguments.
pub proof fn names_are_completed_until_they_end(name: Seq<char>, args: Seq<char>, c: char)
    requires
        name.len() > 0,
        forall|k: int| 0 <= k < name.len() ==> !separates(#[trigger] name[k]),
        separates(c),
    ensures
        completes_name(name),
        !completes_name(name.push(c)),
        command_part(name.push(c) + args) == name,
        args_part(name.push(c) + args) == args,
{
    lemma_name_ends(name, Seq::empty());
    assert(name + Seq::<char>::empty() =~= name);
    assert(args_part(name).len() == 0);
    lemma_name_ends(name, seq![c]);
    assert(name + seq![c] =~= name.push(c));
    assert(name.push(c).take(name.len() as int) =~= name);
    lemma_name_ends(name, seq![c] + args);
    let line = name.push(c) + args;
    assert(line =~= name + (seq![c] + args));
    assert(line.take(name.len() as int) =~= name);
    assert(line.skip(name.len() + 1 as int) =~= args);
}

proof fn lemma_name_ends(name: Seq<char>, rest: Seq<char>)
    requires
        forall|k: int| 0 <= k < name.len() ==> !separates(#[trigger] name[k]),
        rest.len() == 0 || separates(rest[0]),
    ensures
        name_end(name + rest) == name.len(),
    decreases name.len(),
{
    let line = name + rest;
    if name.len() > 0 {
        assert(!separates(name[0]));
        assert(line[0] == name[0]);
        let less = name.skip(1);
        assert forall|k: int| 0 <= k < less.len() implies !separates(#[trigger] less[k]) by {
            assert(less[k] == name[k + 1]);
        }
        assert(line.skip(1) =~= less + rest);
        lemma_name_ends(less, rest);
    } else {
        assert(line =~= rest);
    }
}

/// Only dashes are taken from the beginning, and all of them.
pub proof fn all_leading_dashes_are_dropped(s: Seq<char>)
    ensures
        ({
            let rest = without_dashes(s);
            &&& rest.len() <= s.len()
            &&& s.skip(s.len() - rest.len()) == rest
            &&& forall|k: int| 0 <= k < s.len() - rest.len() ==> s[k] == '-'
            &&& rest.len() > 0 ==> rest[0] != '-'
        }),
    decreases s.len(),
{
    if s.len() > 0 && s[0] == '-' {
        let less = s.skip(1);
        all_leading_dashes_are_dropped(less);
        let rest = without_dashes(s);
        assert(s.skip(s.len() - rest.len()) =~= less.skip(less.len() - rest.len()));
        assert forall|k: int| 0 <= k < s.len() - rest.len() implies s[k] == '-' by {
            if k > 0 {
                assert(less[k - 1] == s[k]);
            }
        }
    } else {
        assert(s.skip(0) =~= s);
    }
}

/// A command that is written as a number goes to a line, as long as the number fits.
pub proof fn numbers_name_lines(n: nat)
    ensures
        is_line_number(crate::strings::decimal(n)) <==> n <= usize::MAX,
{
    crate::strings::reading_undoes_writing(n);
}

/// The descriptions of flags stand under each other: before each the line is as wide as the widest
/// flag asks for.
pub proof fn descriptions_stand_under_each_other(flags: Seq<FlagView>, i: int, width: int)
    requires
        0 <= i < flags.len(),
        width == widest(flags),
    ensures
        bytes(flag_text(flags[i])) <= width,
        exists|k: int| 0 <= k < flags.len() && bytes(flag_text(#[trigger] flags[k])) == width,
        exists|head: Seq<char>|
            #[trigger] flags_help(flags.take(i + 1), width) == flags_help(flags.take(i), width) + head
                + flags[i].doc && bytes(head) == width + bytes("\n  `--"@) + bytes("`"@) + bytes(
                "  "@,
            ),
{
    lemma_widest(flags, i);
    lemma_some_widest(flags);
    let f = flags[i];
    let shown = flag_text(f);
    let gap = repeated(seq![' '], (width - bytes(shown)) as nat);
    let head = "\n  `--"@ + shown + "`"@ + gap + "  "@;
    assert(flags.take(i + 1).drop_last() =~= flags.take(i));
    assert(flags.take(i + 1).last() == f);
    assert(flags_help(flags.take(i + 1), width) =~= flags_help(flags.take(i), width) + head + f.doc);
    crate::commands::insert::bytes_add_up("\n  `--"@, shown, ' ');
    crate::commands::insert::bytes_add_up("\n  `--"@ + shown, "`"@, ' ');
    crate::commands::insert::bytes_add_up("\n  `--"@ + shown + "`"@, gap, ' ');
    crate::commands::insert::bytes_add_up("\n  `--"@ + shown + "`"@ + gap, "  "@, ' ');
    lemma_gap_bytes((width - bytes(shown)) as nat);
}

proof fn lemma_gap_bytes(n: nat)
    ensures
        bytes(repeated(seq![' '], n)) == n,
    decreases n,
{
    if n > 0 {
        lemma_gap_bytes((n - 1) as nat);
        let before = repeated(seq![' '], (n - 1) as nat);
        assert(repeated(seq![' '], n) =~= before.push(' '));
        assert(before.push(' ').drop_last() =~= before);
    }
}

proof fn lemma_widest(flags: Seq<FlagView>, i: int)
    requires
        0 <= i < flags.len(),
    ensures
        bytes(flag_text(flags[i])) <= widest(flags),
    decreases flags.len(),
{
    if i < flags.len() - 1 {
        lemma_widest(flags.drop_last(), i);
    }
}

proof fn lemma_some_widest(flags: Seq<FlagView>)
    requires
        flags.len() > 0,
    ensures
        exists|k: int|
            0 <= k < flags.len() && bytes(flag_text(#[trigger] flags[k])) == widest(flags),
    decreases flags.len(),
{
    let rest = flags.drop_last();
    let last = flags.len() - 1;
    lemma_bytes(flag_text(flags[last]));
    reveal_with_fuel(widest, 2);
    if rest.len() > 0 {
        lemma_some_widest(rest);
        let k = choose|k: int|
            0 <= k < rest.len() && bytes(flag_text(#[trigger] rest[k])) == widest(rest);
        assert(rest[k] == flags[k]);
    }
    assert(flags[last] == flags.last());
    if widest(flags) == bytes(flag_text(flags.last())) {
        assert(bytes(flag_text(flags[last])) == widest(flags));
    }
}

/// The steps of a custom command run in the order they are configured in. When the command is
/// entered none is passed over, up to the first that names no command: with that they end.
pub proof fn steps_run_in_order(
    configured: Seq<Seq<char>>,
    commands: Seq<TypableCommand>,
    event: PromptEvent,
    n: nat,
)
    requires
        n <= configured.len(),
    ensures
        ({
            let (places, ended) = step_places(configured, commands, event, n);
            &&& forall|k: int| 0 <= k < places.len() ==> 0 <= #[trigger] places[k] < n
            &&& forall|j: int, k: int| 0 <= j < k < places.len() ==> places[j] < places[k]
            &&& event == PromptEvent::Validate ==> forall|k: int|
                0 <= k < places.len() ==> #[trigger] places[k] == k
            &&& event == PromptEvent::Validate && !ended ==> places.len() == n
            &&& event != PromptEvent::Validate ==> forall|k: int|
                0 <= k < places.len() ==> configured[#[trigger] places[k]].len() > 0
                    && configured[places[k]][0] == ':'
        }),
    decreases n,
{
    if n > 0 {
        let m = (n - 1) as nat;
        steps_run_in_order(configured, commands, event, m);
        let (before, stopped) = step_places(configured, commands, event, m);
        let (places, ended) = step_places(configured, commands, event, n);
        if stopped || passed_over(configured[m as int], event) {
            assert(places == before && ended == stopped);
        } else {
            assert(places == before.push(m as int));
            assert forall|k: int| 0 <= k < places.len() implies 0 <= #[trigger] places[k] < n by {
                if k < before.len() {
                    assert(places[k] == before[k]);
                }
            }
            if event == PromptEvent::Validate {
                assert forall|k: int| 0 <= k < places.len() implies #[trigger] places[k] == k by {
                    if k < before.len() {
                        assert(places[k] == before[k]);
                    }
                }
            } else {
                assert forall|k: int| 0 <= k < places.len() implies configured[
                    #[trigger] places[k]
                ].len() > 0 && configured[places[k]][0] == ':' by {
                    if k < before.len() {
                        assert(places[k] == before[k]);
                    }
                }
            }
        }
    }
}

/// What is completed without quotes is put between quotes where it needs them, so that it is read
/// as it is meant: what was typed before, and then the completion.
pub proof fn completions_are_read_as_they_are_meant(
    content_start: int,
    content: Seq<char>,
    start: int,
    text: Seq<char>,
    offset: int,
)
    ensures
        ({
            let (at, put) = quoted_completion(
                TokenKind::Unquoted,
                content_start,
                content,
                start,
                text,
                offset,
            );
            if text.contains(' ') || text.contains('\t') || text.contains('%') {
                &&& at == offset + content_start
                &&& put[0] == '\'' && put.last() == '\''
                &&& undoubled(put.subrange(1, put.len() - 1), '\'') == content.take(
                    char_of(content, start),
                ) + text
            } else {
                put == text && at == offset + content_start + start
            }
        }),
        forall|q: Quote|
            undoubled(
                (#[trigger] quoted_completion(
                    TokenKind::Quoted(q),
                    content_start,
                    content,
                    start,
                    text,
                    offset,
                )).1,
                q.sign(),
            ) == text,
{
    let typed = content.take(char_of(content, start));
    lemma_doubled_add(typed, text, '\'');
    quoting_is_undone(typed + text, '\'');
    if needs_quotes(text) {
        let put = seq!['\''] + doubled(typed, '\'') + doubled(text, '\'') + seq!['\''];
        assert(put.subrange(1, put.len() - 1) =~= doubled(typed + text, '\''));
    }
    quoting_is_undone(text, Quote::Single.sign());
    quoting_is_undone(text, Quote::Backtick.sign());
    assert forall|q: Quote|
        undoubled(
            (#[trigger] quoted_completion(
                TokenKind::Quoted(q),
                content_start,
                content,
                start,
                text,
                offset,
            )).1,
            q.sign(),
        ) == text by {
        quoting_is_undone(text, q.sign());
    }
}

proof fn lemma_doubled_add(a: Seq<char>, b: Seq<char>, c: char)
    ensures
        doubled(a + b, c) == doubled(a, c) + doubled(b, c),
    decreases b.len(),
{
    if b.len() > 0 {
        lemma_doubled_add(a, b.drop_last(), c);
        assert((a + b).drop_last() =~= a + b.drop_last());
        assert((a + b).last() == b.last());
        assert(doubled(a + b, c) =~= doubled(a, c) + doubled(b, c));
    } else {
        assert(a + b =~= a);
        assert(doubled(a + b, c) =~= doubled(a, c) + doubled(b, c));
    }
}

/// The percent sign that is found is the first one from the byte on.
pub proof fn the_first_percent_sign_is_found(content: Seq<u8>, from: int)
    requires
        0 <= from,
    ensures
        match next_percent(content, from) {
            Some(k) => from <= k < content.len() && content[k] as int == '%' as int && forall|j: int|
                from <= j < k ==> content[j] as int != '%' as int,
            None => forall|j: int| from <= j < content.len() ==> content[j] as int != '%' as int,
        },
    decreases content.len() - from,
{
    if from < content.len() && content[from] != 0x25 {
        the_first_percent_sign_is_found(content, from + 1);
    }
}

/// A text without percent signs is completed as an argument where there is a completer, and two
/// percent signs that follow each other stand for themselves and begin no expansion.
pub proof fn doubled_percent_signs_begin_no_expansion(
    content: Seq<u8>,
    tokens: Seq<PercentToken>,
    has_completer: bool,
    offset: usize,
)
    ensures
        !content.contains(0x25) ==> expand_from(content, tokens, has_completer, offset, 0) == (
        if has_completer {
            ExpandPlan::Argument
        } else {
            ExpandPlan::Nothing
        }),
        content.len() >= 2 && content[0] == 0x25 && content[1] == 0x25 && !content.skip(2).contains(
            0x25,
        ) ==> expand_from(content, tokens, has_completer, offset, 0) is Nothing,
{
    the_first_percent_sign_is_found(content, 0);
    the_first_percent_sign_is_found(content, 2);
    reveal_with_fuel(expand_from, 3);
    if content.len() >= 2 && content[0] == 0x25 && content[1] == 0x25 && !content.skip(2).contains(
        0x25,
    ) {
        if let Some(k) = next_percent(content, 2) {
            assert(content.skip(2)[k - 2] == 0x25);
        }
        assert(next_percent(content, 0) == Some(0int));
    }
    if !content.contains(0x25) {
        if let Some(k) = next_percent(content, 0) {
            assert(content[k] == 0x25);
        }
    }
}

} // verus!
