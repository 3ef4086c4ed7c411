use mitos::commands::catalog::{
    find_command, shell_completer, shell_signature, CommandCompleter, Completer, TypableCommand,
};
use mitos::commands::command_line::{
    command_error, command_line_doc, command_line_doc_with_custom, complete_command_args,
    complete_command_line, complete_expand, complete_expansion_kind, completed_token, double,
    execute_command_line, quote_completion, split, ArgCompletion, CommandPlan, CompletionSpan,
    CompletionState, CustomStep, ExpandPlan, ExpansionKind, LineCompletion, PercentToken, Quote,
    Token, TokenKind,
};
use mitos::commands::search::PromptEvent;
use mitos::commands::table::typable_command_list;
use mitos::custom_commands::{CustomCommand, CustomCommands};

fn chars(s: &str) -> Vec<char> {
    s.chars().collect()
}

fn custom(name: &str, commands: &[&str], completer: Option<&str>, hidden: bool) -> CustomCommand {
    CustomCommand {
        name: name.to_string(),
        description: None,
        commands: commands.iter().map(|c| c.to_string()).collect(),
        accepts: None,
        completer: completer.map(|c| c.to_string()),
        hidden,
    }
}

fn none() -> CustomCommands {
    CustomCommands { commands: Vec::new() }
}

fn token(kind: TokenKind, content_start: usize, content: &str, is_terminated: bool) -> Token {
    Token { kind, content_start, content: chars(content), is_terminated }
}

#[test]
fn formats_command_metadata_as_markdown() {
    let commands = typable_command_list();
    let exit_doc = command_line_doc("exit", &commands).unwrap();
    assert!(exit_doc.contains("(`:exit some/path.txt`)"));
    assert!(exit_doc.contains("Aliases: `:x`, `:xit`"));
    assert!(exit_doc.contains("\n  `--no-format`"));

    let sort_doc = command_line_doc("sort", &commands).unwrap();
    assert!(sort_doc.contains("\n  `--insensitive/-i`"));
    assert!(sort_doc.contains("\n  `--reverse/-r`"));
}

#[test]
fn formats_custom_command_docs_as_markdown() {
    let commands = CustomCommands {
        commands: vec![CustomCommand {
            name: "save-and-close".into(),
            description: Some("Save *and* close the buffer".into()),
            commands: vec![":write".into(), ":buffer-close".into()],
            accepts: Some("<path>".into()),
            completer: None,
            hidden: false,
        }],
    };
    let doc =
        command_line_doc_with_custom("save-and-close", &commands, &typable_command_list()).unwrap();
    assert!(doc.starts_with("`:save-and-close` `<path>` — Save *and* close"));
    assert!(doc.contains("Maps to: `:write` → `:buffer-close`"));
}

#[test]
fn flags_are_lined_up() {
    let command = TypableCommand::plain("c", "Does it.", 0, None)
        .alias("cc")
        .flag("no", None, "not")
        .flag("insensitive", Some('i'), "both cases");
    let doc = command_line_doc("cc", &vec![command]).unwrap();
    assert_eq!(
        doc,
        "Does it.\nAliases: `:cc`\nFlags:\n  `--no`              not\n  `--insensitive/-i`  both cases"
    );
}

#[test]
fn hidden_custom_commands_have_no_help() {
    let commands = CustomCommands { commands: vec![custom("exit", &[":write"], None, true)] };
    let list = typable_command_list();
    assert!(command_line_doc_with_custom("exit", &commands, &list).is_none());
    assert!(command_line_doc_with_custom("^exit", &commands, &list)
        .unwrap()
        .contains("Aliases: `:x`, `:xit`"));
    assert!(command_line_doc_with_custom("no-such", &commands, &list).is_none());
}

#[test]
fn lines_are_split_at_the_first_separator() {
    let parts = split("open a b");
    assert_eq!(parts.command, "open");
    assert_eq!(parts.args, "a b");
    assert!(!parts.complete_command);
    let parts = split("open\tx");
    assert_eq!((parts.command.as_str(), parts.args.as_str()), ("open", "x"));
    assert!(split("op").complete_command);
    assert!(split("").complete_command);
    assert!(!split("open ").complete_command);
    assert!(split(" open").complete_command);
}

#[test]
fn lines_are_planned() {
    let list = typable_command_list();
    let validate = PromptEvent::Validate;
    assert!(matches!(
        execute_command_line("", validate, &none(), &list),
        CommandPlan::Nothing
    ));
    match execute_command_line("12 ", validate, &none(), &list) {
        CommandPlan::Goto(line) => assert_eq!(line, "12"),
        _ => panic!("a number goes to its line"),
    }
    match execute_command_line("x a.rs", validate, &none(), &list) {
        CommandPlan::Run(k, args) => {
            assert_eq!(list[k].name, "exit");
            assert_eq!(args, "a.rs");
        }
        _ => panic!("aliases are found"),
    }
    match execute_command_line("frobnicate", validate, &none(), &list) {
        CommandPlan::Unknown(m) => assert_eq!(m, "no such command: 'frobnicate'"),
        _ => panic!("unknown commands are errors"),
    }
    assert!(matches!(
        execute_command_line("frobnicate", PromptEvent::Update, &none(), &list),
        CommandPlan::Nothing
    ));
}

#[test]
fn custom_commands_run_step_by_step() {
    let list = typable_command_list();
    let commands = CustomCommands {
        commands: vec![custom(
            "write",
            &[":write! %arg{0}", "goto_file_start", ":nonsense x", ":quit"],
            None,
            false,
        )],
    };
    match execute_command_line("write a", PromptEvent::Validate, &commands, &list) {
        CommandPlan::Custom(steps, given) => {
            assert_eq!(given, "a");
            assert_eq!(steps.len(), 3);
            match &steps[0] {
                CustomStep::Typable(k, args) => {
                    assert_eq!(list[*k].name, "write!");
                    assert_eq!(args, "%arg{0}");
                }
                _ => panic!("a typable command comes first"),
            }
            assert!(matches!(&steps[1], CustomStep::Mappable(name) if name == "goto_file_start"));
            assert!(
                matches!(&steps[2], CustomStep::Unknown(m) if m == "no such command: 'nonsense'")
            );
        }
        _ => panic!("the custom command comes first"),
    }
    match execute_command_line("write a", PromptEvent::Update, &commands, &list) {
        CommandPlan::Custom(steps, _) => assert_eq!(steps.len(), 2),
        _ => panic!("the custom command comes first"),
    }
    match execute_command_line("^write a", PromptEvent::Validate, &commands, &list) {
        CommandPlan::Run(k, _) => assert_eq!(list[k].name, "write"),
        _ => panic!("a caret asks for the command itself"),
    }
}

#[test]
fn errors_name_their_command() {
    assert_eq!(command_error("open", "no such file"), "'open': no such file");
}

#[test]
fn names_are_completed() {
    let list = vec![
        TypableCommand::plain("exit", "", 0, None),
        TypableCommand::plain("open", "", 0, None),
    ];
    let commands = CustomCommands {
        commands: vec![
            custom("save", &[":write"], None, false),
            custom("secret", &[":write"], None, true),
        ],
    };
    match complete_command_line("e", &commands, &list) {
        LineCompletion::Name { pattern, candidates, prefix } => {
            assert_eq!(pattern, "e");
            assert_eq!(candidates, ["save", "exit", "open"]);
            assert_eq!(prefix, "");
        }
        _ => panic!("names are offered"),
    }
    match complete_command_line("^e", &commands, &list) {
        LineCompletion::Name { pattern, candidates, prefix } => {
            assert_eq!(pattern, "e");
            assert_eq!(candidates, ["exit", "open"]);
            assert_eq!(prefix, "^");
        }
        _ => panic!("names are offered"),
    }
}

#[test]
fn arguments_are_completed_in_the_way_of_their_command() {
    let list = vec![
        TypableCommand::plain("exit", "", 0, None),
        TypableCommand::plain("open", "", 0, None),
    ];
    let commands = CustomCommands { commands: vec![custom("ö", &[":x"], Some("open"), false)] };
    match complete_command_line("^exit a b", &commands, &list) {
        LineCompletion::Args { command, args, offset } => {
            assert_eq!((command, args.as_str(), offset), (0, "a b", 6));
        }
        _ => panic!("arguments are completed"),
    }
    match complete_command_line("ö a", &commands, &list) {
        LineCompletion::Args { command, args, offset } => {
            assert_eq!((command, args.as_str(), offset), (1, "a", 3));
        }
        _ => panic!("the completer of the custom command is used"),
    }
    assert!(matches!(
        complete_command_line("nothing a", &commands, &list),
        LineCompletion::Nothing
    ));
}

#[test]
fn an_empty_token_is_completed_between_tokens() {
    let (last, made) = completed_token(
        vec![token(TokenKind::Unquoted, 0, "a", false)],
        &vec![1],
        1,
    );
    assert!(!made);
    assert_eq!(last.content, ['a']);
    let (last, made) = completed_token(
        vec![token(TokenKind::Unquoted, 0, "a", false)],
        &vec![1],
        2,
    );
    assert!(made);
    assert_eq!(last.content_start, 2);
    assert!(last.content.is_empty());
}

#[test]
fn arguments_are_completed_by_their_token() {
    let completer = CommandCompleter::positional(vec![Completer::Filename, Completer::Theme]);
    let plan = |kind, terminated, state| {
        complete_command_args(&token(kind, 3, "--ab", terminated), &state, &completer, 10)
    };
    assert!(matches!(
        plan(TokenKind::Unquoted, false, CompletionState::Positional(1)),
        ArgCompletion::Positional(Completer::Theme)
    ));
    assert!(matches!(
        plan(TokenKind::Unquoted, false, CompletionState::Positional(5)),
        ArgCompletion::Positional(Completer::Nothing)
    ));
    assert!(matches!(
        plan(TokenKind::Quoted(Quote::Single), true, CompletionState::Positional(0)),
        ArgCompletion::Nothing
    ));
    match plan(TokenKind::Unquoted, false, CompletionState::Flag) {
        ArgCompletion::Flags { pattern, offset } => {
            assert_eq!(pattern, ['a', 'b']);
            assert_eq!(offset, 13);
        }
        _ => panic!("flags are offered"),
    }
    assert!(matches!(
        plan(TokenKind::Unquoted, false, CompletionState::FlagArgument(2)),
        ArgCompletion::FlagValues { flag: 2, offset: 13 }
    ));
    assert!(matches!(
        plan(TokenKind::Expand, false, CompletionState::Positional(0)),
        ArgCompletion::Expand { completer: Some(Completer::Filename), offset: 13 }
    ));
    assert!(matches!(
        plan(TokenKind::Expansion(ExpansionKind::Shell), false, CompletionState::Flag),
        ArgCompletion::Expand { completer: None, offset: 13 }
    ));
    assert!(matches!(
        plan(TokenKind::Expansion(ExpansionKind::Variable), false, CompletionState::Flag),
        ArgCompletion::Variable { offset: 13 }
    ));
    assert!(matches!(
        plan(TokenKind::Expansion(ExpansionKind::Register), false, CompletionState::Flag),
        ArgCompletion::Register { offset: 13 }
    ));
    assert!(matches!(
        plan(TokenKind::Expansion(ExpansionKind::Unicode), false, CompletionState::Flag),
        ArgCompletion::Nothing
    ));
    assert!(matches!(
        plan(TokenKind::ExpansionKind, false, CompletionState::Flag),
        ArgCompletion::Kind { offset: 13 }
    ));
}

fn quoted(token: &Token, start: usize, text: &str) -> (usize, Vec<char>) {
    let span = CompletionSpan { content: chars(text), style: 7u8 };
    let (at, placed) = quote_completion(token, start, span, 10);
    assert_eq!(placed.style, 7);
    (at, placed.content)
}

#[test]
fn completions_are_quoted() {
    let plain = token(TokenKind::Unquoted, 2, "it's/", false);
    let (at, text) = quoted(&plain, 5, "a b");
    assert_eq!((at, text), (12, chars("'it''s/a b'")));
    let (at, text) = quoted(&plain, 5, "ab");
    assert_eq!((at, text), (17, chars("ab")));
    let single = token(TokenKind::Quoted(Quote::Single), 2, "a", false);
    let (at, text) = quoted(&single, 1, "b'c d");
    assert_eq!((at, text), (13, chars("b''c d")));
    let back = token(TokenKind::Quoted(Quote::Backtick), 2, "a", false);
    let (_, text) = quoted(&back, 1, "b'`");
    assert_eq!(text, chars("b'``"));
    let expand = token(TokenKind::Expand, 2, "a", false);
    let (at, text) = quoted(&expand, 1, "b\"c");
    assert_eq!((at, text), (11, chars("b\"\"c")));
    assert_eq!(double(&chars("''"), '\''), chars("''''"));
    let wide = token(TokenKind::Unquoted, 0, "é", false);
    assert_eq!(quoted(&wide, 1, "it's"), (11, chars("it's")));
}

#[test]
fn aliases_give_the_same_help() {
    let commands = typable_command_list();
    for command in &commands {
        let help = command_line_doc(command.name, &commands).unwrap();
        assert!(help.starts_with(command.doc));
        for alias in &command.aliases {
            assert_eq!(command_line_doc(alias, &commands).unwrap(), help);
            assert_eq!(command_line_doc(&format!("^{alias} a b"), &commands).unwrap(), help);
        }
    }
    assert!(command_line_doc("no-such-command", &commands).is_none());
}

fn percents(content: &str, tokens: &[(usize, usize, Option<(TokenKind, usize, bool)>)]) -> Vec<PercentToken> {
    let mut table: Vec<PercentToken> =
        content.bytes().map(|_| PercentToken { length: 1, token: None }).collect();
    for (at, length, token) in tokens {
        table[*at] = PercentToken { length: *length, token: *token };
    }
    table
}

#[test]
fn the_open_expansion_is_completed() {
    let variable = TokenKind::Expansion(ExpansionKind::Variable);
    let content = "%{cursor_line}:%{cursor_col";
    let tokens = percents(
        content,
        &[(0, 14, Some((variable, 2, true))), (15, 12, Some((variable, 2, false)))],
    );
    assert!(matches!(
        complete_expand(&content.as_bytes().to_vec(), &tokens, true, 100),
        ExpandPlan::Variable { at: 15, offset: 117 }
    ));
    let content = "%%{";
    assert!(matches!(
        complete_expand(&content.as_bytes().to_vec(), &percents(content, &[]), true, 0),
        ExpandPlan::Nothing
    ));
    let content = "plain";
    assert!(matches!(
        complete_expand(&content.as_bytes().to_vec(), &percents(content, &[]), true, 0),
        ExpandPlan::Argument
    ));
    assert!(matches!(
        complete_expand(&content.as_bytes().to_vec(), &percents(content, &[]), false, 0),
        ExpandPlan::Nothing
    ));
    let content = "a%sh{";
    let shell = TokenKind::Expansion(ExpansionKind::Shell);
    assert!(matches!(
        complete_expand(
            &content.as_bytes().to_vec(),
            &percents(content, &[(1, 4, Some((shell, 4, false)))]),
            false,
            0
        ),
        ExpandPlan::Shell { at: 1, offset: 5 }
    ));
    let content = "%s";
    assert!(matches!(
        complete_expand(
            &content.as_bytes().to_vec(),
            &percents(content, &[(0, 2, Some((TokenKind::ExpansionKind, 1, false)))]),
            false,
            0
        ),
        ExpandPlan::Kind { at: 0, offset: 1 }
    ));
}

#[test]
fn the_kind_of_variables_is_not_offered() {
    let names: Vec<String> = ["", "u", "sh"].iter().map(|s| s.to_string()).collect();
    assert_eq!(complete_expansion_kind(&names), ["u", "sh"]);
    assert!(complete_expansion_kind(&Vec::new()).is_empty());
}

#[test]
fn commands_are_found_by_name_and_alias() {
    let list = typable_command_list();
    assert_eq!(list.len(), 101);
    for (k, command) in list.iter().enumerate() {
        assert_eq!(find_command(&list, command.name), Some(k));
        for alias in &command.aliases {
            assert_eq!(find_command(&list, alias), Some(k));
        }
    }
    assert_eq!(find_command(&list, "no-such-command"), None);
}

#[test]
fn shell_commands_take_the_rest_as_it_stands() {
    assert_eq!(shell_signature().positionals, (1, Some(2)));
    assert_eq!(shell_signature().raw_after, Some(1));
    assert!(shell_signature().flags.is_empty());
    assert_eq!(shell_completer().for_argument_number(0), Completer::Program);
    assert_eq!(shell_completer().for_argument_number(1), Completer::RepeatingFilenames);
    assert_eq!(shell_completer().for_argument_number(2), Completer::Nothing);
    assert_eq!(CommandCompleter::none().for_argument_number(0), Completer::Nothing);
    assert_eq!(
        CommandCompleter::all(Completer::Buffer).for_argument_number(7),
        Completer::Buffer
    );
}

#[test]
fn a_split_line_is_whole() {
    for line in ["open a b", "open\tx y", "open", "", " open", "set  a"] {
        let parts = split(line);
        assert!(!parts.command.contains([' ', '\t']));
        let separated = parts.command.len() < line.len();
        let separator = if separated { &line[parts.command.len()..parts.command.len() + 1] } else { "" };
        assert_eq!(format!("{}{}{}", parts.command, separator, parts.args), line);
    }
}
