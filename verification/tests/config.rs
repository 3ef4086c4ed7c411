use mitos::config::{
    is_terminal_key, partition_settings, pin_trust, Commands, Config, ConfigLoadError, ConfigRaw,
    EditorSource, KittyKeyboardProtocolConfig, Settings, TerminalConfig,
};
use mitos::custom_commands::{CommandSource, CustomCommand, CustomCommands};

type Raw = ConfigRaw<String, toml::Value, toml::Table>;
type Loaded = Config<String, toml::Value, toml::Table>;

fn text_of(value: &toml::Value) -> String {
    value.as_str().unwrap().to_string()
}

fn texts_of(value: &toml::Value) -> Vec<String> {
    value.as_array().unwrap().iter().map(text_of).collect()
}

fn source_of(value: &toml::Value) -> CommandSource {
    if value.is_str() {
        return CommandSource::One(text_of(value));
    }
    if value.is_array() {
        return CommandSource::Many(texts_of(value));
    }
    let table = value.as_table().unwrap();
    CommandSource::Described {
        commands: texts_of(&table["commands"]),
        description: table.get("desc").map(text_of),
        accepts: table.get("accepts").map(text_of),
        completer: table.get("completer").map(text_of),
    }
}

fn parse(config: &str) -> Result<Raw, ConfigLoadError> {
    let table: toml::Table = config.parse().unwrap();
    let commands = match table.get("commands") {
        None => None,
        Some(entries) => {
            let mut commands = Commands::new();
            for (name, value) in entries.as_table().unwrap() {
                match CustomCommand::from_source(source_of(value)) {
                    Ok(command) => commands.insert(name.clone(), command),
                    Err(message) => return Err(ConfigLoadError::BadConfig(message.to_string())),
                }
            }
            Some(commands)
        }
    };
    Ok(ConfigRaw {
        theme: table.get("theme").map(text_of),
        keys: table.get("keys").cloned(),
        editor: table.get("editor").map(|e| e.as_table().unwrap().clone()),
        commands,
    })
}

fn unread() -> Result<Raw, ConfigLoadError> {
    Err(ConfigLoadError::default())
}

fn load_test(config: &str) -> Result<Loaded, ConfigLoadError> {
    Config::load(parse(config), unread())
}

fn commands_of(config: Loaded) -> CustomCommands {
    config.commands.unwrap().into_custom_commands()
}

fn editor_of(config: Loaded) -> toml::Table {
    match config.editor {
        EditorSource::Default => toml::Table::new(),
        EditorSource::One(table) => table,
        EditorSource::Merged(mut global, local) => {
            for (key, value) in local {
                global.insert(key, value);
            }
            global
        }
    }
}

fn terminal_of(entries: &[(String, toml::Value)]) -> TerminalConfig {
    let mut terminal = TerminalConfig::default();
    for (key, value) in entries {
        match key.as_str() {
            "true-color" => terminal.true_color = value.as_bool().unwrap(),
            "undercurl" => terminal.undercurl = value.as_bool().unwrap(),
            _ => {
                terminal.kitty_keyboard_protocol = match value.as_str().unwrap() {
                    "auto" => KittyKeyboardProtocolConfig::Auto,
                    "disabled" => KittyKeyboardProtocolConfig::Disabled,
                    _ => KittyKeyboardProtocolConfig::Enabled,
                }
            }
        }
    }
    terminal
}

#[test]
fn deserializes_custom_commands() {
    let config = load_test(
        r#"
[commands]
":wq" = [":write", ":quit"]
":w" = ":write!"
"0" = ":goto 1"

[commands.":wcd!"]
commands = [":write! %arg{0}", ":cd %sh{ %arg{0} | path dirname }"]
desc = "Force save, then change directory"
accepts = "<path>"
completer = ":write"
"#,
    )
    .ok()
    .unwrap();
    let commands = commands_of(config);
    assert!(commands.get("wq").is_some());
    assert!(commands.get("0").unwrap().hidden);
    assert_eq!(
        commands.get("wcd!").unwrap().completer.as_deref(),
        Some("write")
    );
}

#[test]
fn local_custom_commands_override_global_commands() {
    let global = parse("[commands]\n':save' = ':write'");
    let local = parse("[commands]\n':save' = ':write!'\n':quit' = ':quit'");
    let commands = commands_of(Config::load(global, local).ok().unwrap());
    assert_eq!(commands.get("save").unwrap().commands, [":write!"]);
    assert!(commands.get("quit").is_some());
}

#[test]
fn rejects_macros_in_command_sequences() {
    let error = load_test("[commands]\n':fail' = { commands = ['@100xd', ':write'] }")
        .err()
        .unwrap();
    assert!(error
        .message()
        .contains("macro keybindings may not be used in command sequences"));
}

#[test]
fn terminal_settings_keep_editor_table_and_merge_precedence() {
    let (_, defaults) = partition_settings(
        editor_of(load_test("").ok().unwrap()).into_iter().collect(),
    );
    assert_eq!(terminal_of(&defaults), TerminalConfig::default());
    let global = "[editor]\ntrue-color = true\nundercurl = true\nkitty-keyboard-protocol = 'disabled'\nscrolloff = 7";
    let local = "[editor]\ntrue-color = false\nkitty-keyboard-protocol = 'enabled'\n[editor.auto-save.after-delay]\nenable = true\ntimeout = 2500";
    let config = Config::load(parse(global), parse(local)).ok().unwrap();
    let (shared, terminal) = partition_settings(editor_of(config).into_iter().collect());
    assert_eq!(
        terminal_of(&terminal),
        TerminalConfig {
            true_color: false,
            undercurl: true,
            kitty_keyboard_protocol: KittyKeyboardProtocolConfig::Enabled,
        }
    );
    let shared: toml::Table = shared.into_iter().collect();
    assert_eq!(shared["scrolloff"].as_integer(), Some(7));
    let delay = &shared["auto-save"]["after-delay"];
    assert_eq!(delay["enable"].as_bool(), Some(true));
    assert_eq!(delay["timeout"].as_integer(), Some(2500));
    assert!(shared.get("true-color").is_none());
    assert!(shared.get("undercurl").is_none());
    assert!(shared.get("kitty-keyboard-protocol").is_none());
}

#[test]
fn terminal_keys_are_the_three_of_the_terminal() {
    assert!(is_terminal_key("true-color"));
    assert!(is_terminal_key("undercurl"));
    assert!(is_terminal_key("kitty-keyboard-protocol"));
    assert!(!is_terminal_key("scrolloff"));
}

#[test]
fn parted_settings_keep_their_order() {
    let entries = vec![
        ("a".to_string(), 1),
        ("undercurl".to_string(), 2),
        ("b".to_string(), 3),
        ("true-color".to_string(), 4),
    ];
    let (shared, terminal) = partition_settings(entries);
    assert_eq!(
        terminal,
        vec![("undercurl".to_string(), 2), ("true-color".to_string(), 4)]
    );
    assert_eq!(shared, vec![("a".to_string(), 1), ("b".to_string(), 3)]);
}

#[test]
fn a_file_that_makes_no_sense_is_an_error() {
    let bad = || Err::<Raw, _>(ConfigLoadError::BadConfig("bad".to_string()));
    let worse = || Err::<Raw, _>(ConfigLoadError::BadConfig("worse".to_string()));
    assert_eq!(
        Config::load(bad(), parse("theme = 'a'")).err().unwrap().message(),
        "bad"
    );
    assert_eq!(
        Config::load(parse("theme = 'a'"), bad()).err().unwrap().message(),
        "bad"
    );
    assert_eq!(Config::load(worse(), bad()).err().unwrap().message(), "bad");
}

#[test]
fn one_file_is_enough() {
    let config = Config::load(unread(), parse("theme = 'dark'")).ok().unwrap();
    assert_eq!(config.theme.as_deref(), Some("dark"));
    let error = Config::load(
        Err::<Raw, _>(ConfigLoadError::Error("first".to_string())),
        Err(ConfigLoadError::Error("second".to_string())),
    );
    assert_eq!(error.err().unwrap().message(), "first");
}

#[test]
fn the_theme_of_the_workspace_wins() {
    let config = Config::load(parse("theme = 'dark'"), parse("theme = 'light'"))
        .ok()
        .unwrap();
    assert_eq!(config.theme.as_deref(), Some("light"));
    let config = Config::load(parse("theme = 'dark'"), parse("")).ok().unwrap();
    assert_eq!(config.theme.as_deref(), Some("dark"));
}

#[test]
fn trust_comes_from_the_user_alone() {
    let global = Settings { workspace_trust: "ask", rest: 1 };
    let local = Settings { workspace_trust: "always", rest: 2 };
    let pinned = pin_trust(global, Some(local));
    assert_eq!(pinned.workspace_trust, "ask");
    assert_eq!(pinned.rest, 2);
    let alone = pin_trust(Settings { workspace_trust: "ask", rest: 1 }, None);
    assert_eq!(alone.rest, 1);
}
