use mitos::commands::palette::{
    command_palette, command_palette_bindings, command_palette_name, last_picker, picked_command,
    Bindings, MappableCommand, PaletteStyle,
};
use mitos::commands::table::typable_command_list;
use mitos::mode::Mode;

fn write_and_keys() -> (MappableCommand, Vec<Bindings>) {
    let command = MappableCommand::Typable {
        name: "write".into(),
        args: String::new(),
        doc: String::new(),
    };
    let keys = vec!["space".to_string(), "?".to_string()];
    let keymap = vec![Bindings { command: "write".into(), sequences: vec![keys] }];
    (command, keymap)
}

#[test]
fn commands_command_palette_styles_names_and_bindings() {
    let (command, keymap) = write_and_keys();
    let name = command_palette_name(&command);
    assert_eq!(name.content, ":write");
    assert_eq!(name.style, PaletteStyle::Command);
    let bindings = command_palette_bindings(&command, &keymap);
    assert_eq!(bindings.content, "<space>?");
    assert_eq!(bindings.style, PaletteStyle::Binding);
}

#[test]
fn palette_command_palette_styles_names_and_bindings() {
    let (command, keymap) = write_and_keys();
    let name = command_palette_name(&command);
    assert_eq!(name.content, ":write");
    assert_eq!(name.style, PaletteStyle::Command);
    let bindings = command_palette_bindings(&command, &keymap);
    assert_eq!(bindings.content, "<space>?");
    assert_eq!(bindings.style, PaletteStyle::Binding);
}

#[test]
fn several_bindings_have_spaces_between_them() {
    let command = MappableCommand::Static { name: "undo".into(), doc: String::new() };
    assert_eq!(command_palette_name(&command).content, "undo");
    let keymap = vec![Bindings {
        command: "undo".into(),
        sequences: vec![vec!["u".to_string()], vec!["C-z".to_string(), "u".to_string()]],
    }];
    assert_eq!(command_palette_bindings(&command, &keymap).content, "u <C-z>u");
    assert_eq!(command_palette_bindings(&command, &Vec::new()).content, "");
}

#[test]
fn there_may_be_no_last_picker() {
    assert_eq!(last_picker(false), Some("no last picker"));
    assert_eq!(last_picker(true), None);
}

#[test]
fn the_palette_lists_all_commands() {
    let bound = vec![MappableCommand::Static { name: "undo".into(), doc: "Undo change".into() }];
    let typable = typable_command_list();
    let listed = command_palette(bound, &typable);
    assert_eq!(listed.len(), typable.len() + 1);
    assert_eq!(listed[0].name(), "undo");
    for (command, listed) in typable.iter().zip(&listed[1..]) {
        assert_eq!(command_palette_name(listed).content, format!(":{}", command.name));
        match listed {
            MappableCommand::Typable { name: _, args, doc } => {
                assert!(args.is_empty());
                assert_eq!(doc, command.doc);
            }
            MappableCommand::Static { name: _, doc: _ } => panic!("not of the command line"),
        }
    }
    assert_eq!(picked_command(true, Mode::Normal), (true, true));
    assert_eq!(picked_command(true, Mode::Insert), (true, false));
    assert_eq!(picked_command(false, Mode::Normal), (false, false));
}
