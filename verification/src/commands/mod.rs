//! The commands of the editor.

pub mod context;
pub mod insert;
pub mod insert_text;
pub mod insert_delete;
pub mod catalog;
pub mod files;
pub mod search;
pub mod vcs;
pub mod links;
pub mod characters;
pub mod line_endings;
pub mod diagnostics;
pub mod spelling;
pub mod names;
pub mod navigation;
pub mod textobjects;
pub mod align;
pub mod joining;
pub mod editing;
pub mod surround;
pub mod selection;
pub mod registers;
pub mod movement;
pub mod buffers;
pub mod windows;
pub mod history;
pub mod formatting;
pub mod snippets;
pub mod symbols;
pub mod picker;
pub mod quicklist;
pub mod application;
pub mod workspace;
pub mod palette;
pub mod shell;
pub mod table;
pub mod command_line;
pub mod macros;
pub mod syntax;
