//! The logic of a modal, selection-first text editor.

pub mod chars;
pub mod commands;
pub mod config;
pub mod custom_commands;
pub mod events;
pub mod file;
pub mod file_event;
pub mod mode;
pub mod range;
pub mod redraw;
pub mod selection;
pub mod strings;
pub mod text;
pub mod transaction;
