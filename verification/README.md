# mitos

The command logic of a modal, selection-first text editor, verified with Verus.

Commands are functions from plain values (a text with its grapheme boundaries, a selection, the
arguments that were typed) to what is to be done: a transaction, a new selection, a message, or the
next step of a dialogue. Each states in its contract what it returns, and Verus proves that it does.

- `src/text.rs`, `range.rs`, `selection.rs`, `transaction.rs`: texts, ranges, selections with
  several ranges, and changes.
- `src/commands/`: the commands, by subject.
- `src/config.rs`, `custom_commands.rs`: putting configurations together, and commands that users
  define.
- `src/file.rs`, `file_event.rs`, `redraw.rs`, `events.rs`: telling binary files from text, routing
  changes of files to language servers, when frames are drawn, and the events of the editor.
- `app/`: what touches the world around the editor.
- `tests/`: the commands on concrete texts.

Public proof functions state laws that hold of several commands together, such as that taking back
all changes restores the base text, or that shrinking a selection undoes expanding it.
