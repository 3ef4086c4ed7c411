use mitos::commands::application::{cquit, echo, parse_i32, quit, QuitCommand, QuitStep};
use mitos::commands::buffers::Buffer;
use mitos::commands::context::{Context, Layer, OnKeyCallbackKind};
use mitos::commands::files::{WriteAllOptions, WriteFlags, WriteOptions};
use mitos::commands::formatting::{finish_format, format_selections, FormatError};
use mitos::commands::history::{end_message, history_step, HistoryMove, HistoryStep};
use mitos::commands::picker::{stylize, PathParts, SpanStyle};
use mitos::commands::search::PromptEvent;
use mitos::commands::snippets::{goto_next_tabstop_impl, no_snippet_message, TabstopMove};
use mitos::commands::symbols::{
    lsp_or_syntax_symbol_picker, lsp_or_syntax_workspace_symbol_picker, SymbolSource,
};
use mitos::commands::windows::{wclose, wonly};
use mitos::commands::workspace::{
    directory_changed, parse_first_arg_as_dir, show_current_directory, DirectoryArg,
    DirectoryStack,
};
use mitos::events::{register, Event, Registry};
use mitos::mode::Mode;
use mitos::range::Direction;
use mitos::redraw::{
    lock_frame, redraw_requested, request_redraw, start_frame, unlock_frame, Redraw,
};

const PLAIN: WriteFlags = WriteFlags { no_format: false, no_code_actions: true };

fn strings(parts: &[&str]) -> Vec<String> {
    parts.iter().map(|s| s.to_string()).collect()
}

#[test]
fn exiting_writes_what_is_modified() {
    let write = QuitStep::Write(WriteOptions {
        force: true,
        auto_format: true,
        code_actions: false,
    });
    let steps = quit(PromptEvent::Validate, QuitCommand::Exit { force: true }, true, PLAIN);
    assert_eq!(
        steps,
        [
            write,
            QuitStep::Flush,
            QuitStep::CheckLastView,
            QuitStep::Flush,
            QuitStep::CloseView
        ]
    );
    let steps = quit(PromptEvent::Validate, QuitCommand::Exit { force: true }, false, PLAIN);
    assert_eq!(steps[0], QuitStep::Flush);
    assert!(quit(PromptEvent::Update, QuitCommand::Quit { force: true }, true, PLAIN).is_empty());
}

#[test]
fn quitting_by_force_is_not_checked() {
    let quit = |command| quit(PromptEvent::Validate, command, true, PLAIN);
    assert_eq!(quit(QuitCommand::Quit { force: true }), [QuitStep::Flush, QuitStep::CloseView]);
    assert_eq!(
        quit(QuitCommand::QuitAll { force: false }),
        [QuitStep::Flush, QuitStep::CheckBuffers, QuitStep::CloseAllViews]
    );
    assert_eq!(
        quit(QuitCommand::WriteAllQuit { force: true })[0],
        QuitStep::TryWriteAll(WriteAllOptions {
            force: true,
            write_scratch: true,
            auto_format: true,
            code_actions: false,
        })
    );
    assert_eq!(
        quit(QuitCommand::CQuit { force: true, code: 3 }),
        [QuitStep::ExitCode(3), QuitStep::Flush, QuitStep::CloseAllViews]
    );
}

#[test]
fn exit_codes_are_read() {
    assert_eq!(cquit(&strings(&["-7"])), -7);
    assert_eq!(cquit(&strings(&[])), 1);
    assert_eq!(cquit(&strings(&["x"])), 1);
    let parse = |s: &str| parse_i32(&s.chars().collect());
    assert_eq!(parse("2147483647"), Some(i32::MAX));
    assert_eq!(parse("-2147483648"), Some(i32::MIN));
    assert_eq!(parse("2147483648"), None);
    assert_eq!(parse("+5"), Some(5));
    assert_eq!(parse("-"), None);
    assert_eq!(echo(&strings(&["a", "b c"])), "a b c");
}

#[test]
fn directories_are_named() {
    let last = || Some("/last".to_string());
    assert!(matches!(parse_first_arg_as_dir(&strings(&[]), last()), Ok(DirectoryArg::Home)));
    assert!(matches!(
        parse_first_arg_as_dir(&strings(&["-"]), last()),
        Ok(DirectoryArg::Last(d)) if d == "/last"
    ));
    assert!(matches!(
        parse_first_arg_as_dir(&strings(&["src"]), None),
        Ok(DirectoryArg::Path(d)) if d == "src"
    ));
    assert_eq!(
        parse_first_arg_as_dir(&strings(&["-"]), None).err(),
        Some("No previous working directory")
    );
    assert_eq!(
        directory_changed("x", Some("denied"), "/w"),
        Err("Could not change working directory to 'x': denied".to_string())
    );
    assert_eq!(
        directory_changed("x", None, "/w"),
        Ok("Current working directory is now /w".to_string())
    );
    assert_eq!(
        show_current_directory("/w", false),
        Err("Current working directory is /w (deleted)".to_string())
    );
    assert_eq!(
        show_current_directory("/w", true),
        Ok("Current working directory is /w".to_string())
    );
}

#[test]
fn directories_are_stacked() {
    let mut stack = DirectoryStack::new(2);
    assert_eq!(stack.show_directory_stack(), Err("Stack is empty"));
    for dir in ["/a", "/b", "/c"] {
        stack.push_directory(dir.to_string());
    }
    assert_eq!(stack.show_directory_stack(), Ok("/c /b".to_string()));
    assert_eq!(stack.pop_directory(), Ok("/b".to_string()));
    assert_eq!(stack.show_directory_stack(), Ok("/b".to_string()));
    assert_eq!(stack.pop_directory(), Ok("/b".to_string()));
    assert_eq!(stack.pop_directory(), Err("Stack is empty"));
}

#[test]
fn the_last_window_keeps_unsaved_buffers() {
    let buffers = vec![Buffer {
        id: 4,
        path: None,
        relative_path: None,
        display_path: None,
        display_name: "[scratch]".to_string(),
        modified: true,
        focused_at: 0,
    }];
    assert_eq!(
        wclose(1, &buffers, 4).unwrap().message,
        "1 unsaved buffer remaining: [\"[scratch]\"]"
    );
    assert!(wclose(2, &buffers, 4).is_none());
    assert_eq!(wonly(&vec![(1, false), (2, true), (3, false)]), [1, 3]);
}

#[test]
fn history_ends_with_a_message() {
    assert!(matches!(history_step(HistoryMove::Undo, 0, 2, true), HistoryStep::Again));
    assert!(matches!(history_step(HistoryMove::Undo, 1, 2, true), HistoryStep::Finished));
    assert!(matches!(
        history_step(HistoryMove::Redo, 0, 2, false),
        HistoryStep::AtEnd("Already at newest change")
    ));
    assert_eq!(end_message(HistoryMove::Earlier), "Already at oldest change");
}

#[test]
fn one_selection_is_formatted_by_the_first_server() {
    assert_eq!(format_selections(1, &vec![false, true, true]), Ok(1));
    assert_eq!(format_selections(2, &vec![true]), Err(FormatError::SeveralSelections));
    assert_eq!(format_selections(1, &vec![false]), Err(FormatError::NoServer));
    assert_eq!(
        FormatError::SeveralSelections.message(),
        "format_selections only supports a single selection for now"
    );
    let outcome = finish_format(true, true, false, true);
    assert!(!outcome.apply && !outcome.report && outcome.save);
    assert!(finish_format(true, false, true, false).report);
}

#[test]
fn tabstops_are_left_at_the_end() {
    let step = |found, direction| goto_next_tabstop_impl(true, direction, found, Mode::Insert);
    assert_eq!(
        step(Some(true), Direction::Forward),
        TabstopMove::Selected { stays: false, replaces: true }
    );
    assert_eq!(
        step(Some(true), Direction::Backward),
        TabstopMove::Selected { stays: true, replaces: true }
    );
    assert_eq!(step(None, Direction::Backward), TabstopMove::Left);
    assert_eq!(
        goto_next_tabstop_impl(false, Direction::Forward, None, Mode::Insert),
        TabstopMove::NoSnippet
    );
    assert_eq!(no_snippet_message(), "no snippet is currently active");
}

#[test]
fn symbols_come_from_servers_first() {
    assert_eq!(
        lsp_or_syntax_symbol_picker(true, true, false),
        Ok(SymbolSource::LanguageServer)
    );
    assert_eq!(lsp_or_syntax_symbol_picker(false, false, true), Ok(SymbolSource::Syntax));
    assert!(lsp_or_syntax_symbol_picker(false, false, false).is_err());
    assert_eq!(lsp_or_syntax_workspace_symbol_picker(false), SymbolSource::Syntax);
}

#[test]
fn paths_are_shown_in_parts() {
    let path = Some(PathParts {
        parent: Some("src".to_string()),
        file_name: "a.rs".to_string(),
    });
    let spans = stylize(&path, &None, '/', "[scratch]", Some(4));
    let shown: String = spans.iter().map(|s| s.text.as_str()).collect();
    assert_eq!(shown, "src/a.rs:5");
    assert_eq!(spans[0].style, SpanStyle::Directory);
    assert_eq!(spans.last().unwrap().style, SpanStyle::Number);
    let spans = stylize(&None, &None, '/', "[scratch]", None);
    assert_eq!(spans[0].text, "[scratch]");
}

#[test]
fn requests_for_redrawing_collapse() {
    let mut signal = Redraw::default();
    assert!(!redraw_requested(&mut signal));
    request_redraw(&mut signal);
    request_redraw(&mut signal);
    assert!(redraw_requested(&mut signal));
    assert!(!redraw_requested(&mut signal));
    lock_frame(&mut signal);
    assert!(!start_frame(&mut signal));
    unlock_frame(&mut signal);
    assert!(start_frame(&mut signal));
}

#[test]
fn events_are_registered_once() {
    let mut registry = Registry::new();
    register(&mut registry);
    register(&mut registry);
    assert_eq!(
        registry.events,
        [Event::OnModeSwitch, Event::PostInsertChar, Event::PostCommand]
    );
}

#[test]
fn commands_leave_layers_and_callbacks() {
    let mut cx: Context<&str, u8> =
        Context { register: None, count: None, callback: Vec::new(), on_next_key_callback: None };
    assert_eq!(cx.count(), 1);
    cx.count = Some(4);
    assert_eq!(cx.count(), 4);
    cx.push_layer("popup");
    cx.replace_or_push_layer("menu", "list");
    assert!(matches!(cx.callback[0], Layer::Push("popup")));
    assert!(matches!(cx.callback[1], Layer::ReplaceOrPush("menu", "list")));
    cx.on_next_key(7);
    assert_eq!(cx.on_next_key_callback, Some((7, OnKeyCallbackKind::PseudoPending)));
    cx.on_next_key_fallback(8);
    assert_eq!(cx.on_next_key_callback, Some((8, OnKeyCallbackKind::Fallback)));
}
