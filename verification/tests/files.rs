use mitos::commands::diagnostics::Diagnostic;
use mitos::commands::files::{
    check_picker_directory, finish_save, force_move_buffer, force_write, language, move_buffer,
    open_file_failed, open_url, picker_in_buffer_directory, picker_message, read, reload,
    reload_all, reload_views, report_indent_style, set_encoding, set_indent_style, submit_save,
    update, write_all, EncodingAction, LanguageAction, MoveError, MoveFacts, OpenTarget,
    PickerDirectory, PickerKind, PickerRoot, Reloading, SaveEnd, SaveStart, WriteFlags,
};
use mitos::commands::insert_text::IndentStyle;
use mitos::commands::line_endings::{line_ending_name, parse_line_ending, set_line_ending};
use mitos::commands::search::PromptEvent;
use mitos::commands::shell::{
    shell, shell_keep_pipe, shell_output, shell_program, shell_prompt, ShellBehavior,
};
use mitos::commands::spelling::{
    goto_spelling, report_spelling_languages, spelling_language, spelling_ranges, SpellingAction,
};
use mitos::range::{Direction, Range};
use mitos::selection::Selection;
use mitos::text::{LineEnding, Text};
use mitos::transaction::apply;

fn chars(s: &str) -> Vec<char> {
    s.chars().collect()
}

fn text(s: &str) -> Text {
    Text::from_chars(chars(s))
}

fn strings(parts: &[&str]) -> Vec<String> {
    parts.iter().map(|s| s.to_string()).collect()
}

fn two() -> Selection {
    Selection::new(vec![Range::new(0, 1), Range::new(2, 4)], 1)
}

#[test]
fn buffers_are_moved() {
    let facts = MoveFacts {
        scratch: false,
        new_is_dir: true,
        old_has_name: true,
        old_exists: true,
        parent_exists: Some(false),
    };
    let validate = PromptEvent::Validate;
    let error = move_buffer(validate, facts).unwrap().err().unwrap();
    assert_eq!(error, MoveError::MissingParent);
    assert_eq!(
        error.message(),
        "can't move file, parent directory does not exist (use :mv! to create it)"
    );
    let plan = force_move_buffer(validate, facts).unwrap().ok().unwrap();
    assert!(plan.into_directory && plan.create_parent);
    let scratch = MoveFacts { scratch: true, ..facts };
    assert_eq!(
        force_move_buffer(validate, scratch).unwrap().err().unwrap().message(),
        "Scratch buffer cannot be moved. Use :write instead"
    );
    assert!(move_buffer(PromptEvent::Update, facts).is_none());
}

#[test]
fn writing_obeys_its_flags() {
    let flags = WriteFlags { no_format: true, no_code_actions: false };
    let validate = PromptEvent::Validate;
    let options = mitos::commands::files::write(validate, flags).unwrap();
    assert!(!options.force && !options.auto_format && options.code_actions);
    assert!(force_write(validate, flags).unwrap().force);
    assert!(update(validate, false, flags).is_none());
    assert!(update(validate, true, flags).is_some());
    assert!(mitos::commands::files::write(PromptEvent::Abort, flags).is_none());
    assert!(write_all(validate, true, flags).unwrap().force);
}

#[test]
fn saving_formats_before_it_writes() {
    assert_eq!(submit_save(true, true, true), SaveStart::CodeActions);
    assert_eq!(submit_save(true, false, false), SaveStart::Format);
    assert_eq!(submit_save(false, false, false), SaveStart::Write);
    assert_eq!(finish_save(false, true, true), SaveEnd::Nothing);
    assert_eq!(finish_save(true, true, true), SaveEnd::Format);
    assert_eq!(finish_save(true, true, false), SaveEnd::Write);
}

#[test]
fn indent_styles_are_named() {
    assert_eq!(set_indent_style("T"), Ok(IndentStyle::Tabs));
    assert_eq!(set_indent_style("0"), Ok(IndentStyle::Tabs));
    assert_eq!(set_indent_style("8"), Ok(IndentStyle::Spaces(8)));
    assert_eq!(set_indent_style("17"), Err("invalid indent style"));
    assert_eq!(report_indent_style(IndentStyle::Spaces(1)), "1 space");
    assert_eq!(report_indent_style(IndentStyle::Spaces(4)), "4 spaces");
    assert_eq!(report_indent_style(IndentStyle::Tabs), "tabs");
}

#[test]
fn pickers_open_somewhere() {
    assert_eq!(picker_in_buffer_directory(true, false), PickerRoot::Asked);
    let root = picker_in_buffer_directory(false, true);
    assert_eq!(
        picker_message(root, PickerKind::Explorer),
        Some("Current buffer has no parent, opening file explorer in current working directory")
    );
    assert_eq!(picker_message(PickerRoot::Asked, PickerKind::Files), None);
    assert!(picker_message(picker_in_buffer_directory(false, false), PickerKind::Files).is_some());
}

#[test]
fn pickers_need_their_directory() {
    assert!(check_picker_directory(PickerDirectory::Working, true).is_ok());
    assert_eq!(
        check_picker_directory(PickerDirectory::Working, false),
        Err("Current working directory does not exist")
    );
    assert_eq!(
        check_picker_directory(PickerDirectory::Workspace, false),
        Err("Workspace directory does not exist")
    );
}

#[test]
fn targets_are_opened() {
    assert_eq!(open_url(true, true), OpenTarget::External);
    assert_eq!(open_url(false, true), OpenTarget::Picker);
    assert_eq!(open_url(false, false), OpenTarget::Buffer);
    assert_eq!(open_file_failed("gone"), "Open file failed: gone");
    assert_eq!(set_encoding(PromptEvent::Validate, Some("utf-8")), EncodingAction::Change);
    assert_eq!(set_encoding(PromptEvent::Validate, None), EncodingAction::Report);
    assert_eq!(set_encoding(PromptEvent::Update, None), EncodingAction::Nothing);
}

#[test]
fn files_are_read_into_selections() {
    let text = text("a bb");
    let t = read(&text, &two(), &chars("X"));
    let after: String = apply(&text.chars, &t.changes).into_iter().collect();
    assert_eq!(after.matches('X').count(), 2);
    assert_eq!(language(None, "text"), LanguageAction::Report);
    assert_eq!(language(Some("text"), "text"), LanguageAction::Clear);
    assert_eq!(language(Some("rust"), "text"), LanguageAction::Change);
    assert_eq!(reload_views(&Vec::new(), 9), [9]);
    assert_eq!(reload_views(&vec![3, 4], 9), [3, 4]);
}

#[test]
fn line_endings_are_set() {
    assert_eq!(parse_line_ending("CRLF"), Ok(LineEnding::Crlf));
    assert_eq!(parse_line_ending("lf"), Ok(LineEnding::LF));
    assert_eq!(parse_line_ending("cr"), Err("invalid line ending"));
    assert_eq!(line_ending_name(LineEnding::LF), "line feed");
    let text = text("a\nb\r\nc");
    let t = set_line_ending(&text, LineEnding::Crlf);
    assert_eq!(apply(&text.chars, &t.changes), chars("a\r\nb\r\nc"));
    let t = set_line_ending(&text, LineEnding::LF);
    assert_eq!(apply(&text.chars, &t.changes), chars("a\nb\nc"));
    for ending in [LineEnding::Crlf, LineEnding::LF] {
        let t = set_line_ending(&text, ending);
        let set = Text::from_chars(apply(&text.chars, &t.changes));
        assert!(set_line_ending(&set, ending).changes.is_empty());
    }
}

#[test]
fn shells_pipe_selections() {
    let text = text("a bb");
    let outputs = vec![chars("A"), chars("B")];
    let run = |outputs, behavior| {
        let t = shell(&text, &two(), outputs, behavior).unwrap();
        apply(&text.chars, &t.changes).into_iter().collect::<String>()
    };
    assert_eq!(run(&outputs, ShellBehavior::Replace), "A B");
    let one = vec![chars("X")];
    assert_eq!(run(&one, ShellBehavior::Insert), "Xa Xbb");
    assert_eq!(run(&one, ShellBehavior::Append), "aX bbX");
    assert!(shell(&text, &two(), &outputs, ShellBehavior::Ignore).is_none());
    assert_eq!(ShellBehavior::Ignore.prompt(), "pipe-to:");
    assert!(ShellBehavior::Replace.pipes() && !ShellBehavior::Insert.pipes());
    assert!(shell_prompt(PromptEvent::Validate, false));
    assert!(!shell_prompt(PromptEvent::Validate, true));
}

#[test]
fn shell_output_may_be_no_text() {
    let out = |success, code, stdout: &[u8], stderr: &[u8]| {
        shell_output(success, code, &stdout.to_vec(), &stderr.to_vec())
    };
    assert_eq!(out(true, Some(0), b"a\xffb", b""), Ok("a\u{fffd}b".to_string()));
    assert_eq!(out(false, Some(2), b"", b""), Err("Shell command failed: status 2".to_string()));
    assert_eq!(out(false, None, b"", b""), Err("Shell command failed".to_string()));
    assert_eq!(out(false, Some(1), b"x", b"oops"), Ok("oops".to_string()));
    let (name, args) = shell_program(&strings(&["sh", "-c"])).ok().unwrap();
    assert_eq!((name.as_str(), args), ("sh", strings(&["-c"])));
    assert_eq!(shell_program(&Vec::new()).err(), Some("No shell set"));
}

#[test]
fn selections_are_kept_by_commands() {
    let kept = shell_keep_pipe(&two(), &vec![true, false]).ok().unwrap();
    assert_eq!(kept.ranges, [Range::new(0, 1)]);
    assert_eq!(
        shell_keep_pipe(&two(), &vec![false, false]).err(),
        Some("No selections remaining")
    );
}

fn finding(start: usize, end: usize, spelling: bool) -> Diagnostic {
    Diagnostic {
        start,
        end,
        severity: None,
        code: None,
        source: None,
        message: String::new(),
        spelling,
    }
}

#[test]
fn misspelled_words_are_visited() {
    let text = text("teh cat adn dog");
    let all = vec![finding(0, 3, true), finding(4, 7, false), finding(8, 11, true)];
    assert_eq!(spelling_ranges(&all).len(), 2);
    let at = Selection::point(0);
    let next = goto_spelling(&text, &at, &all, Direction::Forward, 1, false).unwrap();
    assert_eq!((next.ranges[0].from(), next.ranges[0].to()), (8, 11));
    assert!(goto_spelling(&text, &at, &all, Direction::Backward, 1, false).is_none());
    assert_eq!(spelling_language(&strings(&["off"])), SpellingAction::Off);
    assert_eq!(spelling_language(&strings(&[])), SpellingAction::Report);
    assert_eq!(spelling_language(&strings(&["en", "de"])), SpellingAction::Languages);
    assert_eq!(report_spelling_languages(&strings(&["en", "de"])), "en, de");
    assert_eq!(report_spelling_languages(&Vec::new()), "off");
}

fn reloading(id: u64, views: Vec<u64>) -> Reloading {
    Reloading { id, selected_in: views, has_path: true, watched: false, failed: false }
}

#[test]
fn every_buffer_is_read_again() {
    let shown = vec![(1, 10), (2, 10), (3, 11)];
    let mut lost = reloading(12, vec![3]);
    lost.failed = true;
    let mut watched = reloading(11, vec![3]);
    watched.watched = true;
    let buffers = vec![reloading(10, vec![1, 3, 2]), lost, watched, reloading(13, vec![])];
    let done = reload_all(PromptEvent::Validate, &buffers, 1, &shown);
    assert_eq!(done.len(), 4);
    assert_eq!((done[0].id, done[0].through, done[0].prepared), (10, 1, false));
    assert!(done[0].notify && !done[0].report);
    assert_eq!(done[0].synced, vec![1, 2]);
    assert!(done[1].report && !done[1].notify);
    assert!(done[1].synced.is_empty());
    assert!(!done[2].notify);
    assert_eq!(done[2].synced, vec![3]);
    assert_eq!((done[3].through, done[3].prepared), (1, true));
    assert!(done[3].synced.is_empty());
    assert!(reload_all(PromptEvent::Update, &buffers, 1, &shown).is_empty());
    assert!(reload(PromptEvent::Validate, &buffers[0]));
    assert!(!reload(PromptEvent::Validate, &buffers[1]));
    assert!(!reload(PromptEvent::Abort, &buffers[0]));
}
