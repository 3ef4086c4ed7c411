use mitos::commands::diagnostics::{
    code_column, diag_picker, diagnostic_columns, diagnostic_file_location,
    diagnostic_quicklist_entry, diagnostics_picker, goto_first_diag, goto_last_diag,
    goto_next_diag, goto_prev_diag, jump_to_diagnostic, path_column, severity_column,
    severity_style, store_diagnostic, to_signed_decimal, workspace_diagnostics_picker,
    yank_diagnostic, Diagnostic, DiagnosticEntry, DiagnosticJump, DiagnosticLocation,
    DiagnosticPreview, DiagnosticsFormat, DiagnosticsPicker, LspRange, NumberOrString,
    OffsetEncoding, OpenDocument, PickerDiagnostic, Severity, StoredDiagnostic, StoredFile,
    YankError,
};
use mitos::commands::quicklist::{
    goto_quicklist_impl, picked_entry, quicklist_picker, QuicklistEntry, QuicklistTarget,
};
use mitos::range::Range;
use mitos::text::Text;

fn diagnostic(start: usize, end: usize, message: &str) -> Diagnostic {
    Diagnostic {
        start,
        end,
        severity: None,
        code: None,
        source: None,
        message: message.to_string(),
        spelling: false,
    }
}

fn three() -> Vec<Diagnostic> {
    vec![diagnostic(1, 3, "a"), diagnostic(5, 6, "b"), diagnostic(9, 12, "c")]
}

#[test]
fn diagnostics_are_visited_in_order() {
    let all = three();
    assert_eq!(goto_first_diag(&all).unwrap().primary(), Range::new(1, 3));
    assert_eq!(goto_last_diag(&all).unwrap().primary(), Range::new(9, 12));
    assert_eq!(goto_next_diag(&all, 1).unwrap().primary(), Range::new(5, 6));
    assert!(goto_next_diag(&all, 9).is_none());
    assert_eq!(goto_prev_diag(&all, 9).unwrap().primary(), Range::new(6, 5));
    assert!(goto_prev_diag(&all, 1).is_none());
    assert!(goto_first_diag(&Vec::new()).is_none());
}

fn listed(severity: Option<Severity>, message: &str) -> PickerDiagnostic {
    PickerDiagnostic {
        location: DiagnosticLocation::Document { doc_id: 1, path: None, start: 0, end: 1 },
        severity,
        code: None,
        source: None,
        message: message.to_string(),
    }
}

fn messages(picker: &DiagnosticsPicker) -> Vec<&str> {
    picker.diagnostics.iter().map(|d| d.message.as_str()).collect()
}

const SOMEWHERE: LspRange =
    LspRange { start_line: 3, start_character: 1, end_line: 4, end_character: 0 };

fn reported(severity: Option<i32>, message: &str, running: bool) -> StoredDiagnostic {
    StoredDiagnostic {
        range: SOMEWHERE,
        severity,
        code: Some(NumberOrString::Number(7)),
        source: Some("rustc".to_string()),
        message: message.to_string(),
        offset_encoding: if running { Some(OffsetEncoding::Utf16) } else { None },
    }
}

fn stored(path: Option<&str>, diagnostics: Vec<StoredDiagnostic>) -> StoredFile {
    StoredFile {
        uri: format!("file://{}", path.unwrap_or("")),
        path: path.map(|p| p.to_string()),
        diagnostics,
    }
}

#[test]
fn the_worst_diagnostics_are_listed_first() {
    let picker = diag_picker(
        vec![
            listed(Some(Severity::Hint), "a"),
            listed(None, "b"),
            listed(Some(Severity::Error), "c"),
            listed(Some(Severity::Warning), "d"),
            listed(Some(Severity::Error), "e"),
            listed(Some(Severity::Info), "f"),
        ],
        DiagnosticsFormat::HideSourcePath,
    );
    assert_eq!(messages(&picker), ["c", "e", "d", "f", "a", "b"]);
    assert_eq!(picker.columns, ["severity", "source", "code", "message"]);
    assert_eq!(picker.primary_column, 3);
}

#[test]
fn diagnostics_have_columns() {
    let (names, primary) = diagnostic_columns(DiagnosticsFormat::ShowSourcePath);
    assert_eq!(names, ["severity", "source", "code", "path", "message"]);
    assert_eq!(primary, 4);
    assert_eq!(code_column(&Some(NumberOrString::Number(-12))), "-12");
    assert_eq!(code_column(&Some(NumberOrString::Text("E1".into()))), "E1");
    assert_eq!(code_column(&None), "");
    let scratch = listed(None, "a");
    assert_eq!(path_column(&scratch, None), "[scratch]");
    assert_eq!(path_column(&scratch, Some("a.rs")), "a.rs");
    let file = stored(None, vec![reported(Some(1), "x", true)]);
    let gone = store_diagnostic(&file, &file.diagnostics[0]).unwrap();
    assert_eq!(path_column(&gone, None), "");
    assert_eq!(to_signed_decimal(i32::MIN), "-2147483648");
    assert_eq!(severity_column(Some(Severity::Error), None), "ERROR");
    assert_eq!(severity_column(Some(Severity::Warning), Some("!")), "!WARN");
    assert_eq!(severity_column(None, Some("!")), "");
    assert_eq!(severity_style(Some(Severity::Info)), Some("info"));
    assert_eq!(severity_style(None), None);
}

#[test]
fn diagnostics_of_gone_servers_are_dropped() {
    let file = stored(
        Some("/a"),
        vec![reported(Some(4), "x", true), reported(Some(9), "y", true), reported(Some(1), "z", false)],
    );
    let item = store_diagnostic(&file, &file.diagnostics[0]).unwrap();
    assert_eq!(item.severity, Some(Severity::Hint));
    assert_eq!(item.source.as_deref(), Some("rustc"));
    assert_eq!(store_diagnostic(&file, &file.diagnostics[1]).unwrap().severity, None);
    assert!(store_diagnostic(&file, &file.diagnostics[2]).is_none());
}

#[test]
fn the_workspace_lists_open_documents_and_other_files() {
    let open = OpenDocument { id: 5, path: Some("/a".to_string()), diagnostics: three() };
    let picker = diagnostics_picker(&open);
    assert_eq!(messages(&picker), ["a", "b", "c"]);
    let files = vec![
        stored(Some("/a"), vec![reported(Some(1), "stale", true)]),
        stored(Some("/b"), vec![reported(Some(2), "other", true), reported(Some(1), "z", false)]),
    ];
    let picker = workspace_diagnostics_picker(&vec![open], &files);
    assert_eq!(messages(&picker), ["other", "a", "b", "c"]);
    assert_eq!(picker.primary_column, 4);
}

#[test]
fn jumps_stay_in_the_text() {
    let location = DiagnosticLocation::Document { doc_id: 5, path: None, start: 2, end: 9 };
    match jump_to_diagnostic(&location, Some(5)) {
        DiagnosticJump::Document { doc_id, selection } => {
            assert_eq!(doc_id, 5);
            assert_eq!(selection.primary(), Range::new(5, 2));
        }
        _ => panic!("the document is open"),
    }
    assert!(matches!(jump_to_diagnostic(&location, None), DiagnosticJump::Closed));
    assert!(diagnostic_quicklist_entry(&location, None).is_none());
    assert!(matches!(
        diagnostic_quicklist_entry(&location, Some(5)),
        Some(DiagnosticEntry::Document { doc_id: 5, .. })
    ));
    let text = Text::from_chars("a\nb\nc".chars().collect());
    assert!(matches!(
        diagnostic_file_location(&location, Some(&text)),
        Some(DiagnosticPreview::Document(5, (1, 2)))
    ));
}

#[test]
fn files_are_opened_where_the_server_says() {
    let file = stored(Some("/a"), vec![reported(None, "x", true)]);
    let item = store_diagnostic(&file, &file.diagnostics[0]).unwrap();
    assert!(matches!(
        jump_to_diagnostic(&item.location, None),
        DiagnosticJump::File { path, range, offset_encoding: OffsetEncoding::Utf16 }
            if path == "/a" && range == SOMEWHERE
    ));
    assert!(matches!(
        diagnostic_file_location(&item.location, None),
        Some(DiagnosticPreview::File(path, (3, 4))) if path == "/a"
    ));
    let nowhere = stored(None, vec![reported(None, "x", true)]);
    let item = store_diagnostic(&nowhere, &nowhere.diagnostics[0]).unwrap();
    assert!(matches!(
        jump_to_diagnostic(&item.location, None),
        DiagnosticJump::NoFile(m) if m == "unable to convert URI to filepath: file://"
    ));
    assert!(diagnostic_file_location(&item.location, None).is_none());
}

#[test]
fn messages_under_the_cursor_are_yanked() {
    let (register, messages, status) =
        yank_diagnostic(None, &three(), &Range::new(2, 6)).ok().unwrap();
    assert_eq!(register, '+');
    assert_eq!(messages, ["a", "b"]);
    assert_eq!(status, "Yanked 2 diagnostics to register +");
    match yank_diagnostic(Some("xy"), &three(), &Range::new(2, 6)) {
        Err(YankError::InvalidRegister(m)) => assert_eq!(m, "Invalid register xy"),
        _ => panic!("registers are named by one character"),
    }
    assert!(matches!(
        yank_diagnostic(Some("x"), &three(), &Range::new(7, 8)),
        Err(YankError::Nothing)
    ));
    assert_eq!(YankError::Nothing.message(), "No diagnostics under primary selection");
}

#[test]
fn the_quicklist_shows_its_entries() {
    let entries = vec![
        QuicklistEntry {
            target: QuicklistTarget::Path("/w/a.rs".into()),
            relative_path: Some("a.rs".into()),
            lines: Some((4, 4)),
        },
        QuicklistEntry { target: QuicklistTarget::Document(7), relative_path: None, lines: None },
    ];
    let (lines, cursor) = quicklist_picker(&entries, Some(1), "[scratch]").ok().unwrap();
    assert_eq!(cursor, 1);
    assert_eq!(lines[0].label, "a.rs");
    assert_eq!(lines[0].line, "5");
    assert_eq!(lines[0].index, 0);
    assert_ne!(lines[0].flags, lines[1].flags);
    assert_eq!(
        quicklist_picker(&Vec::new(), None, "[scratch]").err(),
        Some("No quicklist entries available")
    );
    assert_eq!(lines[1].label, "[scratch] (7)");
    assert_eq!(picked_entry(Some(1), 0, true), Some(0));
    assert_eq!(picked_entry(Some(1), 0, false), Some(1));
    assert!(goto_quicklist_impl(true, false).is_none());
    assert!(goto_quicklist_impl(false, false).is_some());
}
