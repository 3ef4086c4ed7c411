use mitos::commands::buffers::{
    buffer_close, buffer_close_by_ids_impl, buffer_flags, buffer_gather_others_impl,
    buffer_gather_paths_impl, buffer_picker, buffers_by_focus, buffers_remaining_impl, Buffer,
    CloseCommand, CloseStep, Gather,
};
use mitos::commands::files::{WriteFlags, WriteOptions};
use mitos::commands::search::PromptEvent;

fn buffer(id: u64, path: Option<&str>, modified: bool, focused_at: u64) -> Buffer {
    Buffer {
        id,
        path: path.map(|p| format!("/w/{p}")),
        relative_path: path.map(|p| p.to_string()),
        display_path: path.map(|p| p.to_string()),
        display_name: path.unwrap_or("[scratch]").to_string(),
        modified,
        focused_at,
    }
}

#[test]
fn the_buffer_of_the_latest_focus_comes_first() {
    assert_eq!(buffers_by_focus(&vec![10, 30, 20]), [1, 2, 0]);
    let buffers = vec![buffer(1, Some("a"), true, 10), buffer(2, None, false, 30)];
    let (entries, cursor) = buffer_picker(&buffers, 2, true);
    assert_eq!(entries.iter().map(|e| e.id).collect::<Vec<_>>(), [2, 1]);
    assert_eq!(entries[0].flags, buffer_flags(false, true));
    assert_eq!(entries[1].flags, buffer_flags(true, false));
    assert_eq!(entries[0].path, buffers.iter().find(|b| b.id == 2).unwrap().relative_path);
    assert_eq!(entries[1].path, buffers.iter().find(|b| b.id == 1).unwrap().relative_path);
    assert_eq!(cursor, 1);
    assert_eq!(buffer_flags(true, true), "+*");
    assert_eq!(buffer_flags(false, false), "");
}

#[test]
fn unsaved_buffers_are_reported() {
    let left = buffer_close_by_ids_impl(
        &vec![1, 2, 3],
        &vec![None, Some("a.rs".to_string()), Some("b \"x\"".to_string())],
        1,
    )
    .unwrap();
    assert_eq!(left.message, "2 unsaved buffers remaining: [\"a.rs\", \"b \\\"x\\\"\"]");
    assert_eq!(left.focus, Some(2));
    let left = buffer_close_by_ids_impl(&vec![1, 2], &vec![None, Some("a".to_string())], 2);
    assert_eq!(left.unwrap().focus, None);
    assert!(buffer_close_by_ids_impl(&vec![1], &vec![None], 1).is_none());
    let buffers = vec![buffer(1, Some("a"), false, 0), buffer(2, None, true, 0)];
    let left = buffers_remaining_impl(&buffers, 1).unwrap();
    assert_eq!(left.message, "1 unsaved buffer remaining: [\"[scratch]\"]");
    assert_eq!(left.focus, Some(2));
}

#[test]
fn buffers_are_gathered_to_be_closed() {
    let buffers = vec![buffer(1, Some("a"), false, 0), buffer(2, Some("b"), true, 0)];
    assert_eq!(buffer_gather_paths_impl(&buffers, &Vec::new(), 2), (vec![2], None));
    let args = vec!["b".to_string(), "x".to_string(), "y".to_string()];
    let (ids, error) = buffer_gather_paths_impl(&buffers, &args, 1);
    assert_eq!(ids, [2]);
    assert_eq!(error.unwrap(), "cannot close non-existent buffers: 'x', 'y'");
    assert_eq!(buffer_gather_others_impl(&vec![1, 2, 3], &vec![1, 3], 1, false), [2, 3]);
    assert_eq!(buffer_gather_others_impl(&vec![1, 2, 3], &vec![1, 3], 1, true), [2]);
}

#[test]
fn a_buffer_that_was_written_is_closed_with_care() {
    let flags = WriteFlags { no_format: true, no_code_actions: false };
    let written = buffer_close(
        PromptEvent::Validate,
        CloseCommand::WriteClose { force: true },
        flags,
    );
    let options = WriteOptions { force: true, auto_format: false, code_actions: true };
    assert_eq!(
        written,
        vec![
            CloseStep::Write(options),
            CloseStep::Close { what: Gather::Named, force: false },
        ]
    );
    let others = Gather::Others { skip_visible: true };
    let command = CloseCommand::Close { what: others, force: true };
    assert_eq!(
        buffer_close(PromptEvent::Validate, command, flags),
        vec![CloseStep::Close { what: others, force: true }]
    );
    assert!(buffer_close(PromptEvent::Update, command, flags).is_empty());
}
