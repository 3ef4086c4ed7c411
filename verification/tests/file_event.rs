use mitos::file_event::{
    watcher_glob, Event, FileChange, FileChangeType, GlobPattern, State, WatchKind, Watcher,
    WatcherError,
};

const CHANGE: WatchKind = WatchKind { create: false, change: true, delete: false };

fn registration(pattern: &str, kind: Option<WatchKind>) -> Vec<Watcher> {
    vec![Watcher { pattern: GlobPattern::Whole(pattern.to_string()), kind }]
}

fn changed(path: &str, typ: FileChangeType) -> FileChange {
    FileChange { path: path.to_string(), uri: Some(format!("file://{path}")), typ }
}

#[test]
fn overlapping_registrations_respect_kinds_and_unregister_independently() {
    let mut state = State::new();
    let id = 0;
    state.register(id, 0, "changes".into(), &registration("**/*.rs", Some(CHANGE)));
    state.register(id, 0, "all".into(), &registration("**/*.rs", None));
    let path = "/tmp/watched.rs";
    state.queue(&vec![
        changed(path, FileChangeType::Created),
        changed(path, FileChangeType::Changed),
        changed(path, FileChangeType::Deleted),
    ]);
    let pending = &mut state.clients[0].pending;
    assert_eq!(
        pending.iter().map(|event| event.typ).collect::<Vec<_>>(),
        [FileChangeType::Created, FileChangeType::Changed, FileChangeType::Deleted]
    );
    pending.clear();
    state.unregister(id, "all");
    state.register(id, 0, "new".into(), &registration("**/*.toml", None));
    state.unregister(id, "changes");
    let config = "/tmp/Cargo.toml";
    state.queue(&vec![
        changed(path, FileChangeType::Changed),
        changed(config, FileChangeType::Created),
    ]);
    assert_eq!(state.clients[0].pending.len(), 1);
    assert_eq!(state.clients[0].pending[0].uri, "file:///tmp/Cargo.toml");
}

#[test]
fn reregister_replaces_only_the_named_registration() {
    let mut state = State::new();
    let id = 0;
    state.register(id, 0, "first".into(), &registration("**/*.rs", None));
    state.register(id, 0, "second".into(), &registration("**/*.toml", None));
    state.register(id, 0, "first".into(), &registration("**/*.md", None));
    let changes: Vec<FileChange> = ["a.rs", "a.toml", "a.md"]
        .iter()
        .map(|name| changed(&format!("/tmp/{name}"), FileChangeType::Changed))
        .collect();
    state.queue(&changes);
    assert_eq!(state.clients[0].pending.len(), 2);
}

#[test]
fn relative_patterns_escape_the_base_and_obey_directory_boundaries() {
    let base = "/tmp/project[1]";
    let glob = watcher_glob(&GlobPattern::Relative {
        base: Some(format!("{base}/")),
        pattern: "*.rs".into(),
    })
    .unwrap()
    .compile_matcher();
    assert!(glob.is_match(format!("{base}/a.rs")));
    assert!(!glob.is_match(format!("{base}/nested/a.rs")));
    assert!(!glob.is_match("/tmp/project1/a.rs"));
}

#[test]
fn patterns_that_cannot_be_used_are_refused() {
    let whole = GlobPattern::Whole("a[".into());
    assert_eq!(watcher_glob(&whole).err(), Some(WatcherError::Malformed));
    let relative = GlobPattern::Relative { base: None, pattern: "*.rs".into() };
    assert_eq!(watcher_glob(&relative).err(), Some(WatcherError::InvalidBase));
}

#[test]
fn a_change_reaches_a_server_once_per_batch() {
    let mut state = State::new();
    state.register(7, 70, "a".into(), &registration("**/*.rs", None));
    state.register(7, 70, "b".into(), &registration("/tmp/*", None));
    state.register(8, 80, "c".into(), &registration("**/*.md", None));
    let batch = vec![
        changed("/tmp/x.rs", FileChangeType::Changed),
        changed("/tmp/x.rs", FileChangeType::Changed),
        changed("/tmp/y.rs", FileChangeType::Created),
    ];
    let sent = state.notify(&batch, &vec![70, 80]);
    assert_eq!(sent.len(), 1);
    assert_eq!(sent[0].0, 7);
    let uris: Vec<&str> = sent[0].1.iter().map(|event| event.uri.as_str()).collect();
    assert_eq!(uris, ["file:///tmp/x.rs", "file:///tmp/y.rs"]);
}

#[test]
fn events_are_handled_in_turn() {
    let mut state = State::new();
    let register = Event::Register {
        id: 7,
        client: 70,
        name: "a".into(),
        watchers: registration("**/*.rs", None),
    };
    assert!(state.handle(register, &vec![70]).is_empty());
    let change = || Event::FilesChanged(vec![changed("/tmp/x.rs", FileChangeType::Changed)]);
    assert_eq!(state.handle(change(), &vec![70]).len(), 1);
    state.handle(Event::Unregister { id: 7, name: "other".into() }, &vec![70]);
    assert_eq!(state.handle(change(), &vec![70]).len(), 1);
    state.handle(Event::RemoveClient { id: 7 }, &vec![70]);
    assert!(state.handle(change(), &vec![70]).is_empty());
}

#[test]
fn kinds_name_changes() {
    assert!(WatchKind::all().contains(FileChangeType::Deleted));
    assert!(!CHANGE.contains(FileChangeType::Created));
    assert!(!CHANGE.is_empty());
    assert!(!WatchKind::all().contains(FileChangeType::Other(9)));
    assert!(WatchKind { create: false, change: false, delete: false }.is_empty());
}
