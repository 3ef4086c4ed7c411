//! The configuration: where its parts come from, and what wins.

use crate::commands::catalog::same_text;
use crate::custom_commands::{without_colon, CustomCommand, CustomCommands};
use crate::strings::{
    ascending, comes_before, is_before, lemma_comes_before_total, lemma_comes_before_transitive,
    to_chars,
};
use vstd::prelude::*;

verus! {

/// When the Kitty keyboard protocol is used.
#[derive(Clone, Copy, Debug, PartialEq, Eq, Structural)]
pub enum KittyKeyboardProtocolConfig {
    Auto,
    Disabled,
    Enabled,
}

/// Overrides of what the terminal is found to be able to do. Their keys stand among those of the
/// editor.
#[derive(Clone, Copy, Debug, PartialEq, Eq, Structural)]
pub struct TerminalConfig {
    /// True colour is supported, whatever is found.
    pub true_color: bool,
    /// Extended underlines are supported, whatever is found.
    pub undercurl: bool,
    pub kitty_keyboard_protocol: KittyKeyboardProtocolConfig,
}

impl Default for TerminalConfig {
    fn default() -> (c: TerminalConfig)
        ensures
            c == (TerminalConfig {
                true_color: false,
                undercurl: false,
                kitty_keyboard_protocol: KittyKeyboardProtocolConfig::Auto,
            }),
    {
        TerminalConfig {
            true_color: false,
            undercurl: false,
            kitty_keyboard_protocol: KittyKeyboardProtocolConfig::Auto,
        }
    }
}

/// A key of the editor's table that belongs to the terminal.
pub open spec fn terminal_key(key: Seq<char>) -> bool {
    key == "true-color"@ || key == "undercurl"@ || key == "kitty-keyboard-protocol"@
}

/// Whether a key of the editor's table belongs to the terminal.
pub fn is_terminal_key(key: &str) -> (b: bool)
    ensures
        b == terminal_key(key@),
{
    same_text(key, "true-color") || same_text(key, "undercurl") || same_text(
        key,
        "kitty-keyboard-protocol",
    )
}

/// The first `n` entries whose keys belong to the terminal, or those whose keys do not.
pub open spec fn entries_of<V>(entries: Seq<(String, V)>, terminal: bool, n: nat) -> Seq<(String, V)>
    decreases n,
{
    if n == 0 {
        Seq::empty()
    } else {
        let before = entries_of(entries, terminal, (n - 1) as nat);
        if terminal_key(entries[n - 1].0@) == terminal {
            before.push(entries[n - 1])
        } else {
            before
        }
    }
}

/// Parts the editor's table: the settings of the editor, and those of the terminal. Each part is
/// read by itself, so that neither accepts a key that it does not know.
pub fn partition_settings<V>(entries: Vec<(String, V)>) -> (parts: (Vec<(String, V)>, Vec<(String, V)>))
    ensures
        parts.0@ == entries_of(entries@, false, entries@.len()),
        parts.1@ == entries_of(entries@, true, entries@.len()),
{
    let ghost all = entries@;
    let mut left = entries;
    let mut editor: Vec<(String, V)> = Vec::new();
    let mut terminal: Vec<(String, V)> = Vec::new();
    let ghost mut i: nat = 0;
    assert(all.skip(0) =~= all);
    while left.len() > 0
        invariant
            i <= all.len(),
            left@ == all.skip(i as int),
            editor@ == entries_of(all, false, i),
            terminal@ == entries_of(all, true, i),
        decreases left.len(),
    {
        let e = left.remove(0);
        assert(e == all[i as int]);
        assert(left@ =~= all.skip(i as int + 1));
        if is_terminal_key(e.0.as_str()) {
            terminal.push(e);
        } else {
            editor.push(e);
        }
        proof {
            i = i + 1;
        }
    }
    (editor, terminal)
}

/// Every setting of the editor's table belongs to one of the two parts, and to no other.
pub proof fn settings_are_parted<V>(entries: Seq<(String, V)>, n: nat)
    requires
        n <= entries.len(),
    ensures
        entries_of(entries, false, n).len() + entries_of(entries, true, n).len() == n,
        forall|k: int|
            0 <= k < entries_of(entries, true, n).len() ==> terminal_key(
                (#[trigger] entries_of(entries, true, n)[k]).0@,
            ),
        forall|k: int|
            0 <= k < entries_of(entries, false, n).len() ==> !terminal_key(
                (#[trigger] entries_of(entries, false, n)[k]).0@,
            ),
    decreases n,
{
    if n > 0 {
        settings_are_parted(entries, (n - 1) as nat);
        assert forall|k: int| 0 <= k < entries_of(entries, true, n).len() implies terminal_key(
            (#[trigger] entries_of(entries, true, n)[k]).0@,
        ) by {
            let before = entries_of(entries, true, (n - 1) as nat);
            if k < before.len() {
                assert(entries_of(entries, true, n)[k] == before[k]);
            }
        }
        assert forall|k: int| 0 <= k < entries_of(entries, false, n).len() implies !terminal_key(
            (#[trigger] entries_of(entries, false, n)[k]).0@,
        ) by {
            let before = entries_of(entries, false, (n - 1) as nat);
            if k < before.len() {
                assert(entries_of(entries, false, n)[k] == before[k]);
            }
        }
    }
}

/// The custom commands of a configuration file, in the order of their names.
pub struct Commands {
    pub entries: Vec<(String, CustomCommand)>,
}

/// The names of custom commands as they are written.
pub open spec fn written_names(entries: Seq<(String, CustomCommand)>) -> Seq<Seq<char>> {
    entries.map_values(|e: (String, CustomCommand)| e.0@)
}

/// Where a name stands.
pub open spec fn name_place(entries: Seq<(String, CustomCommand)>, name: Seq<char>) -> int {
    choose|k: int| 0 <= k < entries.len() && #[trigger] written_names(entries)[k] == name
}

/// What each name stands for.
pub open spec fn by_name(entries: Seq<(String, CustomCommand)>) -> Map<Seq<char>, CustomCommand> {
    Map::new(
        |name: Seq<char>| written_names(entries).contains(name),
        |name: Seq<char>| entries[name_place(entries, name)].1,
    )
}

/// In a list that names no command twice, a name stands where it is found.
proof fn lemma_name_place(entries: Seq<(String, CustomCommand)>, k: int)
    requires
        ascending(written_names(entries)),
        0 <= k < entries.len(),
    ensures
        written_names(entries).contains(entries[k].0@),
        name_place(entries, entries[k].0@) == k,
        by_name(entries).dom().contains(entries[k].0@),
        by_name(entries)[entries[k].0@] == entries[k].1,
{
    let names = written_names(entries);
    assert(names[k] == entries[k].0@);
    let p = name_place(entries, entries[k].0@);
    lemma_comes_before_total(names[k], names[k]);
    if p < k {
        assert(comes_before(names[p], names[k]));
    } else if p > k {
        assert(comes_before(names[k], names[p]));
    }
}

/// What a name stands for is found where it stands.
proof fn lemma_found(entries: Seq<(String, CustomCommand)>, name: Seq<char>) -> (k: int)
    requires
        by_name(entries).dom().contains(name),
    ensures
        0 <= k < entries.len(),
        entries[k].0@ == name,
        by_name(entries)[name] == entries[k].1,
{
    let names = written_names(entries);
    let j = choose|j: int| 0 <= j < names.len() && names[j] == name;
    assert(names[j] == name);
    let k = name_place(entries, name);
    assert(names[k] == entries[k].0@);
    k
}

proof fn lemma_insert_entry(
    before: Seq<(String, CustomCommand)>,
    after: Seq<(String, CustomCommand)>,
    at: int,
    e: (String, CustomCommand),
)
    requires
        ascending(written_names(before)),
        ascending(written_names(after)),
        0 <= at <= before.len(),
        after == before.insert(at, e) || (at < before.len() && before[at].0@ == e.0@ && after
            == before.update(at, e)),
    ensures
        by_name(after) == by_name(before).insert(e.0@, e.1),
{
    let wanted = by_name(before).insert(e.0@, e.1);
    assert forall|name: Seq<char>| #[trigger]
        by_name(after).dom().contains(name) <==> wanted.dom().contains(name) by {
        if by_name(after).dom().contains(name) {
            let k = lemma_found(after, name);
            if after == before.insert(at, e) {
                if k < at {
                    lemma_name_place(before, k);
                } else if k > at {
                    lemma_name_place(before, k - 1);
                }
            } else if k != at {
                lemma_name_place(before, k);
            }
        }
        if wanted.dom().contains(name) {
            lemma_name_place(after, at);
            if name != e.0@ {
                let k = lemma_found(before, name);
                if after == before.insert(at, e) {
                    if k < at {
                        lemma_name_place(after, k);
                    } else {
                        lemma_name_place(after, k + 1);
                    }
                } else {
                    lemma_name_place(after, k);
                }
            }
        }
    }
    assert forall|name: Seq<char>| #[trigger] by_name(after).dom().contains(name) implies by_name(
        after,
    )[name] == wanted[name] by {
        let k = lemma_found(after, name);
        lemma_name_place(after, at);
        if k != at {
            let j = if after == before.insert(at, e) && k > at {
                k - 1
            } else {
                k
            };
            lemma_name_place(before, j);
            if name == e.0@ {
                lemma_name_place(after, k);
            }
        }
    }
    assert(by_name(after) =~= wanted);
}

proof fn lemma_first_entry(entries: Seq<(String, CustomCommand)>)
    requires
        ascending(written_names(entries)),
        entries.len() > 0,
    ensures
        ascending(written_names(entries.skip(1))),
        by_name(entries) == by_name(entries.skip(1)).insert(entries[0].0@, entries[0].1),
{
    let rest = entries.skip(1);
    assert(written_names(rest) =~= written_names(entries).skip(1));
    assert(entries =~= rest.insert(0, entries[0]));
    lemma_insert_entry(rest, entries, 0, entries[0]);
}

impl Commands {
    /// The names stand in order, each once.
    pub open spec fn wf(&self) -> bool {
        ascending(written_names(self.entries@))
    }

    /// What each name stands for.
    pub open spec fn meaning(&self) -> Map<Seq<char>, CustomCommand> {
        by_name(self.entries@)
    }

    /// No commands.
    pub fn new() -> (c: Commands)
        ensures
            c.wf(),
            c.meaning() == Map::<Seq<char>, CustomCommand>::empty(),
    {
        let c = Commands { entries: Vec::new() };
        assert(c.meaning() =~= Map::<Seq<char>, CustomCommand>::empty()) by {
            assert forall|name: Seq<char>| !#[trigger] c.meaning().dom().contains(name) by {
                if c.meaning().dom().contains(name) {
                    let k = lemma_found(c.entries@, name);
                }
            }
        }
        c
    }

    /// Adds a command; one of the same name is replaced.
    pub fn insert(&mut self, name: String, command: CustomCommand)
        requires
            old(self).wf(),
        ensures
            final(self).wf(),
            final(self).meaning() == old(self).meaning().insert(name@, command),
    {
        let chars = to_chars(name.as_str());
        let ghost before = self.entries@;
        let ghost names = written_names(before);
        let mut at: usize = 0;
        while at < self.entries.len() && is_before(
            &to_chars(self.entries[at].0.as_str()),
            &chars,
        )
            invariant
                at <= self.entries@.len(),
                self.entries@ == before,
                names == written_names(before),
                chars@ == name@,
                forall|k: int| 0 <= k < at ==> comes_before(#[trigger] names[k], name@),
            decreases self.entries.len() - at,
        {
            assert(names[at as int] == before[at as int].0@);
            at += 1;
        }
        let replaces: bool = at < self.entries.len() && !is_before(
            &chars,
            &to_chars(self.entries[at].0.as_str()),
        );
        proof {
            if at < before.len() {
                assert(names[at as int] == before[at as int].0@);
                lemma_comes_before_total(names[at as int], name@);
            }
        }
        let ghost e = (name, command);
        if replaces {
            self.entries.set(at, (name, command));
            assert(written_names(self.entries@) =~= names);
        } else {
            self.entries.insert(at, (name, command));
            proof {
                let after = written_names(self.entries@);
                assert(after =~= names.insert(at as int, name@));
                assert forall|i: int, j: int| 0 <= i < j < after.len() implies comes_before(
                    #[trigger] after[i],
                    #[trigger] after[j],
                ) by {
                    if j < at {
                        assert(comes_before(names[i], names[j]));
                    } else if j == at {
                        assert(comes_before(names[i], name@));
                    } else if i > at {
                        assert(comes_before(names[i - 1], names[j - 1]));
                    } else {
                        if j - 1 > at {
                            assert(comes_before(names[at as int], names[j - 1]));
                            lemma_comes_before_transitive(name@, names[at as int], names[j - 1]);
                        }
                        if i < at {
                            assert(comes_before(names[i], name@));
                            lemma_comes_before_transitive(names[i], name@, names[j - 1]);
                        }
                    }
                }
            }
        }
        proof {
            lemma_insert_entry(before, self.entries@, at as int, e);
        }
    }

    /// Adds the commands of another file; its commands win.
    pub fn merge(&mut self, other: Commands)
        requires
            old(self).wf(),
            other.wf(),
        ensures
            final(self).wf(),
            final(self).meaning() == old(self).meaning().union_prefer_right(other.meaning()),
    {
        let ghost all = other.entries@;
        let mut left = other.entries;
        let ghost whole = self.meaning().union_prefer_right(by_name(all));
        while left.len() > 0
            invariant
                self.wf(),
                ascending(written_names(left@)),
                self.meaning().union_prefer_right(by_name(left@)) == whole,
            decreases left.len(),
        {
            let ghost before = self.meaning();
            let ghost rest = left@.skip(1);
            let ghost first = left@[0];
            proof {
                lemma_first_entry(left@);
                lemma_name_place(left@, 0);
                assert(!by_name(rest).dom().contains(first.0@)) by {
                    if by_name(rest).dom().contains(first.0@) {
                        let k = lemma_found(rest, first.0@);
                        lemma_name_place(left@, k + 1);
                    }
                }
            }
            let e = left.remove(0);
            assert(left@ =~= rest);
            self.insert(e.0, e.1);
            assert(before.insert(first.0@, first.1).union_prefer_right(by_name(rest))
                =~= before.union_prefer_right(by_name(rest).insert(first.0@, first.1)));
        }
        proof {
            let none = by_name(left@);
            assert forall|name: Seq<char>| !#[trigger] none.dom().contains(name) by {
                if none.dom().contains(name) {
                    let k = lemma_found(left@, name);
                }
            }
            assert(self.meaning().union_prefer_right(none) =~= self.meaning());
        }
    }

    /// The commands, each under its name.
    pub fn into_custom_commands(self) -> (commands: CustomCommands)
        ensures
            commands.commands@.len() == self.entries@.len(),
            forall|i: int|
                0 <= i < self.entries@.len() ==> is_named(
                    #[trigger] commands.commands@[i],
                    self.entries@[i],
                ),
    {
        let ghost all = self.entries@;
        let mut left = self.entries;
        let mut commands: Vec<CustomCommand> = Vec::new();
        let ghost mut i: int = 0;
        assert(all.skip(0) =~= all);
        while left.len() > 0
            invariant
                0 <= i <= all.len(),
                left@ == all.skip(i),
                commands@.len() == i,
                forall|k: int| 0 <= k < i ==> is_named(#[trigger] commands@[k], all[k]),
            decreases left.len(),
        {
            let e = left.remove(0);
            assert(e == all[i]);
            assert(left@ =~= all.skip(i + 1));
            let c = e.1.named(e.0.as_str());
            commands.push(c);
            proof {
                i = i + 1;
            }
        }
        CustomCommands { commands }
    }
}

/// The command, under the name it is written with.
pub open spec fn is_named(c: CustomCommand, entry: (String, CustomCommand)) -> bool {
    &&& c.name@ == without_colon(entry.0@)
    &&& c.hidden == !(entry.0@.len() > 0 && entry.0@[0] == ':')
    &&& c.description == entry.1.description
    &&& c.commands == entry.1.commands
    &&& c.accepts == entry.1.accepts
    &&& c.completer == entry.1.completer
}

/// Commands of the workspace override those of the user that have the same name, and leave the
/// others.
pub proof fn local_commands_override(
    global: Map<Seq<char>, CustomCommand>,
    local: Map<Seq<char>, CustomCommand>,
    name: Seq<char>,
)
    ensures
        ({
            let merged = global.union_prefer_right(local);
            &&& local.dom().contains(name) ==> merged.dom().contains(name) && merged[name]
                == local[name]
            &&& !local.dom().contains(name) && global.dom().contains(name) ==> merged.dom().contains(
                name,
            ) && merged[name] == global[name]
            &&& merged.dom().contains(name) ==> local.dom().contains(name) || global.dom().contains(
                name,
            )
        }),
{
}

/// Why a configuration could not be loaded: a file that makes no sense, or one that could not be
/// read.
pub enum ConfigLoadError {
    BadConfig(String),
    Error(String),
}

impl Default for ConfigLoadError {
    /// A file that was not found.
    fn default() -> (e: Self)
        ensures
            e matches ConfigLoadError::Error(m) && m@ == "place holder"@,
    {
        ConfigLoadError::Error(String::from_str("place holder"))
    }
}

impl ConfigLoadError {
    /// The error as it is shown.
    pub open spec fn text(&self) -> Seq<char> {
        match self {
            ConfigLoadError::BadConfig(m) => m@,
            ConfigLoadError::Error(m) => m@,
        }
    }

    /// The error as it is shown.
    pub fn message(&self) -> (m: &str)
        ensures
            m@ == self.text(),
    {
        match self {
            ConfigLoadError::BadConfig(m) => m.as_str(),
            ConfigLoadError::Error(m) => m.as_str(),
        }
    }
}

/// A configuration file: a theme, key bindings, the editor's table and custom commands.
pub struct ConfigRaw<T, K, V> {
    pub theme: Option<T>,
    pub keys: Option<K>,
    pub editor: Option<V>,
    pub commands: Option<Commands>,
}

/// The editor's settings.
pub enum EditorSource<V> {
    /// Neither file has any.
    Default,
    /// One file has them.
    One(V),
    /// Both have them: the second is laid over the first.
    Merged(V, V),
}

/// A configuration put together from files. The key bindings are laid over the defaults, one after
/// the other.
pub struct Config<T, K, V> {
    pub theme: Option<T>,
    pub keys: Vec<K>,
    pub editor: EditorSource<V>,
    pub commands: Option<Commands>,
}

/// What one file has, laid over nothing.
pub open spec fn is_from<T, K, V>(c: Config<T, K, V>, raw: ConfigRaw<T, K, V>) -> bool {
    &&& c.theme == raw.theme
    &&& c.keys@ == match raw.keys {
        Some(k) => seq![k],
        None => Seq::empty(),
    }
    &&& c.editor == match raw.editor {
        Some(v) => EditorSource::One(v),
        None => EditorSource::Default,
    }
    &&& c.commands == raw.commands
}

/// The custom commands of two files.
pub open spec fn merged_commands(
    merged: Option<Commands>,
    global: Option<Commands>,
    local: Option<Commands>,
) -> bool {
    match (global, local) {
        (Some(g), Some(l)) => merged matches Some(m) && m.wf() && m.meaning()
            == g.meaning().union_prefer_right(l.meaning()),
        (Some(g), None) => merged == Some(g),
        (None, l) => merged == l,
    }
}

/// What two files have, the second laid over the first.
pub open spec fn is_merged<T, K, V>(
    c: Config<T, K, V>,
    global: ConfigRaw<T, K, V>,
    local: ConfigRaw<T, K, V>,
) -> bool {
    &&& c.theme == match local.theme {
        Some(t) => Some(t),
        None => global.theme,
    }
    &&& c.keys@ == (match global.keys {
        Some(k) => seq![k],
        None => Seq::empty(),
    }) + (match local.keys {
        Some(k) => seq![k],
        None => Seq::empty(),
    })
    &&& c.editor == match (global.editor, local.editor) {
        (None, None) => EditorSource::Default,
        (None, Some(v)) => EditorSource::One(v),
        (Some(v), None) => EditorSource::One(v),
        (Some(g), Some(l)) => EditorSource::Merged(g, l),
    }
    &&& merged_commands(c.commands, global.commands, local.commands)
}

/// The commands of a file are in order.
pub open spec fn raw_wf<T, K, V>(raw: Result<ConfigRaw<T, K, V>, ConfigLoadError>) -> bool {
    raw matches Ok(c) ==> (c.commands matches Some(m) ==> m.wf())
}

fn merge_raw<T, K, V>(global: ConfigRaw<T, K, V>, local: ConfigRaw<T, K, V>) -> (c: Config<T, K, V>)
    requires
        global.commands matches Some(m) ==> m.wf(),
        local.commands matches Some(m) ==> m.wf(),
    ensures
        is_merged(c, global, local),
{
    let mut keys: Vec<K> = Vec::new();
    match global.keys {
        Some(k) => {
            keys.push(k);
        },
        None => {},
    }
    match local.keys {
        Some(k) => {
            keys.push(k);
        },
        None => {},
    }
    assert(keys@ =~= (match global.keys {
        Some(k) => seq![k],
        None => Seq::empty(),
    }) + (match local.keys {
        Some(k) => seq![k],
        None => Seq::empty(),
    }));
    let editor = match global.editor {
        None => match local.editor {
            None => EditorSource::Default,
            Some(v) => EditorSource::One(v),
        },
        Some(g) => match local.editor {
            None => EditorSource::One(g),
            Some(l) => EditorSource::Merged(g, l),
        },
    };
    let commands = match global.commands {
        None => local.commands,
        Some(g) => match local.commands {
            None => Some(g),
            Some(l) => {
                let mut all = g;
                all.merge(l);
                Some(all)
            },
        },
    };
    let theme = match local.theme {
        Some(t) => Some(t),
        None => global.theme,
    };
    Config { theme, keys, editor, commands }
}

fn single_raw<T, K, V>(raw: ConfigRaw<T, K, V>) -> (c: Config<T, K, V>)
    ensures
        is_from(c, raw),
{
    let mut keys: Vec<K> = Vec::new();
    match raw.keys {
        Some(k) => {
            keys.push(k);
        },
        None => {},
    }
    assert(keys@ =~= match raw.keys {
        Some(k) => seq![k],
        None => Seq::empty(),
    });
    let editor = match raw.editor {
        Some(v) => EditorSource::One(v),
        None => EditorSource::Default,
    };
    Config { theme: raw.theme, keys, editor, commands: raw.commands }
}

impl<T, K, V> Config<T, K, V> {
    /// Puts the configuration together. A file that makes no sense is an error, that of the
    /// workspace first. One that could not be read is passed over as long as the other could be;
    /// else the error is that of the user's file.
    pub fn load(
        global: Result<ConfigRaw<T, K, V>, ConfigLoadError>,
        local: Result<ConfigRaw<T, K, V>, ConfigLoadError>,
    ) -> (config: Result<Config<T, K, V>, ConfigLoadError>)
        requires
            raw_wf(global),
            raw_wf(local),
        ensures
            match (global, local) {
                (_, Err(ConfigLoadError::BadConfig(m))) => config == Err::<Config<T, K, V>, _>(
                    ConfigLoadError::BadConfig(m),
                ),
                (Err(ConfigLoadError::BadConfig(m)), _) => config == Err::<Config<T, K, V>, _>(
                    ConfigLoadError::BadConfig(m),
                ),
                (Ok(g), Ok(l)) => config matches Ok(c) && is_merged(c, g, l),
                (Ok(g), Err(_)) => config matches Ok(c) && is_from(c, g),
                (Err(_), Ok(l)) => config matches Ok(c) && is_from(c, l),
                (Err(e), Err(_)) => config == Err::<Config<T, K, V>, _>(e),
            },
    {
        match local {
            Err(ConfigLoadError::BadConfig(m)) => Err(ConfigLoadError::BadConfig(m)),
            Err(ConfigLoadError::Error(_)) => match global {
                Err(e) => Err(e),
                Ok(g) => Ok(single_raw(g)),
            },
            Ok(l) => match global {
                Err(ConfigLoadError::BadConfig(m)) => Err(ConfigLoadError::BadConfig(m)),
                Err(ConfigLoadError::Error(_)) => Ok(single_raw(l)),
                Ok(g) => Ok(merge_raw(g, l)),
            },
        }
    }
}

/// The settings of the editor, with those that say which workspaces are trusted.
pub struct Settings<W, R> {
    pub workspace_trust: W,
    pub rest: R,
}

/// The settings that hold: those of the user, or, in a trusted workspace, those merged with its
/// own. Which workspaces are trusted is always the user's to say.
pub fn pin_trust<W, R>(global: Settings<W, R>, trusted: Option<Settings<W, R>>) -> (s: Settings<W, R>)
    ensures
        s.workspace_trust == global.workspace_trust,
        s.rest == match trusted {
            Some(merged) => merged.rest,
            None => global.rest,
        },
{
    match trusted {
        Some(merged) => Settings { workspace_trust: global.workspace_trust, rest: merged.rest },
        None => global,
    }
}

/// A file that says nothing changes nothing, whether it is the user's or the workspace's. Where
/// both say something the workspace's theme holds, and its keys come last.
pub proof fn the_workspace_is_laid_over_the_user<T, K, V>(
    c: Config<T, K, V>,
    global: ConfigRaw<T, K, V>,
    local: ConfigRaw<T, K, V>,
)
    requires
        is_merged(c, global, local),
    ensures
        global.theme is None && global.keys is None && global.editor is None
            && global.commands is None ==> is_from(c, local),
        local.theme is None && local.keys is None && local.editor is None && local.commands is None
            ==> is_from(c, global),
        local.theme is Some ==> c.theme == local.theme,
        local.keys matches Some(k) ==> c.keys@.len() > 0 && c.keys@.last() == k,
        global.keys matches Some(k) ==> c.keys@.len() > 0 && c.keys@[0] == k,
        local.commands matches Some(l) ==> (c.commands matches Some(m) && forall|name: Seq<char>|
            l.meaning().dom().contains(name) ==> m.meaning().dom().contains(name)
                && #[trigger] m.meaning()[name] == l.meaning()[name]),
{
}

/// A command is listed under its name without the colon; it is hidden unless it is written with
/// one.
pub proof fn commands_without_a_colon_are_hidden(
    c: CustomCommand,
    written: String,
    command: CustomCommand,
    name: Seq<char>,
)
    requires
        is_named(c, (written, command)),
    ensures
        written@ == seq![':'] + name ==> c.name@ == name && !c.hidden,
        written@.len() == 0 || written@[0] != ':' ==> c.name@ == written@ && c.hidden,
        c.commands == command.commands,
{
    crate::custom_commands::colons_are_dropped_once(name);
    crate::custom_commands::colons_are_dropped_once(written@);
}

} // verus!
