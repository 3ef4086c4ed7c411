//! Which language servers hear of which changes to files.
//!
//! A server registers patterns of paths under a name. A change is queued once for every server
//! that has a pattern for it, however many of its registrations match.

use vstd::prelude::*;

verus! {

/// A pattern of paths of `globset`.
#[verifier::external_type_specification]
#[verifier::external_body]
pub struct ExGlob(globset::Glob);

/// Patterns of `globset` that are matched together.
#[verifier::external_type_specification]
#[verifier::external_body]
pub struct ExGlobSet(globset::GlobSet);

/// The error of `globset` for a malformed pattern.
#[verifier::external_type_specification]
#[verifier::external_body]
pub struct ExGlobError(globset::Error);

/// The text that a pattern was built from.
pub uninterp spec fn glob_source(glob: globset::Glob) -> Seq<char>;

/// Whether `globset` builds a pattern from a text, with separators that only match themselves.
pub uninterp spec fn glob_compiles(pattern: Seq<char>) -> bool;

/// Whether such a pattern matches a path.
pub uninterp spec fn glob_matches(pattern: Seq<char>, path: Seq<char>) -> bool;

/// The texts of the patterns in a set.
pub uninterp spec fn globs_in(set: globset::GlobSet) -> Seq<Seq<char>>;

/// Whether `globset` builds a set from patterns with these texts.
pub uninterp spec fn set_builds(patterns: Seq<Seq<char>>) -> bool;

/// `globset::GlobBuilder::build`, on a builder for which `literal_separator` was set to `true`:
/// builds a pattern, or tells that it is malformed.
#[verifier::external_body]
fn build_glob(pattern: &str) -> (built: Result<globset::Glob, globset::Error>)
    ensures
        built is Ok <==> glob_compiles(pattern@),
        built matches Ok(glob) ==> glob_source(glob) == pattern@,
{
    globset::GlobBuilder::new(pattern).literal_separator(true).build()
}

/// `globset::GlobSet::new`: puts patterns together, numbered in their order. It fails when they
/// are too large to be compiled together.
#[verifier::external_body]
fn build_set(globs: &Vec<&globset::Glob>) -> (built: Result<globset::GlobSet, globset::Error>)
    ensures
        built is Ok <==> set_builds(globs@.map_values(|g: &globset::Glob| glob_source(*g))),
        built matches Ok(set) ==> globs_in(set) == globs@.map_values(
            |g: &globset::Glob| glob_source(*g),
        ),
{
    globset::GlobSet::new(globs)
}

/// `globset::GlobSet::empty`: a set without patterns.
#[verifier::external_body]
fn empty_set() -> (made: globset::GlobSet)
    ensures
        globs_in(made) == Seq::<Seq<char>>::empty(),
{
    globset::GlobSet::empty()
}

/// Each number is greater than the ones before it.
pub open spec fn rising(numbers: Seq<usize>) -> bool {
    forall|a: int, b: int| 0 <= a < b < numbers.len() ==> numbers[a] < numbers[b]
}

/// `globset::GlobSet::matches_into`: the numbers of the patterns that match a path, in ascending order.
#[verifier::external_body]
fn set_matches(set: &globset::GlobSet, path: &str) -> (found: Vec<usize>)
    ensures
        rising(found@),
        (forall|k: usize| #[trigger]
            found@.contains(k) <==> (k < globs_in(*set).len() && glob_matches(
                globs_in(*set)[k as int],
                path@,
            ))),
{
    let mut found: Vec<usize> = Vec::new();
    set.matches_into(path, &mut found);
    found
}

/// The characters that mean something in a pattern.
pub open spec fn glob_meta(c: char) -> bool {
    c == '?' || c == '*' || c == '[' || c == ']' || c == '{' || c == '}'
}

/// A pattern for the text `s` itself: every character that would mean something else stands in
/// brackets.
pub open spec fn glob_escaped(s: Seq<char>) -> Seq<char>
    decreases s.len(),
{
    if s.len() == 0 {
        s
    } else if glob_meta(s.last()) {
        glob_escaped(s.drop_last()).push('[').push(s.last()).push(']')
    } else {
        glob_escaped(s.drop_last()).push(s.last())
    }
}

/// `globset::escape`: puts every character that means something in a pattern in brackets.
#[verifier::external_body]
fn escape(text: &str) -> (out: String)
    ensures
        out@ == glob_escaped(text@),
{
    globset::escape(text)
}

/// Kinds of changes that a server hears of.
#[derive(Clone, Copy, Debug, PartialEq, Eq, Structural)]
pub struct WatchKind {
    pub create: bool,
    pub change: bool,
    pub delete: bool,
}

/// What happened to a file. A server may name kinds that this crate does not know.
#[derive(Clone, Copy, Debug, PartialEq, Eq, Structural)]
pub enum FileChangeType {
    Created,
    Changed,
    Deleted,
    Other(i32),
}

impl WatchKind {
    /// Every kind of change.
    pub open spec fn every() -> WatchKind {
        WatchKind { create: true, change: true, delete: true }
    }

    /// Changes of this type are among the kinds.
    pub open spec fn covers(self, typ: FileChangeType) -> bool {
        match typ {
            FileChangeType::Created => self.create,
            FileChangeType::Changed => self.change,
            FileChangeType::Deleted => self.delete,
            FileChangeType::Other(_) => false,
        }
    }

    pub open spec fn empty(self) -> bool {
        !self.create && !self.change && !self.delete
    }

    /// Every kind of change.
    pub fn all() -> (kind: WatchKind)
        ensures
            kind == WatchKind::every(),
    {
        WatchKind { create: true, change: true, delete: true }
    }

    pub fn is_empty(&self) -> (b: bool)
        ensures
            b == self.empty(),
    {
        !self.create && !self.change && !self.delete
    }

    /// Whether changes of this type are among the kinds.
    pub fn contains(&self, typ: FileChangeType) -> (b: bool)
        ensures
            b == self.covers(typ),
    {
        match typ {
            FileChangeType::Created => self.create,
            FileChangeType::Changed => self.change,
            FileChangeType::Deleted => self.delete,
            FileChangeType::Other(_) => false,
        }
    }
}

/// The paths that a watcher is for.
pub enum GlobPattern {
    /// A pattern.
    Whole(String),
    /// A pattern below a directory; there is no directory when the server did not name one whose
    /// path is text.
    Relative { base: Option<String>, pattern: String },
}

/// Why a watcher has no pattern.
#[derive(Clone, Copy, Debug, PartialEq, Eq, Structural)]
pub enum WatcherError {
    InvalidBase,
    Malformed,
}

/// `s` without the slashes that it ends with.
pub open spec fn without_slashes(s: Seq<char>) -> Seq<char>
    decreases s.len(),
{
    if s.len() > 0 && s.last() == '/' {
        without_slashes(s.drop_last())
    } else {
        s
    }
}

/// The text of a watcher's pattern. A directory is taken literally, even when its path holds
/// characters that mean something in a pattern.
pub open spec fn pattern_text(pattern: GlobPattern) -> Option<Seq<char>> {
    match pattern {
        GlobPattern::Whole(text) => Some(text@),
        GlobPattern::Relative { base, pattern } => match base {
            Some(base) => Some(glob_escaped(without_slashes(base@)).push('/') + pattern@),
            None => None,
        },
    }
}

/// Drops the slashes that a path ends with.
fn trim_slashes(path: &str) -> (out: String)
    ensures
        out@ == without_slashes(path@),
{
    let mut chars = crate::strings::to_chars(path);
    while chars.len() > 0 && chars[chars.len() - 1] == '/'
        invariant
            without_slashes(path@) == without_slashes(chars@),
        decreases chars@.len(),
    {
        let ghost before = chars@;
        let dropped = chars.pop();
        assert(chars@ =~= before.drop_last());
    }
    crate::strings::from_chars(&chars)
}

/// Builds the pattern of a watcher.
pub fn watcher_glob(pattern: &GlobPattern) -> (built: Result<globset::Glob, WatcherError>)
    ensures
        match pattern_text(*pattern) {
            None => built matches Err(e) && e == WatcherError::InvalidBase,
            Some(text) => if glob_compiles(text) {
                built matches Ok(glob) && glob_source(glob) == text
            } else {
                built matches Err(e) && e == WatcherError::Malformed
            },
        },
{
    let text = match pattern {
        GlobPattern::Whole(text) => text.clone(),
        GlobPattern::Relative { base, pattern } => match base {
            Some(base) => {
                let mut text = escape(trim_slashes(base.as_str()).as_str());
                text.push('/');
                text.append(pattern.as_str());
                text
            },
            None => {
                return Err(WatcherError::InvalidBase);
            },
        },
    };
    match build_glob(text.as_str()) {
        Ok(glob) => Ok(glob),
        Err(_) => Err(WatcherError::Malformed),
    }
}

/// A pattern, and the kinds of changes that matter to paths that match it.
pub struct Watch {
    pub glob: globset::Glob,
    pub kind: WatchKind,
}

impl View for Watch {
    type V = (Seq<char>, WatchKind);

    open spec fn view(&self) -> (Seq<char>, WatchKind) {
        (glob_source(self.glob), self.kind)
    }
}

/// What a server asks to be watched.
pub struct Watcher {
    pub pattern: GlobPattern,
    pub kind: Option<WatchKind>,
}

/// The watches that watchers ask for: none for a watcher of no kind of change, nor for one without
/// a pattern.
pub open spec fn watches_of(watchers: Seq<Watcher>) -> Seq<(Seq<char>, WatchKind)>
    decreases watchers.len(),
{
    if watchers.len() == 0 {
        Seq::empty()
    } else {
        let before = watches_of(watchers.drop_last());
        let kind = match watchers.last().kind {
            Some(kind) => kind,
            None => WatchKind::every(),
        };
        match pattern_text(watchers.last().pattern) {
            Some(text) if !kind.empty() && glob_compiles(text) => before.push((text, kind)),
            _ => before,
        }
    }
}

/// What watches there are, as plain values.
pub open spec fn watch_views(watches: Seq<Watch>) -> Seq<(Seq<char>, WatchKind)> {
    watches.map_values(|w: Watch| w@)
}

/// Turns watchers into watches.
fn collect_watches(watchers: &Vec<Watcher>) -> (watches: Vec<Watch>)
    ensures
        watch_views(watches@) == watches_of(watchers@),
{
    let mut watches: Vec<Watch> = Vec::new();
    let mut i: usize = 0;
    assert(watchers@.take(0) =~= Seq::<Watcher>::empty());
    assert(watch_views(watches@) =~= watches_of(watchers@.take(0)));
    while i < watchers.len()
        invariant
            i <= watchers@.len(),
            watch_views(watches@) == watches_of(watchers@.take(i as int)),
        decreases watchers.len() - i,
    {
        assert(watchers@.take(i + 1).drop_last() =~= watchers@.take(i as int));
        assert(watchers@.take(i + 1).last() == watchers@[i as int]);
        let kind = match watchers[i].kind {
            Some(kind) => kind,
            None => WatchKind::all(),
        };
        if !kind.is_empty() {
            if let Ok(glob) = watcher_glob(&watchers[i].pattern) {
                let watch = Watch { glob, kind };
                assert(watch_views(watches@.push(watch)) =~= watch_views(watches@).push(watch@));
                watches.push(watch);
            }
        }
        i += 1;
    }
    assert(watchers@.take(i as int) =~= watchers@);
    watches
}

/// The watches that a server registered under a name.
pub struct Registration {
    pub name: String,
    pub watches: Vec<Watch>,
}

/// A change that a server is to hear of.
pub struct FileEvent {
    pub uri: String,
    pub typ: FileChangeType,
}

impl View for FileEvent {
    type V = (Seq<char>, FileChangeType);

    open spec fn view(&self) -> (Seq<char>, FileChangeType) {
        (self.uri@, self.typ)
    }
}

/// Changes, as plain values.
pub open spec fn event_views(events: Seq<FileEvent>) -> Seq<(Seq<char>, FileChangeType)> {
    events.map_values(|e: FileEvent| e@)
}

/// A server: which connection it is, what it registered, and the changes queued for it.
pub struct Client {
    pub id: u64,
    pub client: u64,
    pub registrations: Vec<Registration>,
    pub pending: Vec<FileEvent>,
}

/// The watches registered under a name.
pub open spec fn registered(registrations: Seq<Registration>, name: Seq<char>) -> Option<
    Seq<(Seq<char>, WatchKind)>,
>
    decreases registrations.len(),
{
    if registrations.len() == 0 {
        None
    } else if registrations.last().name@ == name {
        Some(watch_views(registrations.last().watches@))
    } else {
        registered(registrations.drop_last(), name)
    }
}

/// The server with an id.
pub open spec fn client_of(clients: Seq<Client>, id: u64) -> Option<Client>
    decreases clients.len(),
{
    if clients.len() == 0 {
        None
    } else if clients.last().id == id {
        Some(clients.last())
    } else {
        client_of(clients.drop_last(), id)
    }
}

/// No name is registered twice.
pub open spec fn distinct_names(registrations: Seq<Registration>) -> bool {
    forall|i: int, j: int|
        0 <= i < j < registrations.len() ==> (#[trigger] registrations[i]).name@ != (
        #[trigger] registrations[j]).name@
}

/// The watches of registrations, one after the other.
pub open spec fn flat_watches(registrations: Seq<Registration>) -> Seq<(Seq<char>, WatchKind)>
    decreases registrations.len(),
{
    if registrations.len() == 0 {
        Seq::empty()
    } else {
        flat_watches(registrations.drop_last()) + watch_views(registrations.last().watches@)
    }
}

/// A watch of one of some servers.
pub struct Interest {
    pub id: u64,
    pub pattern: Seq<char>,
    pub kind: WatchKind,
}

/// The watches of one server.
pub open spec fn interests_of(id: u64, watches: Seq<(Seq<char>, WatchKind)>) -> Seq<Interest> {
    watches.map_values(|w: (Seq<char>, WatchKind)| Interest { id, pattern: w.0, kind: w.1 })
}

/// The watches of all servers, one after the other.
pub open spec fn all_interests(clients: Seq<Client>) -> Seq<Interest>
    decreases clients.len(),
{
    if clients.len() == 0 {
        Seq::empty()
    } else {
        all_interests(clients.drop_last()) + interests_of(
            clients.last().id,
            flat_watches(clients.last().registrations@),
        )
    }
}

/// The patterns of watches.
pub open spec fn patterns_of(interests: Seq<Interest>) -> Seq<Seq<char>> {
    interests.map_values(|i: Interest| i.pattern)
}

/// Whose the watches are, and for which kinds of changes.
pub open spec fn kinds_of(interests: Seq<Interest>) -> Seq<(u64, WatchKind)> {
    interests.map_values(|i: Interest| (i.id, i.kind))
}

/// A registration of the server is for changes of this type to this path.
pub open spec fn watches_path(client: Client, path: Seq<char>, typ: FileChangeType) -> bool {
    exists|k: int|
        0 <= k < flat_watches(client.registrations@).len() && {
            let w = #[trigger] flat_watches(client.registrations@)[k];
            w.1.covers(typ) && glob_matches(w.0, path)
        }
}

/// No change is queued twice.
pub open spec fn no_repeats(events: Seq<(Seq<char>, FileChangeType)>) -> bool {
    forall|i: int, j: int| 0 <= i < j < events.len() ==> events[i] != events[j]
}

/// The servers other than `id` are the same.
pub open spec fn others_same(before: Seq<Client>, after: Seq<Client>, id: u64) -> bool {
    forall|other: u64|
        other != id ==> #[trigger] client_of(after, other) == client_of(before, other)
}

/// Server `id`, on connection `client`, registers watches under a name: they take the place of
/// what stood there. What another connection of the server left is forgotten.
pub open spec fn registers(
    before: Seq<Client>,
    after: Seq<Client>,
    id: u64,
    client: u64,
    name: Seq<char>,
    watches: Seq<(Seq<char>, WatchKind)>,
) -> bool {
    &&& others_same(before, after, id)
    &&& client_of(after, id) matches Some(c) && c.client == client && registered(
        c.registrations@,
        name,
    ) == Some(watches) && match client_of(before, id) {
        Some(b) if b.client == client => {
            &&& c.pending@ == b.pending@
            &&& forall|other: Seq<char>|
                other != name ==> #[trigger] registered(c.registrations@, other) == registered(
                    b.registrations@,
                    other,
                )
        },
        _ => {
            &&& c.pending@ == Seq::<FileEvent>::empty()
            &&& forall|other: Seq<char>|
                other != name ==> #[trigger] registered(c.registrations@, other) is None
        },
    }
}

/// Server `id` drops what it registered under a name, and goes if nothing is left.
pub open spec fn unregisters(before: Seq<Client>, after: Seq<Client>, id: u64, name: Seq<char>) -> bool {
    &&& others_same(before, after, id)
    &&& match client_of(before, id) {
        None => client_of(after, id) is None,
        Some(b) => if exists|other: Seq<char>|
            other != name && #[trigger] registered(b.registrations@, other) is Some {
            client_of(after, id) matches Some(c) && c.client == b.client && c.pending@
                == b.pending@ && registered(c.registrations@, name) is None && forall|
                other: Seq<char>,
            |
                other != name ==> #[trigger] registered(c.registrations@, other) == registered(
                    b.registrations@,
                    other,
                )
        } else {
            client_of(after, id) is None
        },
    }
}

/// Changes are queued and what is queued is sent to the open connections; the servers of others
/// go.
pub open spec fn notifies(
    before: Seq<Client>,
    active: bool,
    after: Seq<Client>,
    sent: Seq<(u64, Seq<(Seq<char>, FileChangeType)>)>,
    changes: Seq<FileChange>,
    alive: Seq<u64>,
) -> bool {
    exists|middle: Seq<Client>|
        same_but_pending(middle, before) && (forall|i: int|
            0 <= i < middle.len() ==> event_views((#[trigger] middle[i]).pending@) == queued(
                before[i],
                changes,
                active,
            )) && sent == #[trigger] deliveries(middle, alive) && same_but_pending(
            after,
            live_clients(middle, alive),
        )
}

/// The servers, and what matches their patterns.
pub struct State {
    pub clients: Vec<Client>,
    pub matcher: globset::GlobSet,
    pub interests: Vec<(u64, WatchKind)>,
}

/// Every server is valid, and no two share an id.
pub open spec fn valid_clients(clients: Seq<Client>) -> bool {
    &&& forall|i: int, j: int|
        0 <= i < j < clients.len() ==> (#[trigger] clients[i]).id != (#[trigger] clients[j]).id
    &&& forall|i: int|
        0 <= i < clients.len() ==> valid_client(#[trigger] clients[i])
}

/// A server has registered something, nothing under one name twice, and no change is queued for
/// it twice.
pub open spec fn valid_client(client: Client) -> bool {
    &&& distinct_names(client.registrations@)
    &&& client.registrations@.len() > 0
    &&& no_repeats(event_views(client.pending@))
}

impl State {
    /// The servers' patterns can be matched.
    pub open spec fn active(&self) -> bool {
        set_builds(patterns_of(all_interests(self.clients@)))
    }

    /// The matcher and the interests are those of the servers; both are empty when the patterns
    /// could not be put together.
    pub open spec fn mirrors(&self) -> bool {
        if self.active() {
            &&& globs_in(self.matcher) == patterns_of(all_interests(self.clients@))
            &&& self.interests@ == kinds_of(all_interests(self.clients@))
        } else {
            &&& globs_in(self.matcher) == Seq::<Seq<char>>::empty()
            &&& self.interests@ == Seq::<(u64, WatchKind)>::empty()
        }
    }

    pub open spec fn wf(&self) -> bool {
        valid_clients(self.clients@) && self.mirrors()
    }

    /// No servers.
    pub fn new() -> (state: State)
        ensures
            state.clients@ == Seq::<Client>::empty(),
            state.wf(),
    {
        let mut state = State { clients: Vec::new(), matcher: empty_set(), interests: Vec::new() };
        state.rebuild();
        state
    }

    /// Puts the patterns of all servers together. Where that fails, nothing of an old matcher is
    /// kept that could speak of servers which are gone.
    fn rebuild(&mut self)
        requires
            valid_clients(old(self).clients@),
        ensures
            final(self).clients@ == old(self).clients@,
            final(self).wf(),
    {
        let built = {
            let mut globs: Vec<&globset::Glob> = Vec::new();
            let mut interests: Vec<(u64, WatchKind)> = Vec::new();
            let ghost cs = self.clients@;
            let mut c: usize = 0;
            assert(cs.take(0) =~= Seq::<Client>::empty());
            assert(glob_texts(globs@) =~= patterns_of(all_interests(cs.take(0))));
            assert(interests@ =~= kinds_of(all_interests(cs.take(0))));
            while c < self.clients.len()
                invariant
                    c <= cs.len(),
                    cs == self.clients@,
                    glob_texts(globs@) == patterns_of(all_interests(cs.take(c as int))),
                    interests@ == kinds_of(all_interests(cs.take(c as int))),
                decreases self.clients.len() - c,
            {
                let client = &self.clients[c];
                let ghost regs = client.registrations@;
                let ghost before = all_interests(cs.take(c as int));
                let mut r: usize = 0;
                proof {
                    assert(cs.take(c + 1).drop_last() =~= cs.take(c as int));
                    assert(cs.take(c + 1).last() == cs[c as int]);
                    assert(regs.take(0) =~= Seq::<Registration>::empty());
                    let none = interests_of(client.id, flat_watches(regs.take(0)));
                    assert(patterns_of(before + none) =~= patterns_of(before));
                    assert(kinds_of(before + none) =~= kinds_of(before));
                }
                while r < client.registrations.len()
                    invariant
                        r <= regs.len(),
                        regs == client.registrations@,
                        glob_texts(globs@) == patterns_of(
                            before + interests_of(client.id, flat_watches(regs.take(r as int))),
                        ),
                        interests@ == kinds_of(
                            before + interests_of(client.id, flat_watches(regs.take(r as int))),
                        ),
                    decreases client.registrations.len() - r,
                {
                    let watches = &client.registrations[r].watches;
                    let ghost done = before + interests_of(
                        client.id,
                        flat_watches(regs.take(r as int)),
                    );
                    let mut w: usize = 0;
                    proof {
                        let none = interests_of(client.id, watch_views(watches@.take(0)));
                        assert(patterns_of(done + none) =~= patterns_of(done));
                        assert(kinds_of(done + none) =~= kinds_of(done));
                    }
                    while w < watches.len()
                        invariant
                            w <= watches@.len(),
                            glob_texts(globs@) == patterns_of(
                                done + interests_of(
                                    client.id,
                                    watch_views(watches@.take(w as int)),
                                ),
                            ),
                            interests@ == kinds_of(
                                done + interests_of(
                                    client.id,
                                    watch_views(watches@.take(w as int)),
                                ),
                            ),
                        decreases watches.len() - w,
                    {
                        let ghost upto = done + interests_of(
                            client.id,
                            watch_views(watches@.take(w as int)),
                        );
                        let ghost g = globs@;
                        let ghost k = interests@;
                        globs.push(&watches[w].glob);
                        interests.push((client.id, watches[w].kind));
                        proof {
                            let next = Interest {
                                id: client.id,
                                pattern: glob_source(watches@[w as int].glob),
                                kind: watches@[w as int].kind,
                            };
                            assert(watches@.take(w + 1) =~= watches@.take(w as int).push(
                                watches@[w as int],
                            ));
                            assert(done + interests_of(
                                client.id,
                                watch_views(watches@.take(w + 1)),
                            ) =~= upto.push(next));
                            assert(glob_texts(globs@) =~= glob_texts(g).push(next.pattern));
                            assert(patterns_of(upto.push(next)) =~= patterns_of(upto).push(
                                next.pattern,
                            ));
                            assert(kinds_of(upto.push(next)) =~= kinds_of(upto).push(
                                (next.id, next.kind),
                            ));
                        }
                        w += 1;
                    }
                    proof {
                        assert(watches@.take(w as int) =~= watches@);
                        assert(regs.take(r + 1).drop_last() =~= regs.take(r as int));
                        assert(regs.take(r + 1).last() == regs[r as int]);
                        assert(done + interests_of(client.id, watch_views(watches@)) =~= before
                            + interests_of(client.id, flat_watches(regs.take(r + 1))));
                    }
                    r += 1;
                }
                proof {
                    assert(regs.take(r as int) =~= regs);
                }
                c += 1;
            }
            assert(cs.take(c as int) =~= cs);
            match build_set(&globs) {
                Ok(set) => Some((set, interests)),
                Err(_) => None,
            }
        };
        match built {
            Some((set, interests)) => {
                self.matcher = set;
                self.interests = interests;
            },
            None => {
                self.matcher = empty_set();
                self.interests = Vec::new();
            },
        }
    }
}

/// A name that is registered is found at its place.
proof fn lemma_registered(regs: Seq<Registration>, name: Seq<char>)
    requires
        distinct_names(regs),
    ensures
        forall|k: int|
            0 <= k < regs.len() && (#[trigger] regs[k]).name@ == name ==> registered(regs, name)
                == Some(watch_views(regs[k].watches@)),
        registered(regs, name) is Some ==> exists|k: int|
            0 <= k < regs.len() && (#[trigger] regs[k]).name@ == name,
    decreases regs.len(),
{
    if regs.len() > 0 {
        let front = regs.drop_last();
        assert forall|i: int, j: int| 0 <= i < j < front.len() implies (#[trigger] front[i]).name@
            != (#[trigger] front[j]).name@ by {
            assert(regs[i].name@ != regs[j].name@);
        }
        lemma_registered(front, name);
        assert forall|k: int| 0 <= k < regs.len() && (#[trigger] regs[k]).name@ == name implies
            registered(regs, name) == Some(watch_views(regs[k].watches@)) by {
            if k < front.len() {
                assert(front[k].name@ == name);
                assert(regs[k].name@ != regs[regs.len() - 1].name@);
            }
        }
        if registered(regs, name) is Some {
            if regs.last().name@ == name {
                assert(regs[regs.len() - 1].name@ == name);
            } else {
                let k = choose|k: int| 0 <= k < front.len() && (#[trigger] front[k]).name@ == name;
                assert(regs[k].name@ == name);
            }
        }
    }
}

/// A server is found by its id.
proof fn lemma_client_of(clients: Seq<Client>, id: u64)
    requires
        forall|i: int, j: int|
            0 <= i < j < clients.len() ==> (#[trigger] clients[i]).id != (#[trigger] clients[j]).id,
    ensures
        forall|k: int|
            0 <= k < clients.len() && (#[trigger] clients[k]).id == id ==> client_of(clients, id)
                == Some(clients[k]),
        client_of(clients, id) is Some ==> exists|k: int|
            0 <= k < clients.len() && (#[trigger] clients[k]).id == id,
    decreases clients.len(),
{
    if clients.len() > 0 {
        let front = clients.drop_last();
        assert forall|i: int, j: int| 0 <= i < j < front.len() implies (#[trigger] front[i]).id != (
        #[trigger] front[j]).id by {
            assert(clients[i].id != clients[j].id);
        }
        lemma_client_of(front, id);
        assert forall|k: int| 0 <= k < clients.len() && (#[trigger] clients[k]).id == id implies
            client_of(clients, id) == Some(clients[k]) by {
            if k < front.len() {
                assert(front[k].id == id);
                assert(clients[k].id != clients[clients.len() - 1].id);
            }
        }
        if client_of(clients, id) is Some {
            if clients.last().id == id {
                assert(clients[clients.len() - 1].id == id);
            } else {
                let k = choose|k: int| 0 <= k < front.len() && (#[trigger] front[k]).id == id;
                assert(clients[k].id == id);
            }
        }
    }
}

/// Puts watches under a name, in the place of those that stood there.
fn put_registration(regs: &mut Vec<Registration>, name: String, watches: Vec<Watch>)
    requires
        distinct_names(old(regs)@),
    ensures
        distinct_names(final(regs)@),
        final(regs)@.len() > 0,
        registered(final(regs)@, name@) == Some(watch_views(watches@)),
        forall|other: Seq<char>|
            other != name@ ==> #[trigger] registered(final(regs)@, other) == registered(
                old(regs)@,
                other,
            ),
{
    let ghost before = regs@;
    let ghost new = Registration { name, watches };
    let mut k: usize = 0;
    while k < regs.len() && !crate::commands::catalog::same_text(
        regs[k].name.as_str(),
        name.as_str(),
    )
        invariant
            k <= regs@.len(),
            regs@ == before,
            forall|j: int| 0 <= j < k ==> (#[trigger] regs@[j]).name@ != name@,
        decreases regs.len() - k,
    {
        k += 1;
    }
    if k < regs.len() {
        regs.set(k, Registration { name, watches });
    } else {
        regs.push(Registration { name, watches });
    }
    proof {
        let after = regs@;
        assert(after[k as int] == new);
        assert forall|i: int, j: int| 0 <= i < j < after.len() implies (#[trigger] after[i]).name@
            != (#[trigger] after[j]).name@ by {
            if i == k {
                if k < before.len() {
                    assert(before[i].name@ != before[j].name@);
                }
            } else if j == k {
                assert(before[i].name@ != name@);
            } else {
                assert(before[i].name@ != before[j].name@);
            }
        }
        lemma_registered(after, name@);
        assert(after[k as int].name@ == name@);
        assert forall|other: Seq<char>| other != name@ implies #[trigger] registered(after, other)
            == registered(before, other) by {
            lemma_registered(before, other);
            lemma_registered(after, other);
            if registered(before, other) is Some {
                let j = choose|j: int|
                    0 <= j < before.len() && (#[trigger] before[j]).name@ == other;
                assert(after[j].name@ == other);
            }
            if registered(after, other) is Some {
                let j = choose|j: int| 0 <= j < after.len() && (#[trigger] after[j]).name@ == other;
                assert(before[j].name@ == other);
            }
        }
    }
}

/// Drops what stands under a name.
fn drop_registration(regs: &mut Vec<Registration>, name: &str)
    requires
        distinct_names(old(regs)@),
    ensures
        distinct_names(final(regs)@),
        registered(final(regs)@, name@) is None,
        forall|other: Seq<char>|
            other != name@ ==> #[trigger] registered(final(regs)@, other) == registered(
                old(regs)@,
                other,
            ),
        final(regs)@.len() > 0 <==> exists|other: Seq<char>|
            other != name@ && #[trigger] registered(old(regs)@, other) is Some,
{
    let ghost before = regs@;
    let mut k: usize = 0;
    while k < regs.len() && !crate::commands::catalog::same_text(regs[k].name.as_str(), name)
        invariant
            k <= regs@.len(),
            regs@ == before,
            forall|j: int| 0 <= j < k ==> (#[trigger] regs@[j]).name@ != name@,
        decreases regs.len() - k,
    {
        k += 1;
    }
    if k < regs.len() {
        let dropped = regs.remove(k);
    }
    proof {
        let after = regs@;
        assert forall|i: int, j: int| 0 <= i < j < after.len() implies (#[trigger] after[i]).name@
            != (#[trigger] after[j]).name@ by {
            let a = if i < k {
                i
            } else {
                i + 1
            };
            let b = if j < k {
                j
            } else {
                j + 1
            };
            if k < before.len() {
                assert(after[i] == before[a] && after[j] == before[b]);
                assert(before[a].name@ != before[b].name@);
            } else {
                assert(before[i].name@ != before[j].name@);
            }
        }
        assert forall|other: Seq<char>| other != name@ implies #[trigger] registered(after, other)
            == registered(before, other) by {
            lemma_registered(before, other);
            lemma_registered(after, other);
            if registered(before, other) is Some {
                let j = choose|j: int|
                    0 <= j < before.len() && (#[trigger] before[j]).name@ == other;
                let a = if j < k {
                    j
                } else {
                    j - 1
                };
                assert(after[a] == before[j]);
                assert(after[a].name@ == other);
            }
            if registered(after, other) is Some {
                let j = choose|j: int| 0 <= j < after.len() && (#[trigger] after[j]).name@ == other;
                let a = if j < k {
                    j
                } else {
                    j + 1
                };
                assert(before[a].name@ == other);
            }
        }
        lemma_registered(after, name@);
        if registered(after, name@) is Some {
            let j = choose|j: int| 0 <= j < after.len() && (#[trigger] after[j]).name@ == name@;
            if j < k {
                assert(before[j].name@ == name@);
            } else {
                assert(before[j + 1] == after[j]);
                assert(before[k as int].name@ == name@);
                assert(before[k as int].name@ != before[j + 1].name@);
            }
        }
        if after.len() > 0 {
            let other = after[0].name@;
            lemma_registered(after, other);
            assert(other != name@);
            assert(registered(before, other) is Some);
        }
        if exists|other: Seq<char>|
            other != name@ && #[trigger] registered(before, other) is Some {
            let other = choose|other: Seq<char>|
                other != name@ && #[trigger] registered(before, other) is Some;
            lemma_registered(after, other);
            assert(registered(after, other) is Some);
        }
    }
}

impl State {
    /// The place of the server with an id.
    fn position(&self, id: u64) -> (found: Option<usize>)
        requires
            valid_clients(self.clients@),
        ensures
            found matches Some(k) ==> k < self.clients@.len() && self.clients@[k as int].id == id
                && client_of(self.clients@, id) == Some(self.clients@[k as int]),
            found is None ==> client_of(self.clients@, id) is None && forall|k: int|
                0 <= k < self.clients@.len() ==> (#[trigger] self.clients@[k]).id != id,
    {
        proof {
            lemma_client_of(self.clients@, id);
        }
        let mut k: usize = 0;
        while k < self.clients.len()
            invariant
                k <= self.clients@.len(),
                forall|j: int| 0 <= j < k ==> (#[trigger] self.clients@[j]).id != id,
                forall|k: int|
                    0 <= k < self.clients@.len() && (#[trigger] self.clients@[k]).id == id
                        ==> client_of(self.clients@, id) == Some(self.clients@[k]),
            decreases self.clients.len() - k,
        {
            if self.clients[k].id == id {
                return Some(k);
            }
            k += 1;
        }
        None
    }

    /// Takes out the server at a place.
    fn take_at(&mut self, k: usize) -> (taken: Client)
        requires
            valid_clients(old(self).clients@),
            k < old(self).clients@.len(),
        ensures
            taken == old(self).clients@[k as int],
            final(self).clients@ == old(self).clients@.remove(k as int),
            valid_clients(final(self).clients@),
            client_of(final(self).clients@, taken.id) is None,
            forall|other: u64|
                other != taken.id ==> #[trigger] client_of(final(self).clients@, other)
                    == client_of(old(self).clients@, other),
    {
        let ghost before = self.clients@;
        let taken = self.clients.remove(k);
        proof {
            let after = self.clients@;
            let id = taken.id;
            assert forall|i: int, j: int| 0 <= i < j < after.len() implies (#[trigger] after[i]).id
                != (#[trigger] after[j]).id by {
                let a = if i < k {
                    i
                } else {
                    i + 1
                };
                let b = if j < k {
                    j
                } else {
                    j + 1
                };
                assert(before[a].id != before[b].id);
            }
            assert forall|i: int| 0 <= i < after.len() implies valid_client(#[trigger] after[i]) by {
                let a = if i < k {
                    i
                } else {
                    i + 1
                };
                assert(after[i] == before[a]);
            }
            lemma_client_of(after, id);
            if client_of(after, id) is Some {
                let j = choose|j: int| 0 <= j < after.len() && (#[trigger] after[j]).id == id;
                let a = if j < k {
                    j
                } else {
                    j + 1
                };
                assert(before[a].id == id);
                if a < k {
                    assert(before[a].id != before[k as int].id);
                } else {
                    assert(before[k as int].id != before[a].id);
                }
            }
            assert forall|other: u64| other != id implies #[trigger] client_of(after, other)
                == client_of(before, other) by {
                lemma_client_of(before, other);
                lemma_client_of(after, other);
                if client_of(before, other) is Some {
                    let j = choose|j: int|
                        0 <= j < before.len() && (#[trigger] before[j]).id == other;
                    let a = if j < k {
                        j
                    } else {
                        j - 1
                    };
                    assert(after[a] == before[j]);
                    assert(after[a].id == other);
                }
                if client_of(after, other) is Some {
                    let j = choose|j: int| 0 <= j < after.len() && (#[trigger] after[j]).id == other;
                    let a = if j < k {
                        j
                    } else {
                        j + 1
                    };
                    assert(before[a] == after[j]);
                    assert(before[a].id == other);
                }
            }
        }
        taken
    }

    /// Adds a server.
    fn put(&mut self, c: Client)
        requires
            valid_clients(old(self).clients@),
            valid_client(c),
            client_of(old(self).clients@, c.id) is None,
        ensures
            final(self).clients@ == old(self).clients@.push(c),
            valid_clients(final(self).clients@),
            client_of(final(self).clients@, c.id) == Some(c),
            forall|other: u64|
                other != c.id ==> #[trigger] client_of(final(self).clients@, other) == client_of(
                    old(self).clients@,
                    other,
                ),
    {
        let ghost before = self.clients@;
        self.clients.push(c);
        proof {
            let after = self.clients@;
            lemma_client_of(before, c.id);
            assert forall|i: int, j: int| 0 <= i < j < after.len() implies (#[trigger] after[i]).id
                != (#[trigger] after[j]).id by {
                if j < before.len() {
                    assert(before[i].id != before[j].id);
                } else {
                    assert(before[i].id != c.id);
                }
            }
            assert forall|i: int| 0 <= i < after.len() implies valid_client(#[trigger] after[i]) by {
                if i < before.len() {
                    assert(after[i] == before[i]);
                }
            }
            assert(after.drop_last() =~= before);
        }
    }

    /// Registers watchers of a server under a name, in the place of those that stood there. When
    /// the server has a new connection, all that the old one registered is forgotten.
    pub fn register(&mut self, id: u64, client: u64, name: String, watchers: &Vec<Watcher>)
        requires
            old(self).wf(),
        ensures
            final(self).wf(),
            registers(
                old(self).clients@,
                final(self).clients@,
                id,
                client,
                name@,
                watches_of(watchers@),
            ),
    {
        let watches = collect_watches(watchers);
        let place = self.position(id);
        let mut regs: Vec<Registration> = Vec::new();
        let mut pending: Vec<FileEvent> = Vec::new();
        if let Some(k) = place {
            let kept = self.take_at(k);
            if kept.client == client {
                regs = kept.registrations;
                pending = kept.pending;
            }
        }
        assert(distinct_names(regs@));
        assert(no_repeats(event_views(pending@)));
        put_registration(&mut regs, name, watches);
        self.put(Client { id, client, registrations: regs, pending });
        self.rebuild();
    }

    /// Takes a server out.
    pub fn remove_client(&mut self, id: u64)
        requires
            old(self).wf(),
        ensures
            final(self).wf(),
            client_of(final(self).clients@, id) is None,
            others_same(old(self).clients@, final(self).clients@, id),
    {
        let place = self.position(id);
        if let Some(k) = place {
            let gone = self.take_at(k);
        }
        self.rebuild();
    }

    /// Drops what a server registered under a name. A server with nothing left goes.
    pub fn unregister(&mut self, id: u64, name: &str)
        requires
            old(self).wf(),
        ensures
            final(self).wf(),
            unregisters(old(self).clients@, final(self).clients@, id, name@),
    {
        let place = self.position(id);
        if let Some(k) = place {
            let kept = self.take_at(k);
            let mut regs = kept.registrations;
            drop_registration(&mut regs, name);
            if regs.len() > 0 {
                self.put(
                    Client {
                        id: kept.id,
                        client: kept.client,
                        registrations: regs,
                        pending: kept.pending,
                    },
                );
            }
            self.rebuild();
        }
    }
}

/// A change to a file. There is no address for a path that is not absolute.
pub struct FileChange {
    pub path: String,
    pub uri: Option<String>,
    pub typ: FileChangeType,
}

/// What is queued for a server after one more change: the change, if the server is to hear of it
/// and it is not queued already.
pub open spec fn queued_one(
    pending: Seq<(Seq<char>, FileChangeType)>,
    client: Client,
    change: FileChange,
    active: bool,
) -> Seq<(Seq<char>, FileChangeType)> {
    match change.uri {
        Some(uri) => {
            let event = (uri@, change.typ);
            if active && watches_path(client, change.path@, change.typ) && !pending.contains(event) {
                pending.push(event)
            } else {
                pending
            }
        },
        None => pending,
    }
}

/// What is queued for a server after some changes.
pub open spec fn queued(client: Client, changes: Seq<FileChange>, active: bool) -> Seq<
    (Seq<char>, FileChangeType),
>
    decreases changes.len(),
{
    if changes.len() == 0 {
        event_views(client.pending@)
    } else {
        queued_one(
            queued(client, changes.drop_last(), active),
            client,
            changes.last(),
            active,
        )
    }
}

/// The servers differ in nothing but what is queued.
pub open spec fn same_but_pending(a: Seq<Client>, b: Seq<Client>) -> bool {
    &&& a.len() == b.len()
    &&& forall|i: int|
        0 <= i < a.len() ==> (#[trigger] a[i]).id == b[i].id && a[i].client == b[i].client
            && a[i].registrations@ == b[i].registrations@
}

/// The watches do not depend on what is queued.
proof fn lemma_interests_same(a: Seq<Client>, b: Seq<Client>)
    requires
        same_but_pending(a, b),
    ensures
        all_interests(a) == all_interests(b),
    decreases a.len(),
{
    if a.len() > 0 {
        assert(a[a.len() - 1].id == b[a.len() - 1].id);
        assert(same_but_pending(a.drop_last(), b.drop_last())) by {
            assert forall|i: int| 0 <= i < a.len() - 1 implies (#[trigger] a.drop_last()[i]).id
                == b.drop_last()[i].id && a.drop_last()[i].client == b.drop_last()[i].client
                && a.drop_last()[i].registrations@ == b.drop_last()[i].registrations@ by {
                assert(a[i].id == b[i].id);
            }
        }
        lemma_interests_same(a.drop_last(), b.drop_last());
    }
}

/// Every watch belongs to a server.
proof fn lemma_interest_origin(clients: Seq<Client>, k: int) -> (origin: (int, int))
    requires
        0 <= k < all_interests(clients).len(),
    ensures
        0 <= origin.0 < clients.len(),
        0 <= origin.1 < flat_watches(clients[origin.0].registrations@).len(),
        ({
            let w = flat_watches(clients[origin.0].registrations@)[origin.1];
            all_interests(clients)[k] == (Interest {
                id: clients[origin.0].id,
                pattern: w.0,
                kind: w.1,
            })
        }),
    decreases clients.len(),
{
    let front = clients.drop_last();
    let n = all_interests(front).len();
    if k < n {
        let origin = lemma_interest_origin(front, k);
        assert(front[origin.0] == clients[origin.0]);
        origin
    } else {
        (clients.len() - 1, k - n)
    }
}

/// Every watch of a server is among those of all.
proof fn lemma_interest_place(clients: Seq<Client>, i: int, w: int) -> (k: int)
    requires
        0 <= i < clients.len(),
        0 <= w < flat_watches(clients[i].registrations@).len(),
    ensures
        0 <= k < all_interests(clients).len(),
        all_interests(clients)[k] == (Interest {
            id: clients[i].id,
            pattern: flat_watches(clients[i].registrations@)[w].0,
            kind: flat_watches(clients[i].registrations@)[w].1,
        }),
    decreases clients.len(),
{
    let front = clients.drop_last();
    if i < front.len() {
        assert(front[i] == clients[i]);
        lemma_interest_place(front, i, w)
    } else {
        all_interests(front).len() + w
    }
}

/// One of the first `n` numbers is that of a watch of server `id` for changes of this type.
spec fn hit(
    interests: Seq<(u64, WatchKind)>,
    found: Seq<usize>,
    n: int,
    id: u64,
    typ: FileChangeType,
) -> bool {
    exists|m: int|
        0 <= m < n && interests[(#[trigger] found[m]) as int].0 == id
            && interests[found[m] as int].1.covers(typ)
}

/// The matching watches of a server are found exactly when it is to hear of a change.
proof fn lemma_hit(state: State, found: Seq<usize>, i: int, path: Seq<char>, typ: FileChangeType)
    requires
        state.wf(),
        0 <= i < state.clients@.len(),
        forall|k: usize| #[trigger]
            found.contains(k) <==> k < globs_in(state.matcher).len() && glob_matches(
                globs_in(state.matcher)[k as int],
                path,
            ),
        globs_in(state.matcher).len() <= usize::MAX,
    ensures
        hit(state.interests@, found, found.len() as int, state.clients@[i].id, typ) <==> (
        state.active() && watches_path(state.clients@[i], path, typ)),
{
    let cs = state.clients@;
    let all = all_interests(cs);
    let id = cs[i].id;
    if hit(state.interests@, found, found.len() as int, id, typ) {
        let m = choose|m: int|
            0 <= m < found.len() && state.interests@[(#[trigger] found[m]) as int].0 == id
                && state.interests@[found[m] as int].1.covers(typ);
        let k = found[m];
        assert(found.contains(k));
        assert(state.active());
        let origin = lemma_interest_origin(cs, k as int);
        assert(patterns_of(all)[k as int] == all[k as int].pattern);
        assert(kinds_of(all)[k as int] == (all[k as int].id, all[k as int].kind));
        if origin.0 < i {
            assert(cs[origin.0].id != cs[i].id);
        } else if i < origin.0 {
            assert(cs[i].id != cs[origin.0].id);
        }
        let w = flat_watches(cs[i].registrations@)[origin.1];
        assert(w.1.covers(typ) && glob_matches(w.0, path));
    }
    if state.active() && watches_path(cs[i], path, typ) {
        let w = choose|w: int|
            0 <= w < flat_watches(cs[i].registrations@).len() && {
                let v = #[trigger] flat_watches(cs[i].registrations@)[w];
                v.1.covers(typ) && glob_matches(v.0, path)
            };
        let k = lemma_interest_place(cs, i, w);
        assert(patterns_of(all)[k] == all[k].pattern);
        assert(kinds_of(all)[k] == (all[k].id, all[k].kind));
        assert(found.contains(k as usize));
        let m = choose|m: int| 0 <= m < found.len() && found[m] == k as usize;
        assert(state.interests@[found[m] as int].0 == id);
    }
}

/// Whether a change is queued.
fn is_queued(pending: &Vec<FileEvent>, uri: &str, typ: FileChangeType) -> (b: bool)
    ensures
        b == event_views(pending@).contains((uri@, typ)),
{
    let ghost all = event_views(pending@);
    let mut i: usize = 0;
    while i < pending.len()
        invariant
            i <= pending@.len(),
            all == event_views(pending@),
            forall|j: int| 0 <= j < i ==> #[trigger] all[j] != (uri@, typ),
        decreases pending.len() - i,
    {
        assert(all[i as int] == pending@[i as int]@);
        if pending[i].typ == typ && crate::commands::catalog::same_text(
            pending[i].uri.as_str(),
            uri,
        ) {
            return true;
        }
        i += 1;
    }
    false
}

/// A server is told of a change at most once.
proof fn lemma_no_repeats_push(
    events: Seq<(Seq<char>, FileChangeType)>,
    e: (Seq<char>, FileChangeType),
)
    requires
        no_repeats(events),
        !events.contains(e),
    ensures
        no_repeats(events.push(e)),
{
    let all = events.push(e);
    assert forall|i: int, j: int| 0 <= i < j < all.len() implies all[i] != all[j] by {
        if j == events.len() {
            assert(events.contains(events[i]));
        }
    }
}

impl State {
    /// Queues one change for every server that is to hear of it.
    fn queue_one(&mut self, change: &FileChange)
        requires
            old(self).wf(),
        ensures
            final(self).wf(),
            same_but_pending(final(self).clients@, old(self).clients@),
            forall|i: int|
                0 <= i < final(self).clients@.len() ==> event_views(
                    (#[trigger] final(self).clients@[i]).pending@,
                ) == queued_one(
                    event_views(old(self).clients@[i].pending@),
                    old(self).clients@[i],
                    *change,
                    old(self).active(),
                ),
    {
        let uri = match &change.uri {
            Some(uri) => uri,
            None => {
                return ;
            },
        };
        let typ = change.typ;
        let found = set_matches(&self.matcher, change.path.as_str());
        let ghost start = *self;
        let ghost before = self.clients@;
        let ghost event = (uri@, typ);
        let total: usize = self.interests.len();
        let mut m: usize = 0;
        while m < found.len()
            invariant
                m <= found@.len(),
                start.wf(),
                before == start.clients@,
                event == (uri@, typ),
                self.matcher == start.matcher,
                self.interests@ == start.interests@,
                total == self.interests@.len(),
                globs_in(start.matcher).len() == start.interests@.len(),
                forall|k: usize| #[trigger]
                    found@.contains(k) <==> k < globs_in(start.matcher).len() && glob_matches(
                        globs_in(start.matcher)[k as int],
                        change.path@,
                    ),
                same_but_pending(self.clients@, before),
                valid_clients(self.clients@),
                forall|i: int|
                    0 <= i < before.len() ==> event_views((#[trigger] self.clients@[i]).pending@)
                        == (if hit(
                        start.interests@,
                        found@,
                        m as int,
                        before[i].id,
                        typ,
                    ) && !event_views(before[i].pending@).contains(event) {
                        event_views(before[i].pending@).push(event)
                    } else {
                        event_views(before[i].pending@)
                    }),
            decreases found.len() - m,
        {
            let k = found[m];
            assert(found@.contains(k));
            let (id, kind) = self.interests[k];
            let ghost now = self.clients@;
            if kind.contains(typ) {
                let place = self.position(id);
                proof {
                    assert(start.active());
                    let origin = lemma_interest_origin(before, k as int);
                    assert(kinds_of(all_interests(before))[k as int].0 == id);
                    assert(now[origin.0].id == id);
                }
                if let Some(p) = place {
                    let queued = is_queued(&self.clients[p].pending, uri.as_str(), typ);
                    if !queued {
                        let e = FileEvent { uri: uri.clone(), typ };
                        self.push_event(p, e);
                    }
                    proof {
                        lemma_hit_step(start, now, self.clients@, found@, m as int, p as int, typ, event);
                    }
                }
            } else {
                proof {
                    assert forall|i: int| 0 <= i < before.len() implies hit(
                        start.interests@,
                        found@,
                        m as int,
                        (#[trigger] before[i]).id,
                        typ,
                    ) == hit(start.interests@, found@, m + 1, before[i].id, typ) by {
                        lemma_hit_extend(start.interests@, found@, m as int, before[i].id, typ);
                    }
                    assert forall|i: int| 0 <= i < before.len() implies event_views(
                        (#[trigger] self.clients@[i]).pending@,
                    ) == (if hit(start.interests@, found@, m + 1, before[i].id, typ)
                        && !event_views(before[i].pending@).contains(event) {
                        event_views(before[i].pending@).push(event)
                    } else {
                        event_views(before[i].pending@)
                    }) by {
                        assert(before[i].id == before[i].id);
                    }
                }
            }
            m += 1;
        }
        proof {
            lemma_interests_same(self.clients@, before);
            assert forall|i: int| 0 <= i < self.clients@.len() implies event_views(
                (#[trigger] self.clients@[i]).pending@,
            ) == queued_one(
                event_views(before[i].pending@),
                before[i],
                *change,
                start.active(),
            ) by {
                lemma_hit(start, found@, i, change.path@, typ);
            }
        }
    }

    /// Puts a change behind those queued for the server at a place.
    fn push_event(&mut self, p: usize, e: FileEvent)
        requires
            p < old(self).clients@.len(),
            valid_clients(old(self).clients@),
            !event_views(old(self).clients@[p as int].pending@).contains(e@),
        ensures
            valid_clients(final(self).clients@),
            same_but_pending(final(self).clients@, old(self).clients@),
            final(self).matcher == old(self).matcher,
            final(self).interests@ == old(self).interests@,
            forall|i: int|
                0 <= i < final(self).clients@.len() ==> event_views(
                    (#[trigger] final(self).clients@[i]).pending@,
                ) == (if i == p {
                    event_views(old(self).clients@[i].pending@).push(e@)
                } else {
                    event_views(old(self).clients@[i].pending@)
                }),
    {
        let ghost before = self.clients@;
        self.clients[p].pending.push(e);
        proof {
            let after = self.clients@;
            assert(after[p as int].pending@ == before[p as int].pending@.push(e));
            assert(event_views(after[p as int].pending@) =~= event_views(
                before[p as int].pending@,
            ).push(e@));
            lemma_no_repeats_push(event_views(before[p as int].pending@), e@);
            assert forall|i: int| 0 <= i < after.len() implies valid_client(#[trigger] after[i]) by {
                assert(valid_client(before[i]));
                if i != p {
                    assert(after[i] == before[i]);
                }
            }
            assert forall|i: int, j: int| 0 <= i < j < after.len() implies (#[trigger] after[i]).id
                != (#[trigger] after[j]).id by {
                assert(before[i].id != before[j].id);
            }
        }
    }
}

proof fn lemma_hit_extend(
    interests: Seq<(u64, WatchKind)>,
    found: Seq<usize>,
    m: int,
    id: u64,
    typ: FileChangeType,
)
    requires
        0 <= m < found.len(),
    ensures
        hit(interests, found, m + 1, id, typ) <==> hit(interests, found, m, id, typ) || (
        interests[found[m] as int].0 == id && interests[found[m] as int].1.covers(typ)),
{
    if hit(interests, found, m, id, typ) {
        let k = choose|k: int|
            0 <= k < m && interests[(#[trigger] found[k]) as int].0 == id
                && interests[found[k] as int].1.covers(typ);
        assert(interests[found[k] as int].0 == id);
    }
}

/// One more matching watch, that of the server at place `p`.
proof fn lemma_hit_step(
    start: State,
    now: Seq<Client>,
    next: Seq<Client>,
    found: Seq<usize>,
    m: int,
    p: int,
    typ: FileChangeType,
    event: (Seq<char>, FileChangeType),
)
    requires
        0 <= m < found.len(),
        0 <= p < now.len(),
        valid_clients(now),
        same_but_pending(now, start.clients@),
        same_but_pending(next, now),
        start.interests@[found[m] as int].0 == now[p].id,
        start.interests@[found[m] as int].1.covers(typ),
        forall|i: int|
            0 <= i < now.len() ==> event_views((#[trigger] next[i]).pending@) == (if i == p
                && !event_views(now[i].pending@).contains(event) {
                event_views(now[i].pending@).push(event)
            } else {
                event_views(now[i].pending@)
            }),
        forall|i: int|
            0 <= i < now.len() ==> event_views((#[trigger] now[i]).pending@) == (if hit(
                start.interests@,
                found,
                m,
                start.clients@[i].id,
                typ,
            ) && !event_views(start.clients@[i].pending@).contains(event) {
                event_views(start.clients@[i].pending@).push(event)
            } else {
                event_views(start.clients@[i].pending@)
            }),
    ensures
        forall|i: int|
            0 <= i < now.len() ==> event_views((#[trigger] next[i]).pending@) == (if hit(
                start.interests@,
                found,
                m + 1,
                start.clients@[i].id,
                typ,
            ) && !event_views(start.clients@[i].pending@).contains(event) {
                event_views(start.clients@[i].pending@).push(event)
            } else {
                event_views(start.clients@[i].pending@)
            }),
{
    assert forall|i: int| 0 <= i < now.len() implies event_views((#[trigger] next[i]).pending@) == (
    if hit(start.interests@, found, m + 1, start.clients@[i].id, typ) && !event_views(
        start.clients@[i].pending@,
    ).contains(event) {
        event_views(start.clients@[i].pending@).push(event)
    } else {
        event_views(start.clients@[i].pending@)
    }) by {
        let old_pending = event_views(start.clients@[i].pending@);
        lemma_hit_extend(start.interests@, found, m, start.clients@[i].id, typ);
        assert(now[i].id == start.clients@[i].id);
        assert(event_views(now[i].pending@) == event_views(now[i].pending@));
        if i != p {
            if i < p {
                assert(now[i].id != now[p].id);
            } else {
                assert(now[p].id != now[i].id);
            }
        } else if hit(start.interests@, found, m, start.clients@[i].id, typ)
            && !old_pending.contains(event) {
            assert(old_pending.push(event)[old_pending.len() as int] == event);
        }
    }
}

/// The servers of the connections that are open, with nothing queued.
pub open spec fn live_clients(clients: Seq<Client>, alive: Seq<u64>) -> Seq<Client>
    decreases clients.len(),
{
    if clients.len() == 0 {
        Seq::empty()
    } else {
        let before = live_clients(clients.drop_last(), alive);
        if alive.contains(clients.last().client) {
            before.push(clients.last())
        } else {
            before
        }
    }
}

/// What is sent: to every server whose connection is open what is queued for it, if anything is.
pub open spec fn deliveries(clients: Seq<Client>, alive: Seq<u64>) -> Seq<
    (u64, Seq<(Seq<char>, FileChangeType)>),
>
    decreases clients.len(),
{
    if clients.len() == 0 {
        Seq::empty()
    } else {
        let before = deliveries(clients.drop_last(), alive);
        let last = clients.last();
        if alive.contains(last.client) && last.pending@.len() > 0 {
            before.push((last.id, event_views(last.pending@)))
        } else {
            before
        }
    }
}

/// What is sent, as plain values.
pub open spec fn delivery_views(sent: Seq<(u64, Vec<FileEvent>)>) -> Seq<
    (u64, Seq<(Seq<char>, FileChangeType)>),
> {
    sent.map_values(|d: (u64, Vec<FileEvent>)| (d.0, event_views(d.1@)))
}

/// Whether a connection is open.
fn is_alive(alive: &Vec<u64>, client: u64) -> (b: bool)
    ensures
        b == alive@.contains(client),
{
    let mut i: usize = 0;
    while i < alive.len()
        invariant
            i <= alive@.len(),
            forall|j: int| 0 <= j < i ==> alive@[j] != client,
        decreases alive.len() - i,
    {
        if alive[i] == client {
            return true;
        }
        i += 1;
    }
    false
}

impl State {
    /// Queues changes in their order, each once for every server that is to hear of it.
    pub fn queue(&mut self, changes: &Vec<FileChange>)
        requires
            old(self).wf(),
        ensures
            final(self).wf(),
            same_but_pending(final(self).clients@, old(self).clients@),
            forall|i: int|
                0 <= i < final(self).clients@.len() ==> event_views(
                    (#[trigger] final(self).clients@[i]).pending@,
                ) == queued(old(self).clients@[i], changes@, old(self).active()),
    {
        let ghost before = self.clients@;
        let ghost active = self.active();
        let mut n: usize = 0;
        assert(changes@.take(0) =~= Seq::<FileChange>::empty());
        while n < changes.len()
            invariant
                n <= changes@.len(),
                self.wf(),
                active == self.active(),
                same_but_pending(self.clients@, before),
                forall|i: int|
                    0 <= i < self.clients@.len() ==> event_views(
                        (#[trigger] self.clients@[i]).pending@,
                    ) == queued(before[i], changes@.take(n as int), active),
            decreases changes.len() - n,
        {
            let ghost now = self.clients@;
            self.queue_one(&changes[n]);
            proof {
                lemma_interests_same(self.clients@, now);
                assert(changes@.take(n + 1).drop_last() =~= changes@.take(n as int));
                assert(same_but_pending(self.clients@, before)) by {
                    assert forall|i: int| 0 <= i < before.len() implies (
                    #[trigger] self.clients@[i]).id == before[i].id && self.clients@[i].client
                        == before[i].client && self.clients@[i].registrations@
                        == before[i].registrations@ by {
                        assert(now[i].id == before[i].id);
                    }
                }
                assert forall|i: int| 0 <= i < self.clients@.len() implies event_views(
                    (#[trigger] self.clients@[i]).pending@,
                ) == queued(before[i], changes@.take(n + 1), active) by {
                    assert(event_views(now[i].pending@) == queued(
                        before[i],
                        changes@.take(n as int),
                        active,
                    ));
                    lemma_watches_path_same(now[i], before[i], changes@[n as int]);
                }
            }
            n += 1;
        }
        assert(changes@.take(n as int) =~= changes@);
    }

    /// Queues changes, and takes what is to be sent. `alive` holds the connections that are open;
    /// a server whose connection is not goes, with what was queued for it.
    pub fn notify(&mut self, changes: &Vec<FileChange>, alive: &Vec<u64>) -> (sent: Vec<
        (u64, Vec<FileEvent>),
    >)
        requires
            old(self).wf(),
        ensures
            final(self).wf(),
            notifies(
                old(self).clients@,
                old(self).active(),
                final(self).clients@,
                delivery_views(sent@),
                changes@,
                alive@,
            ),
            forall|i: int|
                0 <= i < final(self).clients@.len() ==> (#[trigger] final(self).clients@[i]).pending@.len() == 0,
    {
        self.queue(changes);
        let ghost middle = self.clients@;
        let mut sent: Vec<(u64, Vec<FileEvent>)> = Vec::new();
        let mut removed: bool = false;
        let mut i: usize = 0;
        let ghost mut seen: int = 0;
        proof {
            assert(middle.take(0) =~= Seq::<Client>::empty());
            assert(delivery_views(sent@) =~= deliveries(middle.take(0), alive@));
            assert(self.clients@.take(0) =~= Seq::<Client>::empty());
        }
        while i < self.clients.len()
            invariant
                0 <= seen <= middle.len(),
                i <= self.clients@.len(),
                valid_clients(self.clients@),
                self.clients@.skip(i as int) == middle.skip(seen),
                delivery_views(sent@) == deliveries(middle.take(seen), alive@),
                same_but_pending(
                    self.clients@.take(i as int),
                    live_clients(middle.take(seen), alive@),
                ),
                forall|j: int| 0 <= j < i ==> (#[trigger] self.clients@[j]).pending@.len() == 0,
                !removed ==> i == seen && same_but_pending(self.clients@, middle) && self.mirrors(),
            decreases self.clients@.len() - i,
        {
            let ghost now = self.clients@;
            proof {
                assert(now.skip(i as int).len() == now.len() - i);
                assert(middle.skip(seen).len() == middle.len() - seen);
                assert(now.skip(i as int)[0] == now[i as int]);
                assert(middle.skip(seen)[0] == middle[seen]);
                assert(middle.take(seen + 1).drop_last() =~= middle.take(seen));
                assert(middle.take(seen + 1).last() == middle[seen]);
                assert(now.skip(i as int).skip(1) =~= now.skip(i + 1));
                assert(middle.skip(seen).skip(1) =~= middle.skip(seen + 1));
            }
            if is_alive(alive, self.clients[i].client) {
                if self.clients[i].pending.len() > 0 {
                    let id = self.clients[i].id;
                    let taken = self.take_pending(i);
                    proof {
                        let d = (id, taken);
                        assert(delivery_views(sent@.push(d)) =~= delivery_views(sent@).push(
                            (id, event_views(taken@)),
                        ));
                    }
                    sent.push((id, taken));
                }
                proof {
                    let after = self.clients@;
                    assert(after.skip(i + 1) =~= now.skip(i + 1));
                    let live = live_clients(middle.take(seen), alive@);
                    assert(live_clients(middle.take(seen + 1), alive@) == live.push(middle[seen]));
                    assert forall|j: int| 0 <= j < i + 1 implies (#[trigger] after.take(i + 1)[j]).id
                        == live.push(middle[seen])[j].id && after.take(i + 1)[j].client
                        == live.push(middle[seen])[j].client && after.take(i
                        + 1)[j].registrations@ == live.push(middle[seen])[j].registrations@ by {
                        if j < i {
                            assert(now.take(i as int)[j] == now[j]);
                            assert(after.take(i + 1)[j].id == after[j].id);
                        }
                    }
                    if !removed {
                        assert(same_but_pending(after, middle)) by {
                            assert forall|j: int| 0 <= j < middle.len() implies (
                            #[trigger] after[j]).id == middle[j].id && after[j].client
                                == middle[j].client && after[j].registrations@
                                == middle[j].registrations@ by {
                                assert(now[j].id == middle[j].id);
                            }
                        }
                        lemma_interests_same(after, now);
                    }
                }
                i += 1;
            } else {
                let gone = self.take_at(i);
                removed = true;
                proof {
                    let after = self.clients@;
                    assert(after.skip(i as int) =~= now.skip(i + 1));
                    assert(after.take(i as int) =~= now.take(i as int));
                    assert forall|j: int| 0 <= j < i implies (#[trigger] after[j]).pending@.len()
                        == 0 by {
                        assert(after[j] == now[j]);
                    }
                }
            }
            proof {
                seen = seen + 1;
            }
        }
        proof {
            assert(self.clients@.skip(i as int).len() == 0);
            assert(middle.skip(seen).len() == 0);
            assert(middle.take(seen) =~= middle);
            assert(self.clients@.take(i as int) =~= self.clients@);
        }
        if removed {
            self.rebuild();
        }
        sent
    }

    /// Takes what is queued for the server at a place.
    fn take_pending(&mut self, p: usize) -> (taken: Vec<FileEvent>)
        requires
            p < old(self).clients@.len(),
            valid_clients(old(self).clients@),
        ensures
            taken@ == old(self).clients@[p as int].pending@,
            valid_clients(final(self).clients@),
            final(self).matcher == old(self).matcher,
            final(self).interests@ == old(self).interests@,
            final(self).clients@.len() == old(self).clients@.len(),
            forall|i: int|
                0 <= i < old(self).clients@.len() && i != p ==> #[trigger] final(self).clients@[i]
                    == old(self).clients@[i],
            final(self).clients@[p as int].id == old(self).clients@[p as int].id,
            final(self).clients@[p as int].client == old(self).clients@[p as int].client,
            final(self).clients@[p as int].registrations@ == old(self).clients@[p as int].registrations@,
            final(self).clients@[p as int].pending@.len() == 0,
    {
        let ghost before = self.clients@;
        let mut taken: Vec<FileEvent> = Vec::new();
        std::mem::swap(&mut taken, &mut self.clients[p].pending);
        proof {
            let after = self.clients@;
            assert forall|i: int| 0 <= i < after.len() implies valid_client(#[trigger] after[i]) by {
                assert(valid_client(before[i]));
                if i != p {
                    assert(after[i] == before[i]);
                }
            }
            assert forall|i: int, j: int| 0 <= i < j < after.len() implies (#[trigger] after[i]).id
                != (#[trigger] after[j]).id by {
                assert(before[i].id != before[j].id);
            }
        }
        taken
    }
}

/// What a server watches does not depend on what is queued for it.
proof fn lemma_watches_path_same(a: Client, b: Client, change: FileChange)
    requires
        a.registrations@ == b.registrations@,
    ensures
        forall|pending: Seq<(Seq<char>, FileChangeType)>, active: bool|
            #![trigger queued_one(pending, a, change, active)]
            queued_one(pending, a, change, active) == queued_one(pending, b, change, active),
{
}

/// What reaches the state from outside.
pub enum Event {
    FilesChanged(Vec<FileChange>),
    Register { id: u64, client: u64, name: String, watchers: Vec<Watcher> },
    Unregister { id: u64, name: String },
    RemoveClient { id: u64 },
}

impl State {
    /// Handles one event. Only an open connection can register watchers.
    pub fn handle(&mut self, event: Event, alive: &Vec<u64>) -> (sent: Vec<(u64, Vec<FileEvent>)>)
        requires
            old(self).wf(),
        ensures
            final(self).wf(),
            match event {
                Event::FilesChanged(changes) => notifies(
                    old(self).clients@,
                    old(self).active(),
                    final(self).clients@,
                    delivery_views(sent@),
                    changes@,
                    alive@,
                ) && forall|i: int|
                    0 <= i < final(self).clients@.len()
                        ==> (#[trigger] final(self).clients@[i]).pending@.len() == 0,
                Event::Register { id, client, name, watchers } => sent@.len() == 0 && if alive@.contains(
                    client,
                ) {
                    registers(
                        old(self).clients@,
                        final(self).clients@,
                        id,
                        client,
                        name@,
                        watches_of(watchers@),
                    )
                } else {
                    final(self).clients@ == old(self).clients@
                },
                Event::Unregister { id, name } => sent@.len() == 0 && unregisters(
                    old(self).clients@,
                    final(self).clients@,
                    id,
                    name@,
                ),
                Event::RemoveClient { id } => sent@.len() == 0 && client_of(
                    final(self).clients@,
                    id,
                ) is None && others_same(old(self).clients@, final(self).clients@, id),
            },
    {
        match event {
            Event::FilesChanged(changes) => self.notify(&changes, alive),
            Event::Register { id, client, name, watchers } => {
                if is_alive(alive, client) {
                    self.register(id, client, name, &watchers);
                }
                Vec::new()
            },
            Event::Unregister { id, name } => {
                self.unregister(id, name.as_str());
                Vec::new()
            },
            Event::RemoveClient { id } => {
                self.remove_client(id);
                Vec::new()
            },
        }
    }
}

/// Registering again under a name changes nothing but what stands under that name, and
/// unregistering a new name leaves a server as it was before the name was registered.
pub proof fn unregistering_undoes_registering(
    before: Seq<Client>,
    between: Seq<Client>,
    after: Seq<Client>,
    id: u64,
    client: u64,
    name: Seq<char>,
    watches: Seq<(Seq<char>, WatchKind)>,
)
    requires
        registers(before, between, id, client, name, watches),
        unregisters(between, after, id, name),
        client_of(before, id) matches Some(b) ==> b.client == client && registered(
            b.registrations@,
            name,
        ) is None && exists|other: Seq<char>| #[trigger]
            registered(b.registrations@, other) is Some,
    ensures
        others_same(before, after, id),
        client_of(before, id) is None ==> client_of(after, id) is None,
        client_of(before, id) matches Some(b) ==> (client_of(after, id) matches Some(c) && c.client
            == b.client && c.pending@ == b.pending@ && forall|n: Seq<char>| #[trigger]
            registered(c.registrations@, n) == registered(b.registrations@, n)),
{
    assert forall|other: u64| other != id implies #[trigger] client_of(after, other) == client_of(
        before,
        other,
    ) by {
        assert(client_of(between, other) == client_of(before, other));
    }
    let m = client_of(between, id)->0;
    if let Some(b) = client_of(before, id) {
        let other = choose|other: Seq<char>| #[trigger] registered(b.registrations@, other) is Some;
        assert(other != name);
        assert(registered(m.registrations@, other) is Some);
        let c = client_of(after, id)->0;
        assert forall|n: Seq<char>| #[trigger] registered(c.registrations@, n) == registered(
            b.registrations@,
            n,
        ) by {
            if n != name {
                assert(registered(m.registrations@, n) == registered(b.registrations@, n));
            }
        }
    }
}

/// However many of its registrations match, a server hears of a path and a type of change once
/// in a batch: a change that is queued is not queued again.
pub proof fn changes_are_queued_once(client: Client, changes: Seq<FileChange>, active: bool)
    requires
        no_repeats(event_views(client.pending@)),
    ensures
        no_repeats(queued(client, changes, active)),
    decreases changes.len(),
{
    if changes.len() > 0 {
        changes_are_queued_once(client, changes.drop_last(), active);
        let before = queued(client, changes.drop_last(), active);
        let last = changes.last();
        if let Some(uri) = last.uri {
            if !before.contains((uri@, last.typ)) {
                lemma_no_repeats_push(before, (uri@, last.typ));
            }
        }
    }
}

/// What was queued before stays queued, in its order, whatever changes follow.
pub proof fn queueing_keeps_order(client: Client, changes: Seq<FileChange>, active: bool)
    ensures
        event_views(client.pending@).is_prefix_of(queued(client, changes, active)),
    decreases changes.len(),
{
    if changes.len() > 0 {
        queueing_keeps_order(client, changes.drop_last(), active);
    }
}

proof fn lemma_flat_watches(regs: Seq<Registration>, w: (Seq<char>, WatchKind))
    ensures
        flat_watches(regs).contains(w) <==> exists|i: int, j: int|
            #![trigger regs[i].watches@[j]]
            0 <= i < regs.len() && 0 <= j < regs[i].watches@.len() && regs[i].watches@[j]@ == w,
    decreases regs.len(),
{
    if regs.len() > 0 {
        let front = regs.drop_last();
        let last = regs.last();
        lemma_flat_watches(front, w);
        let a = flat_watches(front);
        let b = watch_views(last.watches@);
        assert(regs[regs.len() - 1] == last);
        if flat_watches(regs).contains(w) {
            let k = choose|k: int| 0 <= k < (a + b).len() && (a + b)[k] == w;
            if k < a.len() {
                assert(a[k] == w);
                let (i, j) = choose|i: int, j: int|
                    #![trigger front[i].watches@[j]]
                    0 <= i < front.len() && 0 <= j < front[i].watches@.len()
                        && front[i].watches@[j]@ == w;
                assert(regs[i].watches@[j]@ == w);
            } else {
                assert(b[k - a.len()] == w);
                assert(regs[regs.len() - 1].watches@[k - a.len()]@ == w);
            }
        }
        if exists|i: int, j: int|
            #![trigger regs[i].watches@[j]]
            0 <= i < regs.len() && 0 <= j < regs[i].watches@.len() && regs[i].watches@[j]@ == w {
            let (i, j) = choose|i: int, j: int|
                #![trigger regs[i].watches@[j]]
                0 <= i < regs.len() && 0 <= j < regs[i].watches@.len() && regs[i].watches@[j]@ == w;
            if i < front.len() {
                assert(front[i].watches@[j]@ == w);
                let k = choose|k: int| 0 <= k < a.len() && a[k] == w;
                assert((a + b)[k] == w);
            } else {
                assert(b[j] == w);
                assert((a + b)[a.len() + j] == w);
            }
        }
    }
}

/// A server is to hear of a change exactly when one of its watches has a pattern for the path and
/// asks for that kind of change: creations where `create` is set, changes where `change` is and
/// deletions where `delete` is, whatever the other two say. No watch asks for other kinds.
pub proof fn watches_hear_the_kinds_they_ask_for(client: Client, path: Seq<char>, typ: FileChangeType)
    ensures
        watches_path(client, path, typ) <==> exists|i: int, j: int|
            #![trigger client.registrations@[i].watches@[j]]
            {
                let w = client.registrations@[i].watches@[j];
                &&& 0 <= i < client.registrations@.len()
                &&& 0 <= j < client.registrations@[i].watches@.len()
                &&& glob_matches(glob_source(w.glob), path)
                &&& (typ == FileChangeType::Created && w.kind.create) || (typ
                    == FileChangeType::Changed && w.kind.change) || (typ == FileChangeType::Deleted
                    && w.kind.delete)
            },
{
    let regs = client.registrations@;
    let flat = flat_watches(regs);
    if watches_path(client, path, typ) {
        let k = choose|k: int|
            0 <= k < flat.len() && {
                let w = #[trigger] flat[k];
                w.1.covers(typ) && glob_matches(w.0, path)
            };
        lemma_flat_watches(regs, flat[k]);
        assert(flat.contains(flat[k]));
        let (i, j) = choose|i: int, j: int|
            #![trigger regs[i].watches@[j]]
            0 <= i < regs.len() && 0 <= j < regs[i].watches@.len() && regs[i].watches@[j]@
                == flat[k];
        let w = client.registrations@[i].watches@[j];
        assert(w@ == flat[k]);
    }
    if exists|i: int, j: int|
        #![trigger client.registrations@[i].watches@[j]]
        {
            let w = client.registrations@[i].watches@[j];
            &&& 0 <= i < client.registrations@.len()
            &&& 0 <= j < client.registrations@[i].watches@.len()
            &&& glob_matches(glob_source(w.glob), path)
            &&& (typ == FileChangeType::Created && w.kind.create) || (typ == FileChangeType::Changed
                && w.kind.change) || (typ == FileChangeType::Deleted && w.kind.delete)
        } {
        let (i, j) = choose|i: int, j: int|
            #![trigger client.registrations@[i].watches@[j]]
            {
                let w = client.registrations@[i].watches@[j];
                &&& 0 <= i < client.registrations@.len()
                &&& 0 <= j < client.registrations@[i].watches@.len()
                &&& glob_matches(glob_source(w.glob), path)
                &&& (typ == FileChangeType::Created && w.kind.create) || (typ
                    == FileChangeType::Changed && w.kind.change) || (typ == FileChangeType::Deleted
                    && w.kind.delete)
            };
        let w = regs[i].watches@[j]@;
        lemma_flat_watches(regs, w);
        let k = choose|k: int| 0 <= k < flat.len() && flat[k] == w;
        assert(flat[k].1.covers(typ));
    }
}

/// What is queued for a server: what was queued, and the address and type of every change that it
/// is to hear of.
pub proof fn queued_events_are_heard_of(
    client: Client,
    changes: Seq<FileChange>,
    active: bool,
    uri: Seq<char>,
    typ: FileChangeType,
)
    ensures
        queued(client, changes, active).contains((uri, typ)) <==> event_views(
            client.pending@,
        ).contains((uri, typ)) || (active && exists|n: int|
            0 <= n < changes.len() && (#[trigger] changes[n]).uri is Some && changes[n].uri->0@ == uri
                && changes[n].typ == typ && watches_path(client, changes[n].path@, typ)),
    decreases changes.len(),
{
    if changes.len() > 0 {
        let front = changes.drop_last();
        let last = changes.last();
        queued_events_are_heard_of(client, front, active, uri, typ);
        let q = queued(client, front, active);
        assert(changes[changes.len() - 1] == last);
        assert(forall|n: int| 0 <= n < front.len() ==> front[n] == #[trigger] changes[n]);
        if last.uri is Some {
            let e = (last.uri->0@, last.typ);
            assert(q.push(e)[q.len() as int] == e);
            assert(q.push(e).contains((uri, typ)) <==> q.contains((uri, typ)) || e == (uri, typ)) by {
                if q.contains((uri, typ)) {
                    let k = choose|k: int| 0 <= k < q.len() && q[k] == (uri, typ);
                    assert(q.push(e)[k] == (uri, typ));
                }
                if q.push(e).contains((uri, typ)) {
                    let k = choose|k: int| 0 <= k < q.len() + 1 && q.push(e)[k] == (uri, typ);
                    if k < q.len() {
                        assert(q[k] == (uri, typ));
                    }
                }
            }
        }
        if exists|n: int|
            0 <= n < front.len() && (#[trigger] front[n]).uri is Some && front[n].uri->0@ == uri
                && front[n].typ == typ && watches_path(client, front[n].path@, typ) {
            let n = choose|n: int|
                0 <= n < front.len() && (#[trigger] front[n]).uri is Some && front[n].uri->0@ == uri
                    && front[n].typ == typ && watches_path(client, front[n].path@, typ);
            assert(changes[n] == front[n]);
        }
        if exists|n: int|
            0 <= n < changes.len() && (#[trigger] changes[n]).uri is Some && changes[n].uri->0@ == uri
                && changes[n].typ == typ && watches_path(client, changes[n].path@, typ) {
            let n = choose|n: int|
                0 <= n < changes.len() && (#[trigger] changes[n]).uri is Some
                    && changes[n].uri->0@ == uri && changes[n].typ == typ && watches_path(
                    client,
                    changes[n].path@,
                    typ,
                );
            if n < front.len() {
                assert(front[n] == changes[n]);
            }
        }
    }
}

/// Every watcher of some kind of change whose pattern can be built becomes a watch, and nothing
/// else does. A watcher that names no kinds asks for all three.
pub proof fn watchers_become_watches(watchers: Seq<Watcher>, text: Seq<char>, kind: WatchKind)
    ensures
        watches_of(watchers).contains((text, kind)) <==> exists|i: int|
            #![trigger watchers[i]]
            {
                &&& 0 <= i < watchers.len()
                &&& pattern_text(watchers[i].pattern) == Some(text)
                &&& glob_compiles(text)
                &&& match watchers[i].kind {
                    Some(k) => k == kind,
                    None => kind.create && kind.change && kind.delete,
                }
                &&& kind.create || kind.change || kind.delete
            },
        watches_of(watchers).len() <= watchers.len(),
    decreases watchers.len(),
{
    if watchers.len() > 0 {
        let front = watchers.drop_last();
        let last = watchers.last();
        watchers_become_watches(front, text, kind);
        let a = watches_of(front);
        let b = watches_of(watchers);
        assert(watchers[watchers.len() - 1] == last);
        assert(forall|i: int| 0 <= i < front.len() ==> front[i] == #[trigger] watchers[i]);
        if b.len() > a.len() {
            assert(b[a.len() as int] == b.last());
        }
        if a.contains((text, kind)) {
            let k = choose|k: int| 0 <= k < a.len() && a[k] == (text, kind);
            assert(b[k] == (text, kind));
            let i = choose|i: int|
                #![trigger front[i]]
                {
                    &&& 0 <= i < front.len()
                    &&& pattern_text(front[i].pattern) == Some(text)
                    &&& glob_compiles(text)
                    &&& match front[i].kind {
                        Some(k) => k == kind,
                        None => kind.create && kind.change && kind.delete,
                    }
                    &&& kind.create || kind.change || kind.delete
                };
            assert(watchers[i] == front[i]);
        } else if b.contains((text, kind)) {
            let k = choose|k: int| 0 <= k < b.len() && b[k] == (text, kind);
            if k < a.len() {
                assert(a[k] == (text, kind));
            }
            assert(b.last() == (text, kind));
        }
    }
}

/// A server that has registered watchers hears of a change that one of them asks for: of a
/// deletion where the watcher names deletions or no kinds at all, and likewise of a creation and
/// of a change.
pub proof fn registered_watchers_are_heard(
    before: Seq<Client>,
    after: Seq<Client>,
    id: u64,
    client: u64,
    name: Seq<char>,
    watchers: Seq<Watcher>,
    changes: Seq<FileChange>,
    i: int,
    n: int,
)
    requires
        registers(before, after, id, client, name, watches_of(watchers)),
        valid_client(client_of(after, id)->0),
        0 <= i < watchers.len(),
        0 <= n < changes.len(),
        changes[n].uri is Some,
        pattern_text(watchers[i].pattern) matches Some(text) && glob_compiles(text) && glob_matches(
            text,
            changes[n].path@,
        ),
        match changes[n].typ {
            FileChangeType::Created => watchers[i].kind is None || watchers[i].kind->0.create,
            FileChangeType::Changed => watchers[i].kind is None || watchers[i].kind->0.change,
            FileChangeType::Deleted => watchers[i].kind is None || watchers[i].kind->0.delete,
            FileChangeType::Other(_) => false,
        },
    ensures
        queued(client_of(after, id)->0, changes, true).contains(
            (changes[n].uri->0@, changes[n].typ),
        ),
{
    let c = client_of(after, id)->0;
    let text = pattern_text(watchers[i].pattern)->0;
    let kind = match watchers[i].kind {
        Some(kind) => kind,
        None => WatchKind { create: true, change: true, delete: true },
    };
    watchers_become_watches(watchers, text, kind);
    let ws = watches_of(watchers);
    let k = choose|k: int| 0 <= k < ws.len() && ws[k] == (text, kind);
    lemma_registered(c.registrations@, name);
    let r = choose|r: int|
        0 <= r < c.registrations@.len() && (#[trigger] c.registrations@[r]).name@ == name;
    assert(watch_views(c.registrations@[r].watches@) == ws);
    assert(c.registrations@[r].watches@[k]@ == (text, kind));
    watches_hear_the_kinds_they_ask_for(c, changes[n].path@, changes[n].typ);
    queued_events_are_heard_of(c, changes, true, changes[n].uri->0@, changes[n].typ);
}

/// A server none of whose watches asks for a type of change hears of no change of that type.
pub proof fn kinds_not_asked_for_are_not_heard(
    client: Client,
    changes: Seq<FileChange>,
    active: bool,
    uri: Seq<char>,
    typ: FileChangeType,
)
    requires
        client.pending@.len() == 0,
        forall|i: int, j: int|
            0 <= i < client.registrations@.len() && 0 <= j < client.registrations@[i].watches@.len()
                ==> {
                let kind = (#[trigger] client.registrations@[i].watches@[j]).kind;
                match typ {
                    FileChangeType::Created => !kind.create,
                    FileChangeType::Changed => !kind.change,
                    FileChangeType::Deleted => !kind.delete,
                    FileChangeType::Other(_) => true,
                }
            },
    ensures
        !queued(client, changes, active).contains((uri, typ)),
{
    queued_events_are_heard_of(client, changes, active, uri, typ);
    assert forall|n: int| 0 <= n < changes.len() implies !watches_path(
        client,
        (#[trigger] changes[n]).path@,
        typ,
    ) by {
        watches_hear_the_kinds_they_ask_for(client, changes[n].path@, typ);
    }
}

/// The open connections are sent what is queued for them; nothing is sent to others, and nobody
/// is sent an empty list.
pub proof fn open_connections_are_sent_what_is_queued(
    clients: Seq<Client>,
    alive: Seq<u64>,
    id: u64,
    events: Seq<(Seq<char>, FileChangeType)>,
)
    ensures
        deliveries(clients, alive).contains((id, events)) <==> exists|i: int|
            0 <= i < clients.len() && (#[trigger] clients[i]).id == id && alive.contains(
                clients[i].client,
            ) && event_views(clients[i].pending@) == events && events.len() > 0,
    decreases clients.len(),
{
    if clients.len() > 0 {
        let front = clients.drop_last();
        let last = clients.last();
        open_connections_are_sent_what_is_queued(front, alive, id, events);
        let a = deliveries(front, alive);
        let b = deliveries(clients, alive);
        assert(clients[clients.len() - 1] == last);
        assert(forall|i: int| 0 <= i < front.len() ==> front[i] == #[trigger] clients[i]);
        if b.len() > a.len() {
            assert(b[a.len() as int] == b.last());
        }
        if a.contains((id, events)) {
            let k = choose|k: int| 0 <= k < a.len() && a[k] == (id, events);
            assert(b[k] == (id, events));
            let i = choose|i: int|
                0 <= i < front.len() && (#[trigger] front[i]).id == id && alive.contains(
                    front[i].client,
                ) && event_views(front[i].pending@) == events && events.len() > 0;
            assert(clients[i] == front[i]);
        } else if b.contains((id, events)) {
            let k = choose|k: int| 0 <= k < b.len() && b[k] == (id, events);
            if k < a.len() {
                assert(a[k] == (id, events));
            }
        }
    }
}

/// The servers that stay are those whose connections are open, in their order.
pub proof fn open_connections_stay(clients: Seq<Client>, alive: Seq<u64>)
    ensures
        forall|i: int|
            0 <= i < clients.len() && alive.contains((#[trigger] clients[i]).client)
                ==> live_clients(clients, alive).contains(clients[i]),
        forall|k: int|
            0 <= k < live_clients(clients, alive).len() ==> alive.contains(
                (#[trigger] live_clients(clients, alive)[k]).client,
            ) && clients.contains(live_clients(clients, alive)[k]),
    decreases clients.len(),
{
    if clients.len() > 0 {
        let front = clients.drop_last();
        let last = clients.last();
        open_connections_stay(front, alive);
        let a = live_clients(front, alive);
        let b = live_clients(clients, alive);
        assert(clients[clients.len() - 1] == last);
        assert forall|i: int| 0 <= i < clients.len() && alive.contains(
            (#[trigger] clients[i]).client,
        ) implies b.contains(clients[i]) by {
            if i < front.len() {
                assert(front[i] == clients[i]);
                let k = choose|k: int| 0 <= k < a.len() && a[k] == front[i];
                assert(b[k] == clients[i]);
            } else {
                assert(b[a.len() as int] == last);
            }
        }
        assert forall|k: int| 0 <= k < b.len() implies alive.contains((#[trigger] b[k]).client)
            && clients.contains(b[k]) by {
            if k < a.len() {
                assert(b[k] == a[k]);
                let i = choose|i: int| 0 <= i < front.len() && front[i] == a[k];
                assert(clients[i] == a[k]);
            }
        }
    }
}

/// A pattern below a directory names the directory once, with one slash behind it, however many
/// slashes its path ends with.
pub proof fn relative_patterns_lie_below_their_base(base: String, pattern: String)
    ensures
        ({
            let dir = without_slashes(base@);
            let relative = GlobPattern::Relative { base: Some(base), pattern };
            &&& dir.is_prefix_of(base@)
            &&& dir.len() > 0 ==> dir.last() != '/'
            &&& forall|k: int| dir.len() <= k < base@.len() ==> base@[k] == '/'
            &&& (forall|k: int|
                0 <= k < dir.len() ==> !"?*[]{}"@.contains(#[trigger] dir[k])) ==> pattern_text(
                relative,
            ) == Some(dir + seq!['/'] + pattern@)
            &&& pattern_text(relative) == Some(glob_escaped(dir) + seq!['/'] + pattern@)
        }),
{
    let dir = without_slashes(base@);
    lemma_without_slashes(base@);
    reveal_strlit("?*[]{}");
    let meta = "?*[]{}"@;
    if forall|k: int| 0 <= k < dir.len() ==> !meta.contains(#[trigger] dir[k]) {
        assert forall|k: int| 0 <= k < dir.len() implies !glob_meta(#[trigger] dir[k]) by {
            assert(meta[0] == '?' && meta[1] == '*' && meta[2] == '[' && meta[3] == ']' && meta[4]
                == '{' && meta[5] == '}');
            assert(!meta.contains(dir[k]));
        }
        lemma_plain_text_is_its_own_pattern(dir);
    }
    assert(glob_escaped(dir).push('/') + pattern@ =~= glob_escaped(dir) + seq!['/'] + pattern@);
}

proof fn lemma_without_slashes(s: Seq<char>)
    ensures
        ({
            let dir = without_slashes(s);
            &&& dir.is_prefix_of(s)
            &&& dir.len() > 0 ==> dir.last() != '/'
            &&& forall|k: int| dir.len() <= k < s.len() ==> s[k] == '/'
        }),
    decreases s.len(),
{
    if s.len() > 0 && s.last() == '/' {
        lemma_without_slashes(s.drop_last());
        let dir = without_slashes(s);
        assert forall|k: int| dir.len() <= k < s.len() implies s[k] == '/' by {
            if k < s.len() - 1 {
                assert(s.drop_last()[k] == s[k]);
            }
        }
    }
}

proof fn lemma_plain_text_is_its_own_pattern(s: Seq<char>)
    requires
        forall|k: int| 0 <= k < s.len() ==> !glob_meta(#[trigger] s[k]),
    ensures
        glob_escaped(s) == s,
    decreases s.len(),
{
    if s.len() > 0 {
        assert forall|k: int| 0 <= k < s.drop_last().len() implies !glob_meta(
            #[trigger] s.drop_last()[k],
        ) by {
            assert(s.drop_last()[k] == s[k]);
        }
        lemma_plain_text_is_its_own_pattern(s.drop_last());
        assert(!glob_meta(s[s.len() - 1]));
        assert(s.drop_last().push(s.last()) =~= s);
    }
}

/// The texts that patterns were built from.
pub open spec fn glob_texts(globs: Seq<&globset::Glob>) -> Seq<Seq<char>> {
    globs.map_values(|g: &globset::Glob| glob_source(*g))
}

} // verus!
