//! Going to the files and addresses that a selection names.

use crate::commands::catalog::same_text;
use crate::commands::insert::{bytes, char_bytes, lemma_bytes};
use crate::commands::search::{
    char_at_byte, char_of, characters_begin_apart, lemma_bytes_prefix, on_character,
};
use crate::range::Range;
use crate::text::{line_of, line_start, Text};
use vstd::prelude::*;

verus! {

/// A link that a language server found in a document. It may leave the target to be asked for,
/// where the server can be asked.
pub struct DocumentLink {
    pub start: usize,
    pub end: usize,
    pub server: u64,
    pub target: Option<String>,
    pub resolvable: bool,
}

impl DocumentLink {
    /// What tells a link apart from others of the document.
    pub open spec fn key(&self) -> (usize, usize, u64) {
        (self.start, self.end, self.server)
    }

    /// A range covers part of the link; an empty range stands in it.
    pub open spec fn touched_by(&self, r: Range) -> bool {
        if r.anchor == r.head {
            self.start <= r.lo() < self.end
        } else {
            r.lo() < self.end && r.hi() > self.start
        }
    }
}

/// Whether a range overlaps a link.
pub fn selection_overlaps_document_link(selection: &Range, link: &DocumentLink) -> (b: bool)
    ensures
        b == link.touched_by(*selection),
{
    if selection.is_empty() {
        let pos = selection.from();
        link.start <= pos && pos < link.end
    } else {
        selection.from() < link.end && selection.to() > link.start
    }
}

/// The links that a range overlaps, among the first `n`.
pub open spec fn links_under(r: Range, links: Seq<DocumentLink>, n: nat) -> Seq<int>
    decreases n,
{
    if n == 0 {
        Seq::empty()
    } else {
        let before = links_under(r, links, (n - 1) as nat);
        if links[n - 1].touched_by(r) {
            before.push(n - 1)
        } else {
            before
        }
    }
}

/// The links that the first `n` ranges overlap, range by range.
pub open spec fn links_touched(ranges: Seq<Range>, links: Seq<DocumentLink>, n: nat) -> Seq<int>
    decreases n,
{
    if n == 0 {
        Seq::empty()
    } else {
        links_touched(ranges, links, (n - 1) as nat) + links_under(
            ranges[n - 1],
            links,
            links.len(),
        )
    }
}

/// The targets of links, each once, in the order in which they first occur.
pub open spec fn distinct_targets(links: Seq<DocumentLink>, touched: Seq<int>) -> Seq<Seq<char>>
    decreases touched.len(),
{
    if touched.len() == 0 {
        Seq::empty()
    } else {
        let before = distinct_targets(links, touched.drop_last());
        match links[touched.last()].target {
            Some(target) if !before.contains(target@) => before.push(target@),
            _ => before,
        }
    }
}

/// One of some links has no target and is the same as `link`.
pub open spec fn asked_before(links: Seq<DocumentLink>, touched: Seq<int>, link: int) -> bool {
    exists|k: int|
        0 <= k < touched.len() && links[#[trigger] touched[k]].target is None
            && links[touched[k]].key() == links[link].key()
}

/// The links whose targets are asked for, each once.
pub open spec fn links_to_resolve(links: Seq<DocumentLink>, touched: Seq<int>) -> Seq<int>
    decreases touched.len(),
{
    if touched.len() == 0 {
        Seq::empty()
    } else {
        let before = links_to_resolve(links, touched.drop_last());
        let link = touched.last();
        if links[link].target is None && !asked_before(links, touched.drop_last(), link)
            && links[link].resolvable {
            before.push(link)
        } else {
            before
        }
    }
}

/// The ranges without a link, among the first `n`.
pub open spec fn unlinked(ranges: Seq<Range>, links: Seq<DocumentLink>, n: nat) -> Seq<Range>
    decreases n,
{
    if n == 0 {
        Seq::empty()
    } else {
        let before = unlinked(ranges, links, (n - 1) as nat);
        if links_under(ranges[n - 1], links, links.len()).len() == 0 {
            before.push(ranges[n - 1])
        } else {
            before
        }
    }
}

/// What a selection names: the targets of links, links whose targets are to be asked for, and the
/// ranges in which a path is to be looked for.
pub struct GotoFile {
    pub targets: Vec<String>,
    pub requests: Vec<usize>,
    pub fallback: Vec<Range>,
}

/// The characters of some strings.
pub open spec fn string_views(parts: Seq<String>) -> Seq<Seq<char>> {
    parts.map_values(|s: String| s@)
}

/// Whether a string is among some.
pub fn holds_text(parts: &Vec<String>, text: &str) -> (b: bool)
    ensures
        b == string_views(parts@).contains(text@),
{
    let ghost all = string_views(parts@);
    let mut i: usize = 0;
    while i < parts.len()
        invariant
            i <= parts@.len(),
            all == string_views(parts@),
            forall|j: int| 0 <= j < i ==> #[trigger] all[j] != text@,
        decreases parts.len() - i,
    {
        assert(all[i as int] == parts@[i as int]@);
        if same_text(parts[i].as_str(), text) {
            return true;
        }
        i += 1;
    }
    false
}

/// Numbers of places, as mathematical integers.
pub open spec fn places(v: Seq<usize>) -> Seq<int> {
    v.map_values(|k: usize| k as int)
}

/// Finds what a selection names. Links come before paths that the text itself holds.
pub fn goto_file_impl(ranges: &Vec<Range>, links: &Vec<DocumentLink>) -> (found: GotoFile)
    ensures
        ({
            let touched = links_touched(ranges@, links@, ranges@.len());
            &&& string_views(found.targets@) == distinct_targets(links@, touched)
            &&& places(found.requests@) == links_to_resolve(links@, touched)
            &&& found.fallback@ == unlinked(ranges@, links@, ranges@.len())
        }),
{
    let mut targets: Vec<String> = Vec::new();
    let mut requests: Vec<usize> = Vec::new();
    let mut fallback: Vec<Range> = Vec::new();
    let mut seen: Vec<(usize, usize, u64)> = Vec::new();
    let ghost mut touched: Seq<int> = Seq::empty();
    let mut i: usize = 0;
    assert(string_views(targets@) =~= Seq::<Seq<char>>::empty());
    assert(places(requests@) =~= Seq::<int>::empty());
    while i < ranges.len()
        invariant
            i <= ranges@.len(),
            touched == links_touched(ranges@, links@, i as nat),
            string_views(targets@) == distinct_targets(links@, touched),
            places(requests@) == links_to_resolve(links@, touched),
            fallback@ == unlinked(ranges@, links@, i as nat),
            keys_seen(links@, touched, seen@),
        decreases ranges.len() - i,
    {
        let r = ranges[i];
        let ghost before = touched;
        let mut matched: bool = false;
        let mut k: usize = 0;
        assert(before + links_under(r, links@, 0) =~= before);
        while k < links.len()
            invariant
                k <= links@.len(),
                touched == before + links_under(r, links@, k as nat),
                string_views(targets@) == distinct_targets(links@, touched),
                places(requests@) == links_to_resolve(links@, touched),
                keys_seen(links@, touched, seen@),
                matched <==> links_under(r, links@, k as nat).len() > 0,
            decreases links.len() - k,
        {
            if selection_overlaps_document_link(&r, &links[k]) {
                matched = true;
                let ghost now = touched;
                proof {
                    touched = touched.push(k as int);
                    assert(touched =~= before + links_under(r, links@, (k + 1) as nat));
                    assert(touched.drop_last() =~= now);
                    assert(touched.last() == k);
                }
                match &links[k].target {
                    Some(target) => {
                        if !holds_text(&targets, target.as_str()) {
                            let copy = target.clone();
                            assert(string_views(targets@.push(copy)) =~= string_views(
                                targets@,
                            ).push(target@));
                            targets.push(copy);
                        }
                    },
                    None => {
                        let key = (links[k].start, links[k].end, links[k].server);
                        if !holds_key(&seen, key) {
                            seen.push(key);
                            assert(!asked_before(links@, now, k as int));
                            if links[k].resolvable {
                                assert(places(requests@.push(k)) =~= places(requests@).push(
                                    k as int,
                                ));
                                requests.push(k);
                            }
                        } else {
                            assert(asked_before(links@, now, k as int));
                        }
                    },
                }
                proof {
                    lemma_keys_seen_step(links@, now, k as int, seen@);
                }
            }
            k += 1;
        }
        if !matched {
            fallback.push(r);
        }
        i += 1;
    }
    GotoFile { targets, requests, fallback }
}

/// The keys in `seen` are those of the touched links without a target.
spec fn keys_seen(
    links: Seq<DocumentLink>,
    touched: Seq<int>,
    seen: Seq<(usize, usize, u64)>,
) -> bool {
    forall|key: (usize, usize, u64)| #[trigger]
        seen.contains(key) <==> exists|k: int|
            0 <= k < touched.len() && links[#[trigger] touched[k]].target is None
                && links[touched[k]].key() == key
}

fn holds_key(seen: &Vec<(usize, usize, u64)>, key: (usize, usize, u64)) -> (b: bool)
    ensures
        b == seen@.contains(key),
{
    let mut i: usize = 0;
    while i < seen.len()
        invariant
            i <= seen@.len(),
            forall|j: int| 0 <= j < i ==> seen@[j] != key,
        decreases seen.len() - i,
    {
        let s = seen[i];
        if s.0 == key.0 && s.1 == key.1 && s.2 == key.2 {
            return true;
        }
        i += 1;
    }
    false
}

/// One more touched link.
proof fn lemma_keys_seen_step(
    links: Seq<DocumentLink>,
    now: Seq<int>,
    link: int,
    seen: Seq<(usize, usize, u64)>,
)
    requires
        links[link].target is Some ==> keys_seen(links, now, seen),
        links[link].target is None ==> (exists|before: Seq<(usize, usize, u64)>| #[trigger]
            keys_seen(links, now, before) && (if before.contains(links[link].key()) {
                seen == before
            } else {
                seen == before.push(links[link].key())
            })),
    ensures
        keys_seen(links, now.push(link), seen),
{
    let after = now.push(link);
    if links[link].target is Some {
        assert forall|key: (usize, usize, u64)| #[trigger] seen.contains(key) <==> exists|k: int|
            0 <= k < after.len() && links[#[trigger] after[k]].target is None
                && links[after[k]].key() == key by {
            if seen.contains(key) {
                let k = choose|k: int|
                    0 <= k < now.len() && links[#[trigger] now[k]].target is None
                        && links[now[k]].key() == key;
                assert(after[k] == now[k]);
            }
            if exists|k: int|
                0 <= k < after.len() && links[#[trigger] after[k]].target is None
                    && links[after[k]].key() == key {
                let k = choose|k: int|
                    0 <= k < after.len() && links[#[trigger] after[k]].target is None
                        && links[after[k]].key() == key;
                assert(k < now.len());
                assert(now[k] == after[k]);
            }
        }
    } else {
        let before = choose|before: Seq<(usize, usize, u64)>| #[trigger]
            keys_seen(links, now, before) && (if before.contains(links[link].key()) {
                seen == before
            } else {
                seen == before.push(links[link].key())
            });
        let own = links[link].key();
        assert forall|key: (usize, usize, u64)| #[trigger] seen.contains(key) <==> exists|k: int|
            0 <= k < after.len() && links[#[trigger] after[k]].target is None
                && links[after[k]].key() == key by {
            if seen.contains(key) {
                if key == own {
                    assert(after[now.len() as int] == link);
                } else {
                    let p = choose|p: int| 0 <= p < seen.len() && seen[p] == key;
                    assert(before.contains(key)) by {
                        assert(p < before.len());
                        assert(before[p] == key);
                    }
                    let k = choose|k: int|
                        0 <= k < now.len() && links[#[trigger] now[k]].target is None
                            && links[now[k]].key() == key;
                    assert(after[k] == now[k]);
                }
            }
            if exists|k: int|
                0 <= k < after.len() && links[#[trigger] after[k]].target is None
                    && links[after[k]].key() == key {
                let k = choose|k: int|
                    0 <= k < after.len() && links[#[trigger] after[k]].target is None
                        && links[after[k]].key() == key;
                if k < now.len() {
                    assert(now[k] == after[k]);
                    assert(before.contains(key));
                    let p = choose|p: int| 0 <= p < before.len() && before[p] == key;
                    assert(seen[p] == key);
                } else {
                    assert(key == own);
                    if before.contains(own) {
                        let p = choose|p: int| 0 <= p < before.len() && before[p] == own;
                        assert(seen[p] == own);
                    } else {
                        assert(seen[before.len() as int] == own);
                    }
                }
            }
        }
    }
}

/// Strings that are there, each once, in the order in which they first occur.
pub open spec fn distinct_found(found: Seq<Option<String>>) -> Seq<Seq<char>>
    decreases found.len(),
{
    if found.len() == 0 {
        Seq::empty()
    } else {
        let before = distinct_found(found.drop_last());
        match found.last() {
            Some(target) if !before.contains(target@) => before.push(target@),
            _ => before,
        }
    }
}

/// The targets that asking for them gave, each once. A link may have turned out to have none.
pub fn resolved_targets(found: &Vec<Option<String>>) -> (targets: Vec<String>)
    ensures
        string_views(targets@) == distinct_found(found@),
{
    let mut targets: Vec<String> = Vec::new();
    let mut i: usize = 0;
    assert(found@.take(0) =~= Seq::<Option<String>>::empty());
    assert(string_views(targets@) =~= Seq::<Seq<char>>::empty());
    while i < found.len()
        invariant
            i <= found@.len(),
            string_views(targets@) == distinct_found(found@.take(i as int)),
        decreases found.len() - i,
    {
        assert(found@.take(i + 1).drop_last() =~= found@.take(i as int));
        assert(found@.take(i + 1).last() == found@[i as int]);
        if let Some(target) = &found[i] {
            if !holds_text(&targets, target.as_str()) {
                let copy = target.clone();
                assert(string_views(targets@.push(copy)) =~= string_views(targets@).push(target@));
                targets.push(copy);
            }
        }
        i += 1;
    }
    assert(found@.take(i as int) =~= found@);
    targets
}

/// The character at least `n` bytes before character `k`, or the first one.
pub open spec fn back_by_bytes(s: Seq<char>, k: int, n: int) -> int
    decreases k,
{
    if n <= 0 || k <= 0 {
        k
    } else {
        back_by_bytes(s, k - 1, n - char_bytes(s[k - 1]))
    }
}

/// The character at least `n` bytes behind character `k`, or the end of the text.
pub open spec fn on_by_bytes(s: Seq<char>, k: int, n: int) -> int
    decreases s.len() - k,
{
    if n <= 0 || k >= s.len() {
        k
    } else {
        on_by_bytes(s, k + 1, n - char_bytes(s[k]))
    }
}

/// The part of the cursor's line in which a path is looked for: about a thousand bytes on either
/// side of the cursor.
pub open spec fn path_window(s: Seq<char>, pos: int) -> (int, int) {
    let line = line_of(s, pos);
    let back = back_by_bytes(s, pos, 1000);
    let on = on_by_bytes(s, pos, 1000);
    (
        if line_start(s, line) >= back {
            line_start(s, line)
        } else {
            back
        },
        if line_start(s, line + 1) <= on {
            line_start(s, line + 1)
        } else {
            on
        },
    )
}

/// How many bytes a character takes in UTF-8.
pub fn char_width(c: char) -> (n: usize)
    ensures
        n == char_bytes(c),
        1 <= n <= 4,
{
    let code = c as u32;
    if code < 0x80 {
        1
    } else if code < 0x800 {
        2
    } else if code < 0x10000 {
        3
    } else {
        4
    }
}

/// The part of the cursor's line in which a path is looked for.
pub fn search_window(text: &Text, pos: usize) -> (window: (usize, usize))
    requires
        pos <= text@.len(),
        text@.len() < usize::MAX,
    ensures
        (window.0 as int, window.1 as int) == path_window(text@, pos as int),
        window.0 <= pos <= window.1 <= text@.len(),
{
    let line = text.char_to_line(pos);
    let first = text.line_to_char(line);
    let next = text.line_to_char(line + 1);
    proof {
        crate::text::lemma_line_of_bounds(text@, pos as int);
    }
    let mut back: usize = pos;
    let mut left: usize = 1000;
    while left > 0 && back > 0
        invariant
            back <= pos <= text@.len(),
            left <= 1000,
            back_by_bytes(text@, pos as int, 1000) == back_by_bytes(
                text@,
                back as int,
                left as int,
            ),
        decreases back,
    {
        let n = char_width(text.chars[back - 1]);
        if n >= left {
            proof {
                reveal_with_fuel(back_by_bytes, 2);
            }
            left = 0;
        } else {
            left -= n;
        }
        back -= 1;
    }
    let mut on: usize = pos;
    left = 1000;
    while left > 0 && on < text.chars.len()
        invariant
            pos <= on <= text@.len(),
            left <= 1000,
            on_by_bytes(text@, pos as int, 1000) == on_by_bytes(text@, on as int, left as int),
        decreases text@.len() - on,
    {
        let n = char_width(text.chars[on]);
        if n >= left {
            proof {
                reveal_with_fuel(on_by_bytes, 2);
            }
            left = 0;
        } else {
            left -= n;
        }
        on += 1;
    }
    (
        if first >= back {
            first
        } else {
            back
        },
        if next <= on {
            next
        } else {
            on
        },
    )
}

/// The first of some paths, given by the bytes that they cover, that the byte `pos` lies in or
/// next to; the paths are looked through up to the first one that begins further on.
pub open spec fn path_at(paths: Seq<(usize, usize)>, pos: int) -> Option<int>
    decreases paths.len(),
{
    if paths.len() == 0 || paths[0].0 > pos + 1 {
        None
    } else if pos <= paths[0].1 {
        Some(0)
    } else {
        match path_at(paths.skip(1), pos) {
            Some(k) => Some(k + 1),
            None => None,
        }
    }
}

/// Finds the path at the cursor.
pub fn pick_path(paths: &Vec<(usize, usize)>, pos: usize) -> (found: Option<usize>)
    requires
        pos < usize::MAX,
    ensures
        (match found {
            Some(k) => Some(k as int),
            None => None,
        }) == path_at(paths@, pos as int),
{
    let mut i: usize = 0;
    assert(paths@.skip(0) =~= paths@);
    while i < paths.len()
        invariant
            i <= paths@.len(),
            pos < usize::MAX,
            path_at(paths@, pos as int) == (match path_at(paths@.skip(i as int), pos as int) {
                Some(k) => Some(k + i),
                None => None,
            }),
        decreases paths.len() - i,
    {
        assert(paths@.skip(i as int).skip(1) =~= paths@.skip(i + 1));
        assert(paths@.skip(i as int)[0] == paths@[i as int]);
        if paths[i].0 > pos + 1 {
            return None;
        }
        if pos <= paths[i].1 {
            return Some(i);
        }
        i += 1;
    }
    None
}

/// `s` without the whitespace around it.
pub open spec fn trimmed(s: Seq<char>) -> Seq<char> {
    let front = crate::chars::leading_whitespace(s);
    let rest = s.skip(front);
    rest.take(rest.len() - crate::chars::trailing_whitespace(rest))
}

/// Drops the whitespace around some characters.
pub fn trim(s: &Vec<char>) -> (out: Vec<char>)
    ensures
        out@ == trimmed(s@),
{
    let front = crate::chars::count_leading_whitespace(s, 0, s.len());
    assert(s@.subrange(0, s@.len() as int) =~= s@);
    let back = crate::chars::count_trailing_whitespace(s, front, s.len());
    assert(s@.subrange(front as int, s@.len() as int) =~= s@.skip(front as int));
    let mut out: Vec<char> = Vec::new();
    let mut i: usize = front;
    while i < s.len() - back
        invariant
            front <= i <= s@.len() - back,
            out@ == s@.subrange(front as int, i as int),
        decreases s@.len() - i,
    {
        out.push(s[i]);
        i += 1;
    }
    assert(out@ =~= trimmed(s@));
    out
}

/// The texts of ranges, trimmed; blank ones are left out.
pub open spec fn range_paths(text: Seq<char>, ranges: Seq<Range>) -> Seq<Seq<char>>
    decreases ranges.len(),
{
    if ranges.len() == 0 {
        Seq::empty()
    } else {
        let before = range_paths(text, ranges.drop_last());
        let last = ranges.last();
        let part = trimmed(text.subrange(last.lo(), last.hi()));
        if part.len() > 0 {
            before.push(part)
        } else {
            before
        }
    }
}

/// The paths that ranges name.
pub fn paths_of_ranges(text: &Text, ranges: &Vec<Range>) -> (paths: Vec<Vec<char>>)
    requires
        crate::selection::all_within(ranges@, text@.len() as int),
    ensures
        crate::strings::views(paths@) == range_paths(text@, ranges@),
{
    let mut paths: Vec<Vec<char>> = Vec::new();
    let mut i: usize = 0;
    assert(ranges@.take(0) =~= Seq::<Range>::empty());
    assert(crate::strings::views(paths@) =~= Seq::<Seq<char>>::empty());
    while i < ranges.len()
        invariant
            i <= ranges@.len(),
            crate::selection::all_within(ranges@, text@.len() as int),
            crate::strings::views(paths@) == range_paths(text@, ranges@.take(i as int)),
        decreases ranges.len() - i,
    {
        assert(ranges@.take(i + 1).drop_last() =~= ranges@.take(i as int));
        assert(ranges@[i as int].within(text@.len() as int));
        let part = trim(&ranges[i].fragment(text));
        if part.len() > 0 {
            assert(crate::strings::views(paths@.push(part)) =~= crate::strings::views(paths@).push(
                part@,
            ));
            paths.push(part);
        }
        i += 1;
    }
    assert(ranges@.take(i as int) =~= ranges@);
    paths
}

/// Where the paths of the ranges without a link are looked for.
#[derive(Clone, Copy, Debug, PartialEq, Eq, Structural)]
pub enum PathSource {
    Nowhere,
    /// Around the cursor of the only range, which covers one character.
    AroundCursor,
    /// In the texts of the ranges.
    Ranges,
}

/// Where the paths of the ranges without a link are looked for.
pub fn path_source(fallback: &Vec<Range>) -> (source: PathSource)
    ensures
        source == (if fallback@.len() == 0 {
            PathSource::Nowhere
        } else if fallback@.len() == 1 && fallback@[0].hi() - fallback@[0].lo() == 1 {
            PathSource::AroundCursor
        } else {
            PathSource::Ranges
        }),
{
    if fallback.len() == 0 {
        PathSource::Nowhere
    } else if fallback.len() == 1 && fallback[0].len() == 1 {
        PathSource::AroundCursor
    } else {
        PathSource::Ranges
    }
}

proof fn lemma_back_by_bytes(s: Seq<char>, k: int, n: int)
    requires
        0 <= k <= s.len(),
    ensures
        0 <= back_by_bytes(s, k, n) <= k,
        bytes(s.subrange(back_by_bytes(s, k, n), k)) <= (if n > 0 {
            n + 3
        } else {
            0
        }),
    decreases k,
{
    let b = back_by_bytes(s, k, n);
    if n > 0 && k > 0 {
        lemma_back_by_bytes(s, k - 1, n - char_bytes(s[k - 1]));
        assert(s.subrange(b, k).drop_last() =~= s.subrange(b, k - 1));
        assert(s.subrange(b, k).last() == s[k - 1]);
    }
}

proof fn lemma_fewer_bytes(s: Seq<char>, a: int, b: int, k: int)
    requires
        0 <= a <= b <= k <= s.len(),
    ensures
        bytes(s.subrange(b, k)) <= bytes(s.subrange(a, k)),
    decreases k - b,
{
    if b < k {
        lemma_fewer_bytes(s, a, b, k - 1);
        assert(s.subrange(a, k).drop_last() =~= s.subrange(a, k - 1));
        assert(s.subrange(b, k).drop_last() =~= s.subrange(b, k - 1));
    } else {
        lemma_bytes(s.subrange(a, k));
        assert(s.subrange(b, k).len() == 0);
    }
}

/// The text in which a path is looked for around a cursor.
pub open spec fn window_text(text: Seq<char>, cursor: int) -> Seq<char> {
    text.subrange(path_window(text, cursor).0, path_window(text, cursor).1)
}

/// The path at a cursor, among paths that are given by the bytes which they cover in the text
/// around it.
pub open spec fn path_around(text: Seq<char>, cursor: int, paths: Seq<(usize, usize)>) -> Option<
    Seq<char>,
> {
    let window = window_text(text, cursor);
    let pos = bytes(text.subrange(path_window(text, cursor).0, cursor));
    match path_at(paths, pos) {
        Some(k) => Some(
            window.subrange(
                char_of(window, paths[k].0 as int),
                char_of(window, paths[k].1 as int),
            ),
        ),
        None => None,
    }
}

/// Paths cover whole characters of a text.
pub open spec fn whole_paths(paths: Seq<(usize, usize)>, window: Seq<char>) -> bool {
    forall|i: int|
        0 <= i < paths.len() ==> (#[trigger] paths[i]).0 <= paths[i].1 && on_character(
            window,
            paths[i].0 as int,
        ) && on_character(window, paths[i].1 as int)
}

/// Finds the path at a cursor. `paths` holds what looks like a path in the text around it.
pub fn path_around_cursor(text: &Text, cursor: usize, paths: &Vec<(usize, usize)>) -> (found:
    Option<Vec<char>>)
    requires
        cursor <= text@.len(),
        text@.len() < usize::MAX,
        whole_paths(paths@, window_text(text@, cursor as int)),
    ensures
        (match found {
            Some(path) => Some(path@),
            None => None,
        }) == path_around(text@, cursor as int, paths@),
{
    let (first, last) = search_window(text, cursor);
    let ghost near = text@.subrange(first as int, cursor as int);
    proof {
        lemma_back_by_bytes(text@, cursor as int, 1000);
        lemma_fewer_bytes(
            text@,
            back_by_bytes(text@, cursor as int, 1000),
            first as int,
            cursor as int,
        );
        assert(near.take(0) =~= Seq::<char>::empty());
    }
    let mut pos: usize = 0;
    let mut i: usize = first;
    while i < cursor
        invariant
            first <= i <= cursor <= text@.len(),
            near == text@.subrange(first as int, cursor as int),
            bytes(near) <= 1003,
            pos == bytes(near.take(i - first)),
        decreases cursor - i,
    {
        let width = char_width(text.chars[i]);
        proof {
            let n = i - first;
            assert(near.take(n + 1).drop_last() =~= near.take(n));
            assert(near.take(n + 1).last() == near[n]);
            lemma_bytes_prefix(near, n + 1, near.len() as int);
            assert(near.take(near.len() as int) =~= near);
        }
        pos += width;
        i += 1;
    }
    assert(near.take(near.len() as int) =~= near);
    let window = text.slice(first, last);
    match pick_path(paths, pos) {
        Some(k) => {
            proof {
                lemma_path_at(paths@, pos as int);
            }
            let (start, end) = paths[k];
            assert(paths@[k as int].0 <= paths@[k as int].1);
            match (char_at_byte(&window, start), char_at_byte(&window, end)) {
                (Some(from), Some(to)) => {
                    proof {
                        let w = window@;
                        characters_begin_apart(w, start as int, from as int, char_of(w, start as int));
                        characters_begin_apart(w, end as int, to as int, char_of(w, end as int));
                        if to < from {
                            lemma_bytes_prefix(w, to as int, from as int);
                        }
                    }
                    let mut path: Vec<char> = Vec::new();
                    let mut j: usize = from;
                    while j < to
                        invariant
                            from <= j <= to <= window@.len(),
                            path@ == window@.subrange(from as int, j as int),
                        decreases to - j,
                    {
                        path.push(window[j]);
                        j += 1;
                    }
                    Some(path)
                },
                _ => None,
            }
        },
        None => None,
    }
}

proof fn lemma_path_at(paths: Seq<(usize, usize)>, pos: int)
    ensures
        path_at(paths, pos) matches Some(k) ==> 0 <= k < paths.len(),
    decreases paths.len(),
{
    if paths.len() > 0 {
        lemma_path_at(paths.skip(1), pos);
    }
}

/// The paths that the ranges without a link name: for a single character the path that was found
/// around it, or the character itself where there is none; else the texts of the ranges.
pub fn fallback_paths(text: &Text, fallback: &Vec<Range>, found: Option<Vec<char>>) -> (paths: Vec<
    Vec<char>,
>)
    requires
        crate::selection::all_within(fallback@, text@.len() as int),
    ensures
        crate::strings::views(paths@) == (if fallback@.len() == 1 && fallback@[0].hi()
            - fallback@[0].lo() == 1 {
            seq![
                match found {
                    Some(path) => path@,
                    None => text@.subrange(fallback@[0].lo(), fallback@[0].hi()),
                },
            ]
        } else {
            range_paths(text@, fallback@)
        }),
{
    match path_source(fallback) {
        PathSource::AroundCursor => {
            assert(fallback@[0].within(text@.len() as int));
            let path = match found {
                Some(path) => path,
                None => fallback[0].fragment(text),
            };
            let mut paths: Vec<Vec<char>> = Vec::new();
            paths.push(path);
            assert(crate::strings::views(paths@) =~= seq![path@]);
            paths
        },
        _ => paths_of_ranges(text, fallback),
    }
}

/// Whether an address is opened outside the editor: one that is not a file's, or that of a file
/// whose first kilobyte, as far as it could be read, looks binary.
pub fn should_open_url_externally(scheme: &str, content: Option<&[u8]>) -> (b: bool)
    ensures
        b == (scheme@ != "file"@ || (content matches Some(c) && (!crate::file::has_byte_order_mark(
            c@,
        ) && (crate::file::has_early_nul(c@) || crate::file::has_signature(c@))))),
{
    if !same_text(scheme, "file") {
        return true;
    }
    match content {
        Some(c) => crate::file::is_binary(c),
        None => false,
    }
}

/// A range touches a link when a character lies in both; an empty range when it stands before a
/// character of the link.
pub proof fn links_are_touched_by_shared_characters(link: DocumentLink, r: Range)
    requires
        link.start < link.end,
    ensures
        r.anchor == r.head ==> (link.touched_by(r) <==> link.start <= r.head < link.end),
        r.anchor != r.head ==> (link.touched_by(r) <==> exists|p: int|
            link.start <= p < link.end && #[trigger] r.holds_position(p)),
{
    if r.anchor != r.head && link.touched_by(r) {
        let p = if r.lo() >= link.start {
            r.lo()
        } else {
            link.start as int
        };
        assert(r.holds_position(p));
    }
}

proof fn lemma_links_under(r: Range, links: Seq<DocumentLink>, n: nat, k: int)
    requires
        n <= links.len(),
    ensures
        links_under(r, links, n).contains(k) <==> 0 <= k < n && links[k].touched_by(r),
    decreases n,
{
    if n > 0 {
        let m = (n - 1) as nat;
        lemma_links_under(r, links, m, k);
        let a = links_under(r, links, m);
        let b = links_under(r, links, n);
        if b.len() > a.len() {
            assert(b[a.len() as int] == n - 1);
        }
        if a.contains(k) {
            let i = choose|i: int| 0 <= i < a.len() && a[i] == k;
            assert(b[i] == k);
        } else if b.contains(k) {
            let i = choose|i: int| 0 <= i < b.len() && b[i] == k;
            if i < a.len() {
                assert(a[i] == k);
            }
        }
    }
}

/// The links that are followed are those that some range touches; the ranges that are left for
/// paths are those that touch none.
pub proof fn touched_links_are_followed(ranges: Seq<Range>, links: Seq<DocumentLink>, n: nat, k: int)
    requires
        n <= ranges.len(),
    ensures
        links_touched(ranges, links, n).contains(k) <==> 0 <= k < links.len() && exists|i: int|
            0 <= i < n && links[k].touched_by(#[trigger] ranges[i]),
        forall|i: int|
            0 <= i < n && (forall|j: int|
                0 <= j < links.len() ==> !(#[trigger] links[j]).touched_by(#[trigger] ranges[i]))
                ==> unlinked(ranges, links, n).contains(ranges[i]),
        forall|j: int|
            0 <= j < unlinked(ranges, links, n).len() && 0 <= k < links.len() ==> !links[k].touched_by(
                #[trigger] unlinked(ranges, links, n)[j],
            ),
    decreases n,
{
    if n > 0 {
        let m = (n - 1) as nat;
        touched_links_are_followed(ranges, links, m, k);
        let a = links_touched(ranges, links, m);
        let here = links_under(ranges[n - 1], links, links.len());
        let b = links_touched(ranges, links, n);
        lemma_links_under(ranges[n - 1], links, links.len(), k);
        assert(b == a + here);
        if a.contains(k) {
            let i = choose|i: int| 0 <= i < a.len() && a[i] == k;
            assert(b[i] == k);
        }
        if here.contains(k) {
            let i = choose|i: int| 0 <= i < here.len() && here[i] == k;
            assert(b[a.len() + i] == k);
        }
        if b.contains(k) {
            let i = choose|i: int| 0 <= i < b.len() && b[i] == k;
            if i < a.len() {
                assert(a[i] == k);
            } else {
                assert(here[i - a.len()] == k);
                assert(links[k].touched_by(ranges[n - 1]));
            }
        }
        let c = unlinked(ranges, links, m);
        let d = unlinked(ranges, links, n);
        assert forall|i: int|
            0 <= i < n && (forall|j: int|
                0 <= j < links.len() ==> !(#[trigger] links[j]).touched_by(
                    #[trigger] ranges[i],
                )) implies d.contains(ranges[i]) by {
            if i < m {
                let j = choose|j: int| 0 <= j < c.len() && c[j] == ranges[i];
                assert(d[j] == ranges[i]);
            } else {
                if here.len() > 0 {
                    lemma_links_under(ranges[n - 1], links, links.len(), here[0]);
                    assert(here.contains(here[0]));
                    assert(links[here[0]].touched_by(ranges[i]));
                }
                assert(d[c.len() as int] == ranges[i]);
            }
        }
        assert forall|j: int| 0 <= j < d.len() && 0 <= k < links.len() implies !links[k].touched_by(
            #[trigger] d[j],
        ) by {
            if j < c.len() {
                assert(d[j] == c[j]);
            } else if links[k].touched_by(ranges[n - 1]) {
                assert(here.contains(k));
            }
        }
    }
}

/// The targets that are opened are those of the touched links, each once.
pub proof fn targets_are_opened_once(links: Seq<DocumentLink>, touched: Seq<int>, target: Seq<char>)
    ensures
        distinct_targets(links, touched).no_duplicates(),
        distinct_targets(links, touched).contains(target) <==> exists|k: int|
            0 <= k < touched.len() && links[#[trigger] touched[k]].target is Some
                && links[touched[k]].target->0@ == target,
    decreases touched.len(),
{
    if touched.len() > 0 {
        let front = touched.drop_last();
        targets_are_opened_once(links, front, target);
        let a = distinct_targets(links, front);
        let b = distinct_targets(links, touched);
        assert(touched[touched.len() - 1] == touched.last());
        assert(forall|k: int| 0 <= k < front.len() ==> front[k] == #[trigger] touched[k]);
        if b.len() > a.len() {
            assert(b[a.len() as int] == b.last());
        }
        if a.contains(target) {
            let i = choose|i: int| 0 <= i < a.len() && a[i] == target;
            assert(b[i] == target);
            let k = choose|k: int|
                0 <= k < front.len() && links[#[trigger] front[k]].target is Some
                    && links[front[k]].target->0@ == target;
            assert(touched[k] == front[k]);
        } else if b.contains(target) {
            let i = choose|i: int| 0 <= i < b.len() && b[i] == target;
            if i < a.len() {
                assert(a[i] == target);
            }
        }
        if exists|k: int|
            0 <= k < touched.len() && links[#[trigger] touched[k]].target is Some
                && links[touched[k]].target->0@ == target {
            let k = choose|k: int|
                0 <= k < touched.len() && links[#[trigger] touched[k]].target is Some
                    && links[touched[k]].target->0@ == target;
            if k < front.len() {
                assert(front[k] == touched[k]);
            }
        }
    }
}

/// Servers are asked for the targets of touched links that have none yet and can be resolved, and
/// not twice for the same place.
pub proof fn links_are_resolved_once(links: Seq<DocumentLink>, touched: Seq<int>)
    ensures
        ({
            let asked = links_to_resolve(links, touched);
            &&& forall|i: int|
                0 <= i < asked.len() ==> links[#[trigger] asked[i]].target is None
                    && links[asked[i]].resolvable && touched.contains(asked[i])
            &&& forall|i: int, j: int|
                0 <= i < j < asked.len() ==> links[#[trigger] asked[i]].key()
                    != links[#[trigger] asked[j]].key()
            &&& forall|k: int|
                0 <= k < touched.len() && links[#[trigger] touched[k]].target is None
                    && links[touched[k]].resolvable && (forall|j: int|
                    0 <= j < k && links[#[trigger] touched[j]].target is None
                        ==> links[touched[j]].key() != links[touched[k]].key()) ==> asked.contains(
                    touched[k],
                )
        }),
    decreases touched.len(),
{
    if touched.len() > 0 {
        let front = touched.drop_last();
        let link = touched.last();
        links_are_resolved_once(links, front);
        let a = links_to_resolve(links, front);
        let b = links_to_resolve(links, touched);
        assert(touched[touched.len() - 1] == link);
        assert forall|i: int| 0 <= i < b.len() implies links[#[trigger] b[i]].target is None
            && links[b[i]].resolvable && touched.contains(b[i]) by {
            if i < a.len() {
                assert(b[i] == a[i]);
                let k = choose|k: int| 0 <= k < front.len() && front[k] == a[i];
                assert(touched[k] == a[i]);
            }
        }
        assert forall|i: int, j: int| 0 <= i < j < b.len() implies links[#[trigger] b[i]].key()
            != links[#[trigger] b[j]].key() by {
            assert(b[i] == a[i]);
            if j < a.len() {
                assert(b[j] == a[j]);
            } else {
                let k = choose|k: int| 0 <= k < front.len() && front[k] == a[i];
                assert(links[front[k]].target is None);
            }
        }
        assert forall|k: int|
            0 <= k < touched.len() && links[#[trigger] touched[k]].target is None
                && links[touched[k]].resolvable && (forall|j: int|
                0 <= j < k && links[#[trigger] touched[j]].target is None ==> links[touched[j]].key()
                    != links[touched[k]].key()) implies b.contains(touched[k]) by {
            if k < front.len() {
                assert(front[k] == touched[k]);
                assert forall|j: int| 0 <= j < k && links[#[trigger] front[j]].target is None implies
                    links[front[j]].key() != links[front[k]].key() by {
                    assert(touched[j] == front[j]);
                }
                let i = choose|i: int| 0 <= i < a.len() && a[i] == front[k];
                assert(b[i] == touched[k]);
            } else {
                if asked_before(links, front, link) {
                    let j = choose|j: int|
                        0 <= j < front.len() && links[#[trigger] front[j]].target is None
                            && links[front[j]].key() == links[link].key();
                    assert(touched[j] == front[j]);
                }
                assert(b[a.len() as int] == link);
            }
        }
    }
}

/// The targets that were found are opened, each once.
pub proof fn found_targets_are_opened_once(found: Seq<Option<String>>, target: Seq<char>)
    ensures
        distinct_found(found).no_duplicates(),
        distinct_found(found).contains(target) <==> exists|k: int|
            0 <= k < found.len() && (#[trigger] found[k]) is Some && found[k]->0@ == target,
    decreases found.len(),
{
    if found.len() > 0 {
        let front = found.drop_last();
        found_targets_are_opened_once(front, target);
        let a = distinct_found(front);
        let b = distinct_found(found);
        assert(found[found.len() - 1] == found.last());
        assert(forall|k: int| 0 <= k < front.len() ==> front[k] == #[trigger] found[k]);
        if b.len() > a.len() {
            assert(b[a.len() as int] == b.last());
        }
        if a.contains(target) {
            let i = choose|i: int| 0 <= i < a.len() && a[i] == target;
            assert(b[i] == target);
            let k = choose|k: int|
                0 <= k < front.len() && (#[trigger] front[k]) is Some && front[k]->0@ == target;
            assert(found[k] == front[k]);
        } else if b.contains(target) {
            let i = choose|i: int| 0 <= i < b.len() && b[i] == target;
            if i < a.len() {
                assert(a[i] == target);
            }
        }
        if exists|k: int|
            0 <= k < found.len() && (#[trigger] found[k]) is Some && found[k]->0@ == target {
            let k = choose|k: int|
                0 <= k < found.len() && (#[trigger] found[k]) is Some && found[k]->0@ == target;
            if k < front.len() {
                assert(front[k] == found[k]);
            }
        }
    }
}

proof fn lemma_window_ends(s: Seq<char>, k: int, n: int)
    requires
        0 <= k <= s.len(),
    ensures
        ({
            let a = back_by_bytes(s, k, n);
            let b = on_by_bytes(s, k, n);
            &&& 0 <= a <= k <= b <= s.len()
            &&& a > 0 && n > 0 ==> bytes(s.subrange(a, k)) >= n
            &&& a < k ==> bytes(s.subrange(a + 1, k)) < n
            &&& b < s.len() && n > 0 ==> bytes(s.subrange(k, b)) >= n
            &&& k < b ==> bytes(s.subrange(k, b - 1)) < n
        }),
{
    lemma_window_back(s, k, n);
    lemma_window_on(s, k, n);
}

proof fn lemma_window_back(s: Seq<char>, k: int, n: int)
    requires
        0 <= k <= s.len(),
    ensures
        ({
            let a = back_by_bytes(s, k, n);
            &&& 0 <= a <= k
            &&& a > 0 && n > 0 ==> bytes(s.subrange(a, k)) >= n
            &&& a < k ==> bytes(s.subrange(a + 1, k)) < n
        }),
    decreases k,
{
    if n > 0 && k > 0 {
        let c = s[k - 1];
        lemma_window_back(s, k - 1, n - char_bytes(c));
        let a = back_by_bytes(s, k, n);
        crate::commands::insert::bytes_add_up(s.subrange(a, k - 1), seq![c], c);
        assert(s.subrange(a, k) =~= s.subrange(a, k - 1) + seq![c]);
        if a + 1 <= k - 1 {
            crate::commands::insert::bytes_add_up(s.subrange(a + 1, k - 1), seq![c], c);
            assert(s.subrange(a + 1, k) =~= s.subrange(a + 1, k - 1) + seq![c]);
        } else {
            assert(s.subrange(a + 1, k) =~= Seq::<char>::empty());
        }
        if n - char_bytes(c) <= 0 {
            assert(s.subrange(a, k - 1) =~= Seq::<char>::empty());
        }
    }
}

proof fn lemma_window_on(s: Seq<char>, k: int, n: int)
    requires
        0 <= k <= s.len(),
    ensures
        ({
            let b = on_by_bytes(s, k, n);
            &&& k <= b <= s.len()
            &&& b < s.len() && n > 0 ==> bytes(s.subrange(k, b)) >= n
            &&& k < b ==> bytes(s.subrange(k, b - 1)) < n
        }),
    decreases s.len() - k,
{
    if n > 0 && k < s.len() {
        let c = s[k];
        lemma_window_on(s, k + 1, n - char_bytes(c));
        let b = on_by_bytes(s, k, n);
        crate::commands::insert::bytes_add_up(seq![c], s.subrange(k + 1, b), c);
        assert(s.subrange(k, b) =~= seq![c] + s.subrange(k + 1, b));
        if k + 1 <= b - 1 {
            crate::commands::insert::bytes_add_up(seq![c], s.subrange(k + 1, b - 1), c);
            assert(s.subrange(k, b - 1) =~= seq![c] + s.subrange(k + 1, b - 1));
        } else {
            assert(s.subrange(k, b - 1) =~= Seq::<char>::empty());
        }
        if n - char_bytes(c) <= 0 {
            assert(s.subrange(k + 1, b) =~= Seq::<char>::empty());
        }
    }
}

/// A path is looked for on the cursor's line, in as many characters on either side as are needed
/// for a thousand bytes, and no more.
pub proof fn paths_are_looked_for_near_the_cursor(s: Seq<char>, pos: int)
    requires
        0 <= pos <= s.len(),
    ensures
        ({
            let (a, b) = path_window(s, pos);
            &&& 0 <= a <= pos <= b <= s.len()
            &&& forall|k: int| a <= k < pos ==> s[k] != '\n'
            &&& forall|k: int| pos <= k < b - 1 ==> s[k] != '\n'
            &&& a < pos ==> bytes(s.subrange(a + 1, pos)) < 1000
            &&& pos < b ==> bytes(s.subrange(pos, b - 1)) < 1000
            &&& a == 0 || s[a - 1] == '\n' || bytes(s.subrange(a, pos)) >= 1000
            &&& b == s.len() || (b > 0 && s[b - 1] == '\n') || bytes(s.subrange(pos, b)) >= 1000
        }),
{
    let line = line_of(s, pos);
    crate::text::positions_lie_in_their_line(s, pos);
    crate::text::lines_lie_between_line_feeds(s, line);
    lemma_window_ends(s, pos, 1000);
    let (a, b) = path_window(s, pos);
    let back = back_by_bytes(s, pos, 1000);
    let on = on_by_bytes(s, pos, 1000);
    if back < a && a < pos {
        crate::commands::insert::bytes_add_up(s.subrange(back + 1, a + 1), s.subrange(a + 1, pos), ' ');
        assert(s.subrange(back + 1, pos) =~= s.subrange(back + 1, a + 1) + s.subrange(a + 1, pos));
        crate::commands::insert::lemma_bytes(s.subrange(back + 1, a + 1));
    }
    if b < on && pos < b {
        crate::commands::insert::bytes_add_up(s.subrange(pos, b - 1), s.subrange(b - 1, on - 1), ' ');
        assert(s.subrange(pos, on - 1) =~= s.subrange(pos, b - 1) + s.subrange(b - 1, on - 1));
        crate::commands::insert::lemma_bytes(s.subrange(b - 1, on - 1));
    }
    assert forall|k: int| pos <= k < b - 1 implies s[k] != '\n' by {
        crate::text::lemma_line_has_no_inner_feed(s, line, k);
    }
}

/// The path that is picked is the first that does not end before the position, and it begins no
/// further than right behind it; where none is picked, no path holds the position.
pub proof fn the_path_at_the_cursor_is_picked(paths: Seq<(usize, usize)>, pos: int)
    requires
        forall|i: int, j: int|
            0 <= i < j < paths.len() ==> (#[trigger] paths[i]).0 <= (#[trigger] paths[j]).0,
    ensures
        match path_at(paths, pos) {
            Some(k) => 0 <= k < paths.len() && paths[k].0 <= pos + 1 && pos <= paths[k].1 && forall|
                j: int,
            |
                0 <= j < k ==> (#[trigger] paths[j]).1 < pos,
            None => forall|j: int|
                0 <= j < paths.len() ==> !((#[trigger] paths[j]).0 <= pos <= paths[j].1),
        },
    decreases paths.len(),
{
    if paths.len() > 0 {
        if paths[0].0 > pos + 1 {
            assert forall|j: int| 0 <= j < paths.len() implies !((#[trigger] paths[j]).0 <= pos
                <= paths[j].1) by {
                if j > 0 {
                    assert(paths[0].0 <= paths[j].0);
                }
            }
        } else if pos > paths[0].1 {
            let rest = paths.skip(1);
            assert forall|i: int, j: int| 0 <= i < j < rest.len() implies (#[trigger] rest[i]).0 <= (
            #[trigger] rest[j]).0 by {
                assert(paths[i + 1].0 <= paths[j + 1].0);
            }
            the_path_at_the_cursor_is_picked(rest, pos);
            assert(forall|j: int| 0 < j < paths.len() ==> rest[j - 1] == #[trigger] paths[j]);
        }
    }
}

/// Trimming takes whitespace from both ends, all of it, and nothing else.
pub proof fn only_whitespace_is_trimmed(s: Seq<char>)
    ensures
        ({
            let out = trimmed(s);
            &&& out.len() > 0 ==> !crate::chars::whitespace(out[0]) && !crate::chars::whitespace(
                out.last(),
            )
            &&& exists|a: int|
                0 <= a <= s.len() - out.len() && #[trigger] s.subrange(a, a + out.len()) == out
                    && forall|k: int|
                    0 <= k < a || a + out.len() <= k < s.len() ==> crate::chars::whitespace(
                        #[trigger] s[k],
                    )
        }),
{
    let front = crate::chars::leading_whitespace(s);
    crate::chars::whitespace_at_the_ends_is_counted(s);
    let rest = s.skip(front);
    crate::chars::whitespace_at_the_ends_is_counted(rest);
    let out = trimmed(s);
    let back = crate::chars::trailing_whitespace(rest);
    assert(s.subrange(front, front + out.len()) =~= out);
    assert forall|k: int| 0 <= k < front || front + out.len() <= k < s.len() implies
        crate::chars::whitespace(#[trigger] s[k]) by {
        if k >= front {
            assert(rest[k - front] == s[k]);
        }
    }
    if out.len() > 0 {
        assert(rest[0] == s[front]);
        assert(out.last() == rest[rest.len() - back - 1]);
    }
}

/// The paths of selections are their trimmed texts, without those of which nothing is left.
pub proof fn selected_paths_are_trimmed(text: Seq<char>, ranges: Seq<Range>, path: Seq<char>)
    ensures
        range_paths(text, ranges).contains(path) <==> path.len() > 0 && exists|i: int|
            0 <= i < ranges.len() && path == trimmed(
                text.subrange((#[trigger] ranges[i]).lo(), ranges[i].hi()),
            ),
    decreases ranges.len(),
{
    if ranges.len() > 0 {
        let front = ranges.drop_last();
        selected_paths_are_trimmed(text, front, path);
        let a = range_paths(text, front);
        let b = range_paths(text, ranges);
        assert(ranges[ranges.len() - 1] == ranges.last());
        assert(forall|i: int| 0 <= i < front.len() ==> front[i] == #[trigger] ranges[i]);
        if b.len() > a.len() {
            assert(b[a.len() as int] == b.last());
        }
        if a.contains(path) {
            let i = choose|i: int| 0 <= i < a.len() && a[i] == path;
            assert(b[i] == path);
            let k = choose|k: int|
                0 <= k < front.len() && path == trimmed(
                    text.subrange((#[trigger] front[k]).lo(), front[k].hi()),
                );
            assert(ranges[k] == front[k]);
        } else if b.contains(path) {
            let i = choose|i: int| 0 <= i < b.len() && b[i] == path;
            if i < a.len() {
                assert(a[i] == path);
            }
        }
        if exists|i: int|
            0 <= i < ranges.len() && path == trimmed(
                text.subrange((#[trigger] ranges[i]).lo(), ranges[i].hi()),
            ) {
            let i = choose|i: int|
                0 <= i < ranges.len() && path == trimmed(
                    text.subrange((#[trigger] ranges[i]).lo(), ranges[i].hi()),
                );
            if i < front.len() {
                assert(front[i] == ranges[i]);
            }
        }
    }
}

} // verus!
