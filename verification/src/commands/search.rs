//! Searching a buffer and the workspace.

use crate::chars::{char_is_word, is_uppercase, uppercase, word_char};
use crate::commands::insert::bytes;
use crate::commands::registers::{chosen_or, search_register, SEARCH_REGISTER};
use crate::range::{Direction, Movement, Range};
use crate::selection::Selection;
use crate::strings::{ascending, from_chars, sorted_distinct, to_chars, views};
use crate::text::{
    boundary_at_or_after, boundary_at_or_before, line_count, line_end, line_of, line_start,
    LineEnding, Text,
};
use crate::transaction::{append, copy_chars};
use vstd::prelude::*;

verus! {

/// A compiled pattern of `grep_regex`.
#[verifier::external_type_specification]
#[verifier::external_body]
pub struct ExRegexMatcher(grep_regex::RegexMatcher);

/// The error of `grep_regex` for a pattern that does not compile.
#[verifier::external_type_specification]
#[verifier::external_body]
pub struct ExGrepError(grep_regex::Error);

/// The pattern that a matcher was compiled from, and whether with smart case.
pub uninterp spec fn compiled_from(matcher: grep_regex::RegexMatcher) -> (Seq<char>, bool);

/// Whether `grep_regex` compiles a pattern, with smart case or without.
pub uninterp spec fn compiles(pattern: Seq<char>, smart_case: bool) -> bool;

/// The bytes at which `grep_regex` finds the first match of a pattern in a text.
pub uninterp spec fn first_match(pattern: Seq<char>, smart_case: bool, text: Seq<char>) -> Option<
    (int, int),
>;

/// `grep_regex::RegexMatcherBuilder::build`, on a builder for which `case_smart` was set to
/// `smart_case` and `multi_line` to `true`: compiles a pattern, or tells that it is malformed.
#[verifier::external_body]
fn build_matcher(pattern: &str, smart_case: bool) -> (built: Result<
    grep_regex::RegexMatcher,
    grep_regex::Error,
>)
    ensures
        built is Ok <==> compiles(pattern@, smart_case),
        built matches Ok(m) ==> compiled_from(m) == (pattern@, smart_case),
{
    grep_regex::RegexMatcherBuilder::new().case_smart(smart_case).multi_line(true).build(pattern)
}

/// `grep_matcher::Matcher::find` of a matcher of `grep_regex`, whose error type has no values:
/// the bytes at which the first match begins and ends. The match lies in the text.
#[verifier::external_body]
fn find_match(matcher: &grep_regex::RegexMatcher, text: &str) -> (found: Option<(usize, usize)>)
    ensures
        (match found {
            Some((start, end)) => Some((start as int, end as int)),
            None => None,
        }) == first_match(compiled_from(*matcher).0, compiled_from(*matcher).1, text@),
        found matches Some((start, end)) ==> start <= end && end <= bytes(text@),
{
    let found = grep_matcher::Matcher::find(matcher, text.as_bytes());
    found.ok().flatten().map(|m| (m.start(), m.end()))
}

/// Whether a search for a pattern has to look at more than one line at a time.
pub uninterp spec fn spans_lines(pattern: Seq<char>, smart_case: bool) -> bool;

/// The lines that `grep_searcher` finds in a text that it holds as a whole: for each match the
/// number of its first line, counted from 1, and its lines.
pub uninterp spec fn slice_lines(pattern: Seq<char>, smart_case: bool, text: Seq<char>) -> Seq<
    (int, Seq<char>),
>;

/// The lines that `grep_searcher` finds in a text that it reads bit by bit.
pub uninterp spec fn reader_lines(pattern: Seq<char>, smart_case: bool, text: Seq<char>) -> Seq<
    (int, Seq<char>),
>;

/// `grep_searcher::Searcher::multi_line_with_matcher`, of a searcher in multi line mode that gives
/// up on binary data.
#[verifier::external_body]
fn multi_line_with_matcher(matcher: &grep_regex::RegexMatcher) -> (b: bool)
    ensures
        b == spans_lines(compiled_from(*matcher).0, compiled_from(*matcher).1),
{
    grep_searcher::SearcherBuilder::new()
        .binary_detection(grep_searcher::BinaryDetection::quit(b'\x00'))
        .multi_line(true)
        .build()
        .multi_line_with_matcher(matcher)
}

/// `grep_searcher::Searcher::search_slice` with the sink `sinks::UTF8`, of a searcher in multi line
/// mode that gives up on binary data: the lines that it hands to the sink. Lines are counted from
/// 1, and what is found lies in the text behind the lines before it.
#[verifier::external_body]
fn search_slice(matcher: &grep_regex::RegexMatcher, text: &str) -> (found: Vec<(u64, String)>)
    ensures
        numbered(found@) == slice_lines(
            compiled_from(*matcher).0,
            compiled_from(*matcher).1,
            text@,
        ),
        forall|i: int|
            0 <= i < found@.len() ==> 1 <= (#[trigger] found@[i]).0 && found@[i].0 - 1
                + found@[i].1@.len() <= text@.len(),
{
    let mut found = Vec::new();
    let sink = grep_searcher::sinks::UTF8(
        |number, line| {
            found.push((number, line.to_string()));
            Ok(true)
        },
    );
    let _ = grep_searcher::SearcherBuilder::new()
        .binary_detection(grep_searcher::BinaryDetection::quit(b'\x00'))
        .multi_line(true)
        .build()
        .search_slice(matcher, text.as_bytes(), sink);
    found
}

/// `grep_searcher::Searcher::search_reader` with the sink `sinks::UTF8`, of a searcher in multi
/// line mode that gives up on binary data: the lines that it hands to the sink. Lines are counted
/// from 1, and what is found lies in the text behind the lines before it.
#[verifier::external_body]
fn search_reader(matcher: &grep_regex::RegexMatcher, text: &str) -> (found: Vec<(u64, String)>)
    ensures
        numbered(found@) == reader_lines(
            compiled_from(*matcher).0,
            compiled_from(*matcher).1,
            text@,
        ),
        forall|i: int|
            0 <= i < found@.len() ==> 1 <= (#[trigger] found@[i]).0 && found@[i].0 - 1
                + found@[i].1@.len() <= text@.len(),
{
    let mut found = Vec::new();
    let sink = grep_searcher::sinks::UTF8(
        |number, line| {
            found.push((number, line.to_string()));
            Ok(true)
        },
    );
    let _ = grep_searcher::SearcherBuilder::new()
        .binary_detection(grep_searcher::BinaryDetection::quit(b'\x00'))
        .multi_line(true)
        .build()
        .search_reader(matcher, text.as_bytes(), sink);
    found
}

/// Numbered lines as values.
pub open spec fn numbered(lines: Seq<(u64, String)>) -> Seq<(int, Seq<char>)> {
    lines.map_values(|l: (u64, String)| (l.0 as int, l.1@))
}

/// The characters that mean something in a regular expression.
pub open spec fn meta_char(c: char) -> bool {
    c == '\\' || c == '.' || c == '+' || c == '*' || c == '?' || c == '(' || c == ')' || c == '|'
        || c == '[' || c == ']' || c == '{' || c == '}' || c == '^' || c == '$' || c == '#' || c
        == '&' || c == '-' || c == '~'
}

/// A regular expression for the text `s` itself: a backslash stands before every character that
/// would mean something else.
pub open spec fn escaped(s: Seq<char>) -> Seq<char>
    decreases s.len(),
{
    if s.len() == 0 {
        s
    } else if meta_char(s.last()) {
        escaped(s.drop_last()).push('\\').push(s.last())
    } else {
        escaped(s.drop_last()).push(s.last())
    }
}

/// `regex::escape`: puts a backslash before each character that means something in a regular
/// expression.
#[verifier::external_body]
fn escape(text: &str) -> (out: String)
    ensures
        out@ == escaped(text@),
{
    regex::escape(text)
}

/// Where a search begins: behind the primary range, or before it when searching backward.
pub open spec fn search_from(text: Text, primary: Range, direction: Direction) -> int {
    match direction {
        Direction::Forward => boundary_at_or_after(text.breaks@, primary.hi()),
        Direction::Backward => boundary_at_or_before(text.breaks@, primary.lo()),
    }
}

/// Where a search begins.
pub fn search_start(text: &Text, selection: &Selection, direction: Direction) -> (start: usize)
    requires
        text.wf(),
        selection.wf(),
        selection.within(text@.len() as int),
    ensures
        start == search_from(
            *text,
            selection.ranges@[selection.primary_index as int],
            direction,
        ),
        start <= text@.len(),
{
    let primary = selection.primary();
    assert(selection.ranges@[selection.primary_index as int].within(text@.len() as int));
    match direction {
        Direction::Forward => text.ensure_grapheme_boundary_next(primary.to()),
        Direction::Backward => text.ensure_grapheme_boundary_prev(primary.from()),
    }
}

/// What a search tells.
#[derive(Clone, Copy, Debug, PartialEq, Eq, Structural)]
pub enum SearchStatus {
    Wrapped,
    NoMoreMatches,
}

/// The match that a search selects: the one before the end of the text, or, when there is none and
/// the search wraps around, the one in the rest of it.
pub open spec fn chosen_match(
    ahead: Option<(usize, usize)>,
    around: Option<(usize, usize)>,
    wrap_around: bool,
) -> Option<(usize, usize)> {
    if ahead is Some {
        ahead
    } else if wrap_around {
        around
    } else {
        None
    }
}

/// The selection after a search has found a match, and what it tells.
pub struct SearchOutcome {
    pub selection: Option<Selection>,
    pub status: Option<SearchStatus>,
}

/// Selects a match, facing as the primary range does. `ahead` is the match between the start of
/// the search and the end of the text that it runs to; `around` is looked at only when there is
/// none. An empty match at the beginning of the text is not selected.
pub fn search_impl(
    selection: &Selection,
    movement: Movement,
    wrap_around: bool,
    show_warnings: bool,
    ahead: Option<(usize, usize)>,
    around: Option<(usize, usize)>,
) -> (outcome: SearchOutcome)
    requires
        selection.wf(),
    ensures
        outcome.status == (if ahead is None && show_warnings {
            if wrap_around && around is Some {
                Some(SearchStatus::Wrapped)
            } else {
                Some(SearchStatus::NoMoreMatches)
            }
        } else {
            None
        }),
        outcome.selection is Some <==> (chosen_match(ahead, around, wrap_around) matches Some(m)
            && m.1 != 0),
        outcome.selection matches Some(s) ==> {
            let m = chosen_match(ahead, around, wrap_around)->0;
            let primary = selection.ranges@[selection.primary_index as int];
            let r = (Range { anchor: m.0, head: m.1 }).facing(primary.faces());
            s.wf() && match movement {
                Movement::Extend => s.holds(
                    selection.ranges@.push(r),
                    selection.ranges@.len() as int,
                ),
                Movement::Move => s.holds(
                    selection.ranges@.update(selection.primary_index as int, r),
                    selection.primary_index as int,
                ),
            }
        },
{
    let found = if ahead.is_some() {
        ahead
    } else if wrap_around {
        around
    } else {
        None
    };
    let status = if ahead.is_none() && show_warnings {
        if wrap_around && found.is_some() {
            Some(SearchStatus::Wrapped)
        } else {
            Some(SearchStatus::NoMoreMatches)
        }
    } else {
        None
    };
    match found {
        Some((start, end)) if end != 0 => {
            let r = Range::new(start, end).with_direction(selection.primary().direction());
            let s = match movement {
                Movement::Extend => selection.clone().push(r),
                Movement::Move => selection.clone().replace(selection.primary_index, r),
            };
            SearchOutcome { selection: Some(s), status }
        },
        _ => SearchOutcome { selection: None, status },
    }
}

/// How a pattern is compiled for a search.
#[derive(Clone, Copy, Debug, PartialEq, Eq, Structural)]
pub struct RegexConfig {
    pub case_insensitive: bool,
    pub multi_line: bool,
    pub crlf: bool,
}

/// How the pattern of a repeated search is compiled: with smart case, a pattern without a capital
/// letter matches both cases.
pub fn search_config(query: &str, smart_case: bool, line_ending: LineEnding) -> (config: RegexConfig)
    ensures
        config.case_insensitive == (smart_case && forall|i: int|
            0 <= i < query@.len() ==> !uppercase(#[trigger] query@[i])),
        config.multi_line,
        config.crlf == (line_ending == LineEnding::Crlf),
{
    let mut case_insensitive: bool = smart_case;
    if smart_case {
        let chars = to_chars(query);
        let mut i: usize = 0;
        while i < chars.len()
            invariant
                i <= chars@.len(),
                chars@ == query@,
                case_insensitive <==> forall|j: int|
                    0 <= j < i ==> !uppercase(#[trigger] query@[j]),
            decreases chars.len() - i,
        {
            if is_uppercase(chars[i]) {
                case_insensitive = false;
                assert(uppercase(query@[i as int]));
            }
            i += 1;
        }
    }
    RegexConfig {
        case_insensitive,
        multi_line: true,
        crlf: line_ending == LineEnding::Crlf,
    }
}

/// A prompt's report of its input.
#[derive(Clone, Copy, Debug, PartialEq, Eq, Structural)]
pub enum PromptEvent {
    Update,
    Validate,
    Abort,
}

/// What repeating a search does.
pub enum RepeatSearch {
    Nothing,
    /// Searches this many times with the pattern, compiled in this way.
    Search(RegexConfig, usize),
    /// The pattern does not compile.
    Invalid(String),
}

/// Repeats the search for the pattern in the search register, if there is one. `compiles` tells
/// whether the pattern compiles under the settings of `search_config`.
pub fn search_next_or_prev_impl(
    query: Option<&str>,
    compiles: bool,
    smart_case: bool,
    line_ending: LineEnding,
    count: usize,
) -> (plan: RepeatSearch)
    ensures
        match query {
            None => plan is Nothing,
            Some(q) => if compiles {
                plan matches RepeatSearch::Search(config, n) && n == count && config.multi_line
                    && config.crlf == (line_ending == LineEnding::Crlf) && config.case_insensitive
                    == (smart_case && forall|i: int|
                    0 <= i < q@.len() ==> !uppercase(#[trigger] q@[i]))
            } else {
                plan matches RepeatSearch::Invalid(m) && m@ == "Invalid regex: "@ + q@
            },
        },
{
    match query {
        None => RepeatSearch::Nothing,
        Some(q) => if compiles {
            RepeatSearch::Search(search_config(q, smart_case, line_ending), count)
        } else {
            let mut m = String::from_str("Invalid regex: ");
            m.append(q);
            RepeatSearch::Invalid(m)
        },
    }
}

/// Whether the search prompt searches on an event, and the register that it sets.
pub open spec fn search_on(event: PromptEvent, register: char) -> (bool, Option<char>) {
    (
        event != PromptEvent::Abort,
        if event == PromptEvent::Validate {
            Some(register)
        } else {
            None
        },
    )
}

/// What the search prompt does on an event: whether it searches, and the register that becomes
/// that of the last search.
pub fn on_search_prompt(event: PromptEvent, register: char) -> (done: (bool, Option<char>))
    ensures
        done == search_on(event, register),
{
    match event {
        PromptEvent::Validate => (true, Some(register)),
        PromptEvent::Update => (true, None),
        PromptEvent::Abort => (false, None),
    }
}

/// The completions of the search prompt: the latest 200 searches, in order and each once.
pub fn search_completions(history: &Vec<Vec<char>>) -> (items: Vec<Vec<char>>)
    ensures
        ascending(views(items@)),
        forall|x: Seq<char>| #[trigger]
            views(items@).contains(x) <==> exists|k: int|
                0 <= k < history@.len() && k < 200 && (#[trigger] history@[k])@ == x,
{
    sorted_distinct(history, 200)
}

/// The places of the items that begin with `input`, among the first `n`.
pub open spec fn matching_items(items: Seq<Vec<char>>, input: Seq<char>, n: nat) -> Seq<int>
    decreases n,
{
    if n == 0 {
        Seq::empty()
    } else {
        let before = matching_items(items, input, (n - 1) as nat);
        if has_prefix(items[n - 1]@, input) {
            before.push(n - 1)
        } else {
            before
        }
    }
}

/// Whether `a` begins with `prefix`.
pub fn begins_with(a: &Vec<char>, prefix: &Vec<char>) -> (b: bool)
    ensures
        b == has_prefix(a@, prefix@),
{
    if a.len() < prefix.len() {
        return false;
    }
    let mut i: usize = 0;
    while i < prefix.len()
        invariant
            i <= prefix@.len() <= a@.len(),
            forall|j: int| 0 <= j < i ==> a@[j] == prefix@[j],
        decreases prefix.len() - i,
    {
        if a[i] != prefix[i] {
            assert(a@.take(prefix@.len() as int)[i as int] != prefix@[i as int]);
            return false;
        }
        i += 1;
    }
    assert(a@.take(prefix@.len() as int) =~= prefix@);
    true
}

/// Which completions the search prompt offers for its input.
pub fn complete_search(items: &Vec<Vec<char>>, input: &Vec<char>) -> (found: Vec<usize>)
    ensures
        found@.map_values(|k: usize| k as int) == matching_items(items@, input@, items@.len()),
{
    let mut found: Vec<usize> = Vec::new();
    let mut i: usize = 0;
    assert(found@.map_values(|k: usize| k as int) =~= Seq::<int>::empty());
    while i < items.len()
        invariant
            i <= items@.len(),
            found@.map_values(|k: usize| k as int) == matching_items(items@, input@, i as nat),
        decreases items.len() - i,
    {
        if begins_with(&items[i], input) {
            assert(found@.push(i).map_values(|k: usize| k as int) =~= found@.map_values(
                |k: usize| k as int,
            ).push(i as int));
            found.push(i);
        }
        i += 1;
    }
    found
}

/// `a` begins with `prefix`.
pub open spec fn has_prefix(a: Seq<char>, prefix: Seq<char>) -> bool {
    a.len() >= prefix.len() && a.take(prefix.len() as int) == prefix
}

/// `a` ends with `suffix`.
pub open spec fn has_suffix(a: Seq<char>, suffix: Seq<char>) -> bool {
    a.len() >= suffix.len() && a.skip(a.len() - suffix.len()) == suffix
}

/// A word boundary in a regular expression.
pub open spec fn boundary_mark() -> Seq<char> {
    seq!['\\', 'b']
}

/// The regular expression `s` with word boundaries at both ends; none when it has them.
pub open spec fn bounded(s: Seq<char>) -> Option<Seq<char>> {
    let start = has_prefix(s, boundary_mark());
    let end = has_suffix(s, boundary_mark());
    if start && end {
        None
    } else {
        Some(
            (if start {
                Seq::empty()
            } else {
                boundary_mark()
            }) + s + (if end {
                Seq::empty()
            } else {
                boundary_mark()
            }),
        )
    }
}

fn mark() -> (m: Vec<char>)
    ensures
        m@ == boundary_mark(),
{
    let mut m: Vec<char> = Vec::new();
    m.push('\\');
    m.push('b');
    assert(m@ =~= boundary_mark());
    m
}

/// Makes the current search match whole words only. There is nothing to do for a search that
/// does so already.
pub fn make_search_word_bounded(regex: &str) -> (out: Option<String>)
    ensures
        (match out {
            Some(s) => Some(s@),
            None => None,
        }) == bounded(regex@),
{
    let s = to_chars(regex);
    let n = s.len();
    let start: bool = n >= 2 && s[0] == '\\' && s[1] == 'b';
    let end: bool = n >= 2 && s[n - 2] == '\\' && s[n - 1] == 'b';
    proof {
        if n >= 2 {
            let head = s@.take(2);
            let tail = s@.skip(n - 2);
            assert(head[0] == s@[0] && head[1] == s@[1]);
            assert(tail[0] == s@[n - 2] && tail[1] == s@[n - 1]);
            assert(start ==> head =~= boundary_mark());
            assert(end ==> tail =~= boundary_mark());
        }
        assert(boundary_mark().len() == 2);
        assert(start == has_prefix(s@, boundary_mark()));
        assert(end == has_suffix(s@, boundary_mark()));
    }
    if start && end {
        return None;
    }
    let mut out: Vec<char> = Vec::new();
    if !start {
        out = mark();
    }
    append(&mut out, &s);
    if !end {
        append(&mut out, &mark());
    }
    proof {
        let front: Seq<char> = if start {
            Seq::empty()
        } else {
            boundary_mark()
        };
        let back: Seq<char> = if end {
            Seq::empty()
        } else {
            boundary_mark()
        };
        assert(out@ =~= front + s@ + back);
    }
    Some(from_chars(&out))
}

/// A law of word-bounded searches: making one twice changes it no further.
pub proof fn bounding_twice_is_bounding_once(s: Seq<char>)
    ensures
        bounded(s) matches Some(t) ==> bounded(t) is None,
{
    if let Some(t) = bounded(s) {
        let m = boundary_mark();
        assert(m.len() == 2);
        if has_prefix(s, m) {
            assert(t =~= s + m);
            assert(t.take(2) =~= s.take(2));
        } else {
            assert(t.take(2) =~= m);
        }
        if has_suffix(s, m) {
            assert(t =~= m + s);
            assert(t.skip(t.len() - 2) =~= s.skip(s.len() - 2));
        } else {
            assert(t.skip(t.len() - 2) =~= m);
        }
    }
}

/// A word begins at `i`.
pub open spec fn at_word_start(s: Seq<char>, i: int) -> bool {
    i < s.len() && word_char(s[i]) && (i == 0 || !word_char(s[i - 1]))
}

/// A word ends right before `i`.
pub open spec fn at_word_end(s: Seq<char>, i: int) -> bool {
    0 < i < s.len() && word_char(s[i - 1]) && !word_char(s[i])
}

fn is_at_word_start(text: &Text, index: usize) -> (b: bool)
    requires
        index <= text@.len(),
    ensures
        b == at_word_start(text@, index as int),
{
    if index == text.chars.len() {
        return false;
    }
    if index == 0 {
        return char_is_word(text.chars[index]);
    }
    !char_is_word(text.chars[index - 1]) && char_is_word(text.chars[index])
}

fn is_at_word_end(text: &Text, index: usize) -> (b: bool)
    requires
        index <= text@.len(),
    ensures
        b == at_word_end(text@, index as int),
{
    if index == 0 || index == text.chars.len() {
        return false;
    }
    char_is_word(text.chars[index - 1]) && !char_is_word(text.chars[index])
}

/// The regular expression for the text of a range, with word boundaries where the text begins or
/// ends a word and they are asked for.
pub open spec fn range_pattern(text: Text, r: Range, detect: bool) -> Seq<char> {
    let front = if detect && at_word_start(text@, r.lo()) {
        boundary_mark()
    } else {
        Seq::empty()
    };
    let back = if detect && at_word_end(text@, r.hi()) {
        boundary_mark()
    } else {
        Seq::empty()
    };
    front + escaped(text@.subrange(r.lo(), r.hi())) + back
}

fn pattern_of_range(text: &Text, r: &Range, detect: bool) -> (out: Vec<char>)
    requires
        r.within(text@.len() as int),
    ensures
        out@ == range_pattern(*text, *r, detect),
{
    let mut out: Vec<char> = Vec::new();
    if detect && is_at_word_start(text, r.from()) {
        out = mark();
    }
    let word = from_chars(&r.fragment(text));
    append(&mut out, &to_chars(escape(word.as_str()).as_str()));
    if detect && is_at_word_end(text, r.to()) {
        append(&mut out, &mark());
    }
    assert(out@ =~= range_pattern(*text, *r, detect));
    out
}

/// The patterns of the first `n` ranges, each once, in the order in which they first occur.
pub open spec fn distinct_patterns(text: Text, ranges: Seq<Range>, detect: bool, n: nat) -> Seq<
    Seq<char>,
>
    decreases n,
{
    if n == 0 {
        Seq::empty()
    } else {
        let before = distinct_patterns(text, ranges, detect, (n - 1) as nat);
        let next = range_pattern(text, ranges[n - 1], detect);
        if before.contains(next) {
            before
        } else {
            before.push(next)
        }
    }
}

/// A search for the text of ranges has the pattern of each range among its alternatives, and none
/// of them twice.
pub proof fn patterns_are_distinct(text: Text, ranges: Seq<Range>, detect: bool, n: nat)
    requires
        n <= ranges.len(),
    ensures
        distinct_patterns(text, ranges, detect, n).no_duplicates(),
        forall|i: int|
            0 <= i < n ==> distinct_patterns(text, ranges, detect, n).contains(
                range_pattern(text, #[trigger] ranges[i], detect),
            ),
    decreases n,
{
    if n > 0 {
        patterns_are_distinct(text, ranges, detect, (n - 1) as nat);
        let before = distinct_patterns(text, ranges, detect, (n - 1) as nat);
        let all = distinct_patterns(text, ranges, detect, n);
        let next = range_pattern(text, ranges[n - 1], detect);
        assert forall|i: int| 0 <= i < n implies all.contains(
            range_pattern(text, #[trigger] ranges[i], detect),
        ) by {
            if i < n - 1 {
                let pattern = range_pattern(text, ranges[i], detect);
                assert(before.contains(pattern));
                let k = choose|k: int| 0 <= k < before.len() && before[k] == pattern;
                assert(all[k] == pattern);
            } else if !before.contains(next) {
                assert(all[before.len() as int] == next);
            }
        }
    }
}

/// Parts joined by a character.
pub open spec fn joined(parts: Seq<Seq<char>>, c: char) -> Seq<char>
    decreases parts.len(),
{
    if parts.len() == 0 {
        Seq::empty()
    } else if parts.len() == 1 {
        parts[0]
    } else {
        joined(parts.drop_last(), c).push(c) + parts.last()
    }
}

/// Whether two texts are the same.
pub fn same_chars(a: &Vec<char>, b: &Vec<char>) -> (same: bool)
    ensures
        same == (a@ == b@),
{
    if a.len() != b.len() {
        return false;
    }
    let mut i: usize = 0;
    while i < a.len()
        invariant
            i <= a@.len() == b@.len(),
            forall|j: int| 0 <= j < i ==> a@[j] == b@[j],
        decreases a.len() - i,
    {
        if a[i] != b[i] {
            return false;
        }
        i += 1;
    }
    assert(a@ =~= b@);
    true
}

/// Whether a text is among some parts.
fn is_among(parts: &Vec<Vec<char>>, part: &Vec<char>) -> (b: bool)
    ensures
        b == views(parts@).contains(part@),
{
    let mut i: usize = 0;
    while i < parts.len()
        invariant
            i <= parts@.len(),
            forall|j: int| 0 <= j < i ==> (#[trigger] parts@[j])@ != part@,
        decreases parts.len() - i,
    {
        if same_chars(&parts[i], part) {
            assert(views(parts@)[i as int] == part@);
            return true;
        }
        i += 1;
    }
    proof {
        if views(parts@).contains(part@) {
            let k = choose|k: int| 0 <= k < parts@.len() && views(parts@)[k] == part@;
            assert(parts@[k]@ == part@);
        }
    }
    false
}

/// Joins parts by a character.
pub fn join_chars(parts: &Vec<Vec<char>>, c: char) -> (out: Vec<char>)
    ensures
        out@ == joined(views(parts@), c),
{
    let mut out: Vec<char> = Vec::new();
    let mut i: usize = 0;
    let ghost all = views(parts@);
    assert(all.take(0) =~= Seq::<Seq<char>>::empty());
    while i < parts.len()
        invariant
            i <= parts@.len(),
            all == views(parts@),
            out@ == joined(all.take(i as int), c),
        decreases parts.len() - i,
    {
        assert(all.take(i + 1).drop_last() =~= all.take(i as int));
        if i > 0 {
            out.push(c);
        }
        append(&mut out, &parts[i]);
        assert(out@ =~= joined(all.take(i + 1), c));
        i += 1;
    }
    assert(all.take(i as int) =~= all);
    out
}

/// The search for the text of any range: their patterns, each once, as alternatives.
pub fn search_selection_impl(text: &Text, selection: &Selection, detect_word_boundaries: bool) -> (
regex: String)
    requires
        selection.within(text@.len() as int),
    ensures
        regex@ == joined(
            distinct_patterns(
                *text,
                selection.ranges@,
                detect_word_boundaries,
                selection.ranges@.len(),
            ),
            '|',
        ),
{
    let ghost rs = selection.ranges@;
    let mut parts: Vec<Vec<char>> = Vec::new();
    let mut i: usize = 0;
    assert(views(parts@) =~= Seq::<Seq<char>>::empty());
    while i < selection.ranges.len()
        invariant
            i <= rs.len(),
            rs == selection.ranges@,
            selection.within(text@.len() as int),
            views(parts@) == distinct_patterns(*text, rs, detect_word_boundaries, i as nat),
        decreases selection.ranges.len() - i,
    {
        assert(rs[i as int].within(text@.len() as int));
        let next = pattern_of_range(text, &selection.ranges[i], detect_word_boundaries);
        if !is_among(&parts, &next) {
            assert(views(parts@.push(next)) =~= views(parts@).push(next@));
            parts.push(next);
        }
        i += 1;
    }
    from_chars(&join_chars(&parts, '|'))
}

/// What the editor tells when a search is put in a register.
pub open spec fn register_message(register: char, regex: Seq<char>) -> Seq<char> {
    "register '"@.push(register) + "' set to '"@ + regex + "'"@
}

/// What the editor tells when a search is put in a register.
pub fn register_set_message(register: char, regex: &str) -> (message: String)
    ensures
        message@ == register_message(register, regex@),
{
    let mut message = String::from_str("register '");
    message.push(register);
    message.append("' set to '");
    message.append(regex);
    message.append("'");
    message
}

/// A match in a file: the lines and the columns where it begins and ends, counted from 0.
#[derive(Clone, Copy, Debug, PartialEq, Eq, Structural)]
pub struct MatchSpan {
    pub line_start: usize,
    pub match_start_col: usize,
    pub line_end: usize,
    pub match_end_col: usize,
}

/// The line and the column of character `k` in a text that begins on line `first`.
pub open spec fn line_and_column(s: Seq<char>, first: int, k: int) -> (int, int) {
    (first + line_of(s, k), k - line_start(s, line_of(s, k)))
}

/// `k` is where byte `offset` of `s` begins a character, or ends the text.
pub open spec fn at_byte(s: Seq<char>, offset: int, k: int) -> bool {
    0 <= k <= s.len() && bytes(s.take(k)) == offset
}

/// Byte `offset` of `s` begins a character, or is the end of the text.
pub open spec fn on_character(s: Seq<char>, offset: int) -> bool {
    exists|k: int| #[trigger] at_byte(s, offset, k)
}

/// A longer prefix takes more bytes.
pub proof fn lemma_bytes_prefix(s: Seq<char>, i: int, j: int)
    requires
        0 <= i <= j <= s.len(),
    ensures
        bytes(s.take(i)) + (j - i) <= bytes(s.take(j)),
    decreases j - i,
{
    if i < j {
        assert(s.take(j).drop_last() =~= s.take(j - 1));
        lemma_bytes_prefix(s, i, j - 1);
    }
}

/// Finds the character that begins at a byte.
pub fn char_at_byte(chars: &Vec<char>, offset: usize) -> (found: Option<usize>)
    ensures
        found is Some <==> on_character(chars@, offset as int),
        found matches Some(k) ==> at_byte(chars@, offset as int, k as int),
{
    let mut seen: usize = 0;
    let mut i: usize = 0;
    assert(chars@.take(0) =~= Seq::<char>::empty());
    while i < chars.len() && seen < offset
        invariant
            i <= chars@.len(),
            seen == bytes(chars@.take(i as int)),
            seen <= offset,
        decreases chars.len() - i,
    {
        assert(chars@.take(i + 1).drop_last() =~= chars@.take(i as int));
        let code = chars[i] as u32;
        let width: usize = if code < 0x80 {
            1
        } else if code < 0x800 {
            2
        } else if code < 0x10000 {
            3
        } else {
            4
        };
        if width > offset - seen {
            proof {
                assert forall|k: int| !#[trigger] at_byte(chars@, offset as int, k) by {
                    if at_byte(chars@, offset as int, k) {
                        if k <= i {
                            lemma_bytes_prefix(chars@, k, i as int);
                        } else {
                            lemma_bytes_prefix(chars@, i + 1, k);
                        }
                    }
                }
            }
            return None;
        }
        seen += width;
        i += 1;
    }
    if seen == offset {
        assert(at_byte(chars@, offset as int, i as int));
        Some(i)
    } else {
        proof {
            assert forall|k: int| !#[trigger] at_byte(chars@, offset as int, k) by {
                if at_byte(chars@, offset as int, k) {
                    lemma_bytes_prefix(chars@, k, i as int);
                }
            }
        }
        None
    }
}

/// Two characters do not begin at the same byte.
pub proof fn characters_begin_apart(s: Seq<char>, offset: int, i: int, j: int)
    requires
        at_byte(s, offset, i),
        at_byte(s, offset, j),
    ensures
        i == j,
{
    if i < j {
        lemma_bytes_prefix(s, i, j);
    } else if j < i {
        lemma_bytes_prefix(s, j, i);
    }
}

/// The lines and columns of a match that covers the characters from `from` up to `to` of some
/// lines, the first of which is line `line_start` of its file.
pub fn match_bounds(line_start: usize, chars: &Vec<char>, from: usize, to: usize) -> (span:
    MatchSpan)
    requires
        from <= to <= chars@.len(),
        line_start + chars@.len() <= usize::MAX,
    ensures
        (span.line_start as int, span.match_start_col as int) == line_and_column(
            chars@,
            line_start as int,
            from as int,
        ),
        (span.line_end as int, span.match_end_col as int) == line_and_column(
            chars@,
            line_start as int,
            to as int,
        ),
{
    let text = Text::from_chars(copy_chars(chars));
    let first = text.char_to_line(from);
    let last = text.char_to_line(to);
    proof {
        crate::text::lemma_line_of_bounds(chars@, from as int);
        crate::text::lemma_line_of_bounds(chars@, to as int);
    }
    MatchSpan {
        line_start: line_start + first,
        match_start_col: from - text.line_to_char(first),
        line_end: line_start + last,
        match_end_col: to - text.line_to_char(last),
    }
}

/// What a pattern finds in some lines of a file.
#[derive(Clone, Copy, Debug, PartialEq, Eq, Structural)]
pub enum LineMatch {
    Missing,
    Found(MatchSpan),
    /// The match begins or ends inside a character.
    Split,
}

/// The character that byte `offset` of `s` begins.
pub open spec fn char_of(s: Seq<char>, offset: int) -> int {
    choose|k: int| #[trigger] at_byte(s, offset, k)
}

/// Where a match from byte `start` up to byte `end` of some lines stands in its file.
pub open spec fn span_of(s: Seq<char>, first: int, start: int, end: int) -> MatchSpan {
    let from = line_and_column(s, first, char_of(s, start));
    let to = line_and_column(s, first, char_of(s, end));
    MatchSpan {
        line_start: from.0 as usize,
        match_start_col: from.1 as usize,
        line_end: to.0 as usize,
        match_end_col: to.1 as usize,
    }
}

/// What a match, given by its bytes in some lines that begin with line `first`, is in its file.
pub open spec fn located(bounds: Option<(int, int)>, s: Seq<char>, first: int) -> LineMatch {
    match bounds {
        None => LineMatch::Missing,
        Some((start, end)) => if on_character(s, start) && on_character(s, end) {
            LineMatch::Found(span_of(s, first, start, end))
        } else {
            LineMatch::Split
        },
    }
}

/// Turns a match, given by its bytes in the lines `line_content`, into lines and columns of the
/// file.
pub fn locate_match(line_start: usize, line_content: &str, bounds: Option<(usize, usize)>) -> (found:
    LineMatch)
    requires
        line_start + line_content@.len() <= usize::MAX,
        bounds matches Some((start, end)) ==> start <= end,
    ensures
        found == located(
            match bounds {
                Some((start, end)) => Some((start as int, end as int)),
                None => None,
            },
            line_content@,
            line_start as int,
        ),
{
    match bounds {
        None => LineMatch::Missing,
        Some((start, end)) => {
            let chars = to_chars(line_content);
            match (char_at_byte(&chars, start), char_at_byte(&chars, end)) {
                (Some(from), Some(to)) => {
                    proof {
                        if from > to {
                            lemma_bytes_prefix(chars@, to as int, from as int);
                        }
                        assert(at_byte(chars@, start as int, from as int));
                        assert(at_byte(chars@, end as int, to as int));
                        characters_begin_apart(
                            chars@,
                            start as int,
                            from as int,
                            char_of(chars@, start as int),
                        );
                        characters_begin_apart(
                            chars@,
                            end as int,
                            to as int,
                            char_of(chars@, end as int),
                        );
                    }
                    LineMatch::Found(match_bounds(line_start, &chars, from, to))
                },
                _ => LineMatch::Split,
            }
        },
    }
}

/// Turns the first match in `line_content`, the lines of a file from `line_start` on, into lines
/// and columns.
pub fn match_line_cols(
    line_start: usize,
    line_content: &str,
    matcher: &grep_regex::RegexMatcher,
) -> (found: LineMatch)
    requires
        line_start + line_content@.len() <= usize::MAX,
    ensures
        found == located(
            first_match(compiled_from(*matcher).0, compiled_from(*matcher).1, line_content@),
            line_content@,
            line_start as int,
        ),
{
    locate_match(line_start, line_content, find_match(matcher, line_content))
}

/// The matches in the first `n` of some numbered lines.
pub open spec fn spans_in(
    lines: Seq<(int, Seq<char>)>,
    pattern: Seq<char>,
    smart_case: bool,
    n: nat,
) -> Seq<MatchSpan>
    decreases n,
{
    if n == 0 {
        Seq::empty()
    } else {
        let before = spans_in(lines, pattern, smart_case, (n - 1) as nat);
        let (number, line) = lines[n - 1];
        match located(first_match(pattern, smart_case, line), line, number - 1) {
            LineMatch::Found(span) => before.push(span),
            _ => before,
        }
    }
}

/// Turns numbered lines that a search found, counted from 1, into the matches in them.
pub fn matches_in(lines: &Vec<(u64, String)>, matcher: &grep_regex::RegexMatcher) -> (spans: Vec<
    MatchSpan,
>)
    requires
        forall|i: int|
            0 <= i < lines@.len() ==> 1 <= (#[trigger] lines@[i]).0 && lines@[i].0 - 1
                + lines@[i].1@.len() <= usize::MAX,
    ensures
        spans@ == spans_in(
            numbered(lines@),
            compiled_from(*matcher).0,
            compiled_from(*matcher).1,
            lines@.len(),
        ),
{
    let ghost all = numbered(lines@);
    let mut spans: Vec<MatchSpan> = Vec::new();
    let mut i: usize = 0;
    while i < lines.len()
        invariant
            i <= lines@.len(),
            all == numbered(lines@),
            forall|i: int|
                0 <= i < lines@.len() ==> 1 <= (#[trigger] lines@[i]).0 && lines@[i].0 - 1
                    + lines@[i].1@.len() <= usize::MAX,
            spans@ == spans_in(
                all,
                compiled_from(*matcher).0,
                compiled_from(*matcher).1,
                i as nat,
            ),
        decreases lines.len() - i,
    {
        assert(1 <= lines@[i as int].0);
        assert(all[i as int] == (lines@[i as int].0 as int, lines@[i as int].1@));
        let number = (lines[i].0 - 1) as usize;
        match match_line_cols(number, lines[i].1.as_str(), matcher) {
            LineMatch::Found(span) => {
                spans.push(span);
            },
            _ => {},
        }
        i += 1;
    }
    spans
}

/// The lines of an open buffer that a search of the workspace looks at.
pub open spec fn buffer_lines(pattern: Seq<char>, smart_case: bool, text: Seq<char>) -> Seq<
    (int, Seq<char>),
> {
    if spans_lines(pattern, smart_case) {
        slice_lines(pattern, smart_case, text)
    } else {
        reader_lines(pattern, smart_case, text)
    }
}

/// The matches that a search of the workspace finds in an open buffer.
pub open spec fn buffer_spans(matcher: grep_regex::RegexMatcher, text: Seq<char>) -> Seq<MatchSpan> {
    let (pattern, smart_case) = compiled_from(matcher);
    let lines = buffer_lines(pattern, smart_case, text);
    spans_in(lines, pattern, smart_case, lines.len())
}

/// Searches an open buffer in place of its file. A pattern that may match across lines needs the
/// text as a whole.
pub fn search_buffer(matcher: &grep_regex::RegexMatcher, text: &str) -> (spans: Vec<MatchSpan>)
    ensures
        spans@ == buffer_spans(*matcher, text@),
{
    let length = text.unicode_len();
    assert(text@.len() == length <= usize::MAX);
    let lines = if multi_line_with_matcher(matcher) {
        search_slice(matcher, text)
    } else {
        search_reader(matcher, text)
    };
    matches_in(&lines, matcher)
}

/// Why a search of the workspace cannot begin.
#[derive(Clone, Copy, Debug, PartialEq, Eq, Structural)]
pub enum GlobalSearchError {
    NoWorkingDirectory,
    BadPattern,
}

impl GlobalSearchError {
    /// The error as it is shown.
    pub open spec fn text(self) -> Seq<char> {
        match self {
            GlobalSearchError::NoWorkingDirectory => "Current working directory does not exist"@,
            GlobalSearchError::BadPattern => "Failed to compile regex"@,
        }
    }

    /// The error as it is shown.
    pub fn message(&self) -> (s: &'static str)
        ensures
            s@ == self.text(),
    {
        match self {
            GlobalSearchError::NoWorkingDirectory => "Current working directory does not exist",
            GlobalSearchError::BadPattern => "Failed to compile regex",
        }
    }
}

/// Begins a search of the workspace: the register that becomes the one of the last search, and the
/// pattern to search for. Nothing is searched for an empty query.
pub fn global_search(
    register: Option<char>,
    query: &str,
    root_exists: bool,
    smart_case: bool,
) -> (begun: (char, Result<Option<grep_regex::RegexMatcher>, GlobalSearchError>))
    ensures
        begun.0 == chosen_or(register, SEARCH_REGISTER),
        query@.len() == 0 ==> begun.1 matches Ok(None),
        query@.len() > 0 && !root_exists ==> (begun.1 matches Err(e) && e
            == GlobalSearchError::NoWorkingDirectory),
        query@.len() > 0 && root_exists && !compiles(query@, smart_case) ==> (begun.1 matches Err(
            e,
        ) && e == GlobalSearchError::BadPattern),
        query@.len() > 0 && root_exists && compiles(query@, smart_case) ==> (begun.1 matches Ok(
            Some(m),
        ) && compiled_from(m) == (query@, smart_case)),
{
    let used = search_register(register);
    if query.is_empty() {
        return (used, Ok(None));
    }
    if !root_exists {
        return (used, Err(GlobalSearchError::NoWorkingDirectory));
    }
    match build_matcher(query, smart_case) {
        Ok(matcher) => (used, Ok(Some(matcher))),
        Err(_) => (used, Err(GlobalSearchError::BadPattern)),
    }
}

/// A search of the workspace looks up an open buffer in place of its file, so that it finds text
/// that was not saved: the first of the open buffers with the path.
pub open spec fn open_buffer(paths: Seq<Option<String>>, path: Seq<char>) -> Option<int>
    decreases paths.len(),
{
    if paths.len() == 0 {
        None
    } else if paths[0] matches Some(p) && p@ == path {
        Some(0)
    } else {
        match open_buffer(paths.skip(1), path) {
            Some(k) => Some(k + 1),
            None => None,
        }
    }
}

/// Finds the open buffer that stands in for a file.
pub fn find_open_buffer(paths: &Vec<Option<String>>, path: &str) -> (found: Option<usize>)
    ensures
        (match found {
            Some(k) => Some(k as int),
            None => None,
        }) == open_buffer(paths@, path@),
        found matches Some(k) ==> k < paths@.len(),
{
    let mut i: usize = 0;
    assert(paths@.skip(0) =~= paths@);
    while i < paths.len()
        invariant
            i <= paths@.len(),
            open_buffer(paths@, path@) == (match open_buffer(paths@.skip(i as int), path@) {
                Some(k) => Some(k + i),
                None => None,
            }),
        decreases paths.len() - i,
    {
        assert(paths@.skip(i as int).skip(1) =~= paths@.skip(i + 1));
        assert(paths@.skip(i as int)[0] == paths@[i as int]);
        if let Some(p) = &paths[i] {
            if crate::commands::catalog::same_text(p.as_str(), path) {
                return Some(i);
            }
        }
        i += 1;
    }
    None
}

/// Searches a file in the buffer that holds it, with the edits that were not saved. A file that no
/// buffer holds is to be searched where it lies.
pub fn search_open_file(
    matcher: &grep_regex::RegexMatcher,
    paths: &Vec<Option<String>>,
    texts: &Vec<String>,
    path: &str,
) -> (spans: Option<Vec<MatchSpan>>)
    requires
        paths@.len() == texts@.len(),
    ensures
        match open_buffer(paths@, path@) {
            Some(k) => 0 <= k < texts@.len() && spans is Some && spans->0@ == buffer_spans(
                *matcher,
                texts@[k]@,
            ),
            None => spans is None,
        },
{
    match find_open_buffer(paths, path) {
        Some(k) => Some(search_buffer(matcher, texts[k].as_str())),
        None => None,
    }
}

/// The selection of a match that a search of the workspace found, unless the text has changed so
/// that its lines or columns no longer exist.
pub fn selection_for_global_search_match(
    text: &Text,
    start_line: usize,
    start_col: usize,
    end_line: usize,
    end_col: usize,
) -> (selection: Option<Selection>)
    requires
        text.wf(),
        text@.len() < usize::MAX,
    ensures
        ({
            let start = line_start(text@, start_line as int) + start_col;
            let end = line_start(text@, end_line as int) + end_col;
            let exists_still = start_line <= end_line && end_line < line_count(text@) && start
                <= line_end(text@, start_line as int) && end <= line_end(text@, end_line as int);
            &&& selection is Some <==> exists_still
            &&& selection matches Some(s) ==> s.wf() && s.ranges@ == seq![
                (Range { anchor: start as usize, head: end as usize }).widened(*text).aligned(
                    *text,
                ),
            ] && s.primary_index == 0
        }),
{
    if start_line > end_line || end_line >= text.len_lines() {
        return None;
    }
    let a = text.line_to_char(start_line);
    let b = text.line_to_char(end_line);
    let a_end = text.line_end_char_index(start_line);
    let b_end = text.line_end_char_index(end_line);
    if start_col > a_end - a || end_col > b_end - b {
        return None;
    }
    let start = a + start_col;
    let end = b + end_col;
    let single = Selection::single(start, end);
    let ghost r = single.ranges@[0];
    assert(single.within(text@.len() as int));
    let s = single.ensure_invariants(text);
    assert(s.ranges@ =~= seq![r.widened(*text).aligned(*text)]);
    Some(s)
}

/// The selection of a match that is picked, or the error that it is gone.
pub fn jump_to_match(text: &Text, span: MatchSpan) -> (selection: Result<Selection, &'static str>)
    requires
        text.wf(),
        text@.len() < usize::MAX,
    ensures
        ({
            let start = line_start(text@, span.line_start as int) + span.match_start_col;
            let end = line_start(text@, span.line_end as int) + span.match_end_col;
            let exists_still = span.line_start <= span.line_end && span.line_end < line_count(text@)
                && start <= line_end(text@, span.line_start as int) && end <= line_end(
                text@,
                span.line_end as int,
            );
            match selection {
                Ok(s) => exists_still && s.wf() && s.ranges@ == seq![
                    (Range { anchor: start as usize, head: end as usize }).widened(*text).aligned(
                        *text,
                    ),
                ] && s.primary_index == 0,
                Err(m) => !exists_still && m@
                    == "The match you jumped to does not exist anymore."@,
            }
        }),
{
    match selection_for_global_search_match(
        text,
        span.line_start,
        span.match_start_col,
        span.line_end,
        span.match_end_col,
    ) {
        Some(s) => Ok(s),
        None => Err("The match you jumped to does not exist anymore."),
    }
}

/// A search forward begins at the nearest boundary that does not lie in the primary range any more,
/// behind it; a search backward at the nearest one before it.
pub proof fn searches_begin_beside_the_selection(text: Text, primary: Range, b: usize)
    requires
        text.wf(),
        primary.within(text@.len() as int),
        text.breaks@.contains(b),
    ensures
        ({
            let ahead = search_from(text, primary, Direction::Forward);
            let back = search_from(text, primary, Direction::Backward);
            &&& primary.hi() <= ahead <= text@.len() && text.breaks@.contains(ahead as usize)
            &&& primary.hi() <= b ==> ahead <= b
            &&& 0 <= back <= primary.lo() && text.breaks@.contains(back as usize)
            &&& b <= primary.lo() ==> b <= back
        }),
{
    crate::text::steps_reach_the_nearest_boundary(text, primary.hi(), b);
    crate::text::steps_reach_the_nearest_boundary(text, primary.lo(), b);
    let breaks = text.breaks@;
    assert(breaks[0] == 0);
    assert(breaks.contains(breaks[0]));
    assert(breaks.contains(breaks[breaks.len() - 1]));
    crate::text::steps_reach_the_nearest_boundary(text, primary.lo(), 0);
    crate::text::steps_reach_the_nearest_boundary(text, primary.hi(), text@.len() as usize);
}

/// A match ahead is always taken; one in the rest of the text only where there is none ahead and
/// the search wraps around.
pub proof fn matches_ahead_come_first(
    ahead: Option<(usize, usize)>,
    around: Option<(usize, usize)>,
)
    ensures
        ahead is Some ==> chosen_match(ahead, around, true) == ahead && chosen_match(
            ahead,
            around,
            false,
        ) == ahead,
        ahead is None ==> chosen_match(ahead, around, true) == around && chosen_match(
            ahead,
            around,
            false,
        ) is None,
{
}

/// What begins with a text goes on behind it, and what ends with one begins before it.
pub proof fn prefixes_and_suffixes(a: Seq<char>, b: Seq<char>)
    ensures
        has_prefix(a + b, a),
        has_suffix(a + b, b),
        has_prefix(b, a) ==> b == a + b.skip(a.len() as int),
        has_suffix(b, a) ==> b == b.take(b.len() - a.len()) + a,
{
    assert((a + b).take(a.len() as int) =~= a);
    assert((a + b).skip((a + b).len() - b.len()) =~= b);
    if has_prefix(b, a) {
        assert(b =~= a + b.skip(a.len() as int));
    }
    if has_suffix(b, a) {
        assert(b =~= b.take(b.len() - a.len()) + a);
    }
}

/// The completions are the items that begin with what was typed, in their order.
pub proof fn items_are_completed_by_their_beginning(
    items: Seq<Vec<char>>,
    input: Seq<char>,
    n: nat,
)
    requires
        n <= items.len(),
    ensures
        forall|i: int|
            0 <= i < n ==> (matching_items(items, input, n).contains(i) <==> (
            #[trigger] items[i])@.len() >= input.len() && items[i]@.take(input.len() as int)
                == input),
        forall|k: int|
            0 <= k < matching_items(items, input, n).len() ==> 0 <= #[trigger] matching_items(
                items,
                input,
                n,
            )[k] < n,
        forall|a: int, b: int|
            0 <= a < b < matching_items(items, input, n).len() ==> #[trigger] matching_items(
                items,
                input,
                n,
            )[a] < #[trigger] matching_items(items, input, n)[b],
    decreases n,
{
    if n > 0 {
        let m = (n - 1) as nat;
        items_are_completed_by_their_beginning(items, input, m);
        let before = matching_items(items, input, m);
        let all = matching_items(items, input, n);
        assert forall|i: int| 0 <= i < n implies (all.contains(i) <==> (
        #[trigger] items[i])@.len() >= input.len() && items[i]@.take(input.len() as int)
            == input) by {
            if i < m {
                if before.contains(i) {
                    let k = choose|k: int| 0 <= k < before.len() && before[k] == i;
                    assert(all[k] == i);
                }
                if all.contains(i) {
                    let k = choose|k: int| 0 <= k < all.len() && all[k] == i;
                    assert(k < before.len());
                    assert(before[k] == i);
                }
            } else {
                if has_prefix(items[i]@, input) {
                    assert(all[before.len() as int] == i);
                } else if all.contains(i) {
                    let k = choose|k: int| 0 <= k < all.len() && all[k] == i;
                    assert(before[k] == i);
                }
            }
        }
    }
}

/// A bounded search has a word boundary at either end, and between them what it had before.
pub proof fn bounded_searches_keep_their_pattern(s: Seq<char>)
    ensures
        match bounded(s) {
            Some(t) => {
                &&& t.len() >= 2
                &&& t[0] == '\\' && t[1] == 'b'
                &&& t[t.len() - 2] == '\\' && t[t.len() - 1] == 'b'
                &&& t.len() > s.len()
                &&& t.subrange(0, s.len() as int) == s || t.subrange(2, (s.len() + 2) as int) == s
            },
            None => s.len() >= 2 && s[0] == '\\' && s[1] == 'b' && s[s.len() - 2] == '\\' && s[s.len()
                - 1] == 'b',
        },
{
    let m = boundary_mark();
    let start = has_prefix(s, m);
    let end = has_suffix(s, m);
    if start {
        assert(s.take(2)[0] == '\\' && s.take(2)[1] == 'b');
    }
    if end {
        assert(s.skip(s.len() - 2)[0] == '\\' && s.skip(s.len() - 2)[1] == 'b');
    }
    if let Some(t) = bounded(s) {
        if start {
            assert(t =~= s + m);
            assert(t.subrange(0, s.len() as int) =~= s);
        } else {
            assert(t.subrange(2, (s.len() + 2) as int) =~= s);
        }
    }
}

/// Escaping puts a backslash before the characters that mean something, one by one, and changes
/// nothing else.
pub proof fn texts_are_escaped_by_character(a: Seq<char>, b: Seq<char>, c: char)
    ensures
        escaped(a + b) == escaped(a) + escaped(b),
        escaped(seq![c]) == (if meta_char(c) {
            seq!['\\', c]
        } else {
            seq![c]
        }),
    decreases b.len(),
{
    assert(seq![c].drop_last() =~= Seq::<char>::empty());
    reveal_with_fuel(escaped, 2);
    assert(escaped(seq![c]) =~= if meta_char(c) {
        seq!['\\', c]
    } else {
        seq![c]
    });
    if b.len() == 0 {
        assert(a + b =~= a);
        assert(escaped(a) + escaped(b) =~= escaped(a));
    } else {
        texts_are_escaped_by_character(a, b.drop_last(), c);
        assert((a + b).drop_last() =~= a + b.drop_last());
        assert((a + b).last() == b.last());
        assert(escaped(a + b) =~= escaped(a) + escaped(b));
    }
}

/// The pattern for a selection is its escaped text. Where word boundaries are asked for, one
/// stands before it if a word begins there, and one behind it if a word ends there.
pub proof fn patterns_match_the_selected_words(text: Text, r: Range)
    requires
        r.within(text@.len() as int),
    ensures
        ({
            let s = text@;
            let (lo, hi) = (r.lo(), r.hi());
            let word = escaped(s.subrange(lo, hi));
            let begins = lo < s.len() && word_char(s[lo]) && (lo == 0 || !word_char(s[lo - 1]));
            let ends = 0 < hi < s.len() && word_char(s[hi - 1]) && !word_char(s[hi]);
            let mark = seq!['\\', 'b'];
            &&& range_pattern(text, r, false) == word
            &&& range_pattern(text, r, true) == (if begins && ends {
                mark + word + mark
            } else if begins {
                mark + word
            } else if ends {
                word + mark
            } else {
                word
            })
        }),
{
    let word = escaped(text@.subrange(r.lo(), r.hi()));
    let mark = boundary_mark();
    let nothing = Seq::<char>::empty();
    assert(nothing + word + nothing =~= word);
    assert(nothing + word + mark =~= word + mark);
    assert(mark + word + nothing =~= mark + word);
}

/// Alternatives stand one after the other with the character between each two.
pub proof fn alternatives_are_parted(parts: Seq<Seq<char>>, last: Seq<char>, c: char)
    requires
        parts.len() > 0,
    ensures
        joined(seq![last], c) == last,
        joined(parts.push(last), c) == joined(parts, c) + seq![c] + last,
{
    assert(parts.push(last).drop_last() =~= parts);
    assert(joined(parts, c).push(c) =~= joined(parts, c) + seq![c]);
}

/// The line of a character is the number of line feeds before it, and its column the number of
/// characters since the last of them.
pub proof fn lines_and_columns_are_counted(s: Seq<char>, first: int, k: int)
    requires
        0 <= k <= s.len(),
    ensures
        ({
            let (line, column) = line_and_column(s, first, k);
            &&& line == first + crate::text::newlines(s.take(k))
            &&& 0 <= column <= k
            &&& forall|j: int| k - column <= j < k ==> s[j] != '\n'
            &&& k == column || s[k - column - 1] == '\n'
        }),
{
    crate::text::positions_lie_in_their_line(s, k);
    crate::text::lines_lie_between_line_feeds(s, line_of(s, k));
}

/// A match is located where its bytes begin and end characters of its lines, at their lines and
/// columns, counted from the line that the lines begin with.
pub proof fn matches_are_located_by_their_characters(
    s: Seq<char>,
    first: int,
    start: int,
    end: int,
    i: int,
    j: int,
)
    requires
        0 <= first,
        first + s.len() <= usize::MAX,
        at_byte(s, start, i),
        at_byte(s, end, j),
    ensures
        located(Some((start, end)), s, first) matches LineMatch::Found(span) && span.line_start
            == first + crate::text::newlines(s.take(i)) && span.line_end == first
            + crate::text::newlines(s.take(j)) && span.match_start_col == line_and_column(
            s,
            first,
            i,
        ).1 && span.match_end_col == line_and_column(s, first, j).1,
        located(None, s, first) == LineMatch::Missing,
{
    characters_begin_apart(s, start, i, char_of(s, start));
    characters_begin_apart(s, end, j, char_of(s, end));
    lines_and_columns_are_counted(s, first, i);
    lines_and_columns_are_counted(s, first, j);
    crate::text::lemma_newlines_prefix_le(s, 0, i);
    crate::text::positions_lie_in_their_line(s, i);
    crate::text::positions_lie_in_their_line(s, j);
    lemma_feeds_fit(s.take(i));
    lemma_feeds_fit(s.take(j));
}

proof fn lemma_feeds_fit(s: Seq<char>)
    ensures
        crate::text::newlines(s) <= s.len(),
    decreases s.len(),
{
    if s.len() > 0 {
        lemma_feeds_fit(s.drop_last());
    }
}

/// The match in a found line is reported on that line: found lines are numbered from 1, and
/// reported from 0 on.
pub proof fn matches_are_reported_on_their_lines(
    lines: Seq<(int, Seq<char>)>,
    pattern: Seq<char>,
    smart_case: bool,
    n: nat,
    k: int,
    i: int,
    j: int,
)
    requires
        n <= lines.len(),
        0 <= k < n,
        1 <= lines[k].0,
        lines[k].0 - 1 + lines[k].1.len() <= usize::MAX,
        first_match(pattern, smart_case, lines[k].1) matches Some((start, end)) && at_byte(
            lines[k].1,
            start,
            i,
        ) && at_byte(lines[k].1, end, j),
    ensures
        exists|m: int|
            0 <= m < spans_in(lines, pattern, smart_case, n).len() && {
                let span = #[trigger] spans_in(lines, pattern, smart_case, n)[m];
                span.line_start + 1 == lines[k].0 + crate::text::newlines(lines[k].1.take(i))
                    && span.line_end + 1 == lines[k].0 + crate::text::newlines(lines[k].1.take(j))
            },
    decreases n,
{
    let all = spans_in(lines, pattern, smart_case, n);
    let before = spans_in(lines, pattern, smart_case, (n - 1) as nat);
    let (start, end) = first_match(pattern, smart_case, lines[k].1)->0;
    if k == n - 1 {
        matches_are_located_by_their_characters(lines[k].1, lines[k].0 - 1, start, end, i, j);
        assert(all[before.len() as int] == all.last());
    } else {
        matches_are_reported_on_their_lines(
            lines,
            pattern,
            smart_case,
            (n - 1) as nat,
            k,
            i,
            j,
        );
        let m = choose|m: int|
            0 <= m < before.len() && {
                let span = #[trigger] before[m];
                span.line_start + 1 == lines[k].0 + crate::text::newlines(lines[k].1.take(i))
                    && span.line_end + 1 == lines[k].0 + crate::text::newlines(lines[k].1.take(j))
            };
        assert(all[m] == before[m]);
    }
}

/// The open buffer that stands in for a file is the first one with its path.
pub proof fn open_buffers_stand_in_for_their_files(paths: Seq<Option<String>>, path: Seq<char>)
    ensures
        match open_buffer(paths, path) {
            Some(k) => 0 <= k < paths.len() && paths[k] is Some && paths[k]->0@ == path && forall|
                j: int,
            |
                0 <= j < k ==> !((#[trigger] paths[j]) is Some && paths[j]->0@ == path),
            None => forall|j: int|
                0 <= j < paths.len() ==> !((#[trigger] paths[j]) is Some && paths[j]->0@ == path),
        },
    decreases paths.len(),
{
    if paths.len() > 0 && !(paths[0] is Some && paths[0]->0@ == path) {
        let rest = paths.skip(1);
        open_buffers_stand_in_for_their_files(rest, path);
        assert(forall|j: int| 0 < j < paths.len() ==> rest[j - 1] == #[trigger] paths[j]);
    }
}

/// The prompt searches while it is typed and when it is entered, and not when it is left. Only
/// entering it changes the register of the last search.
pub proof fn only_entered_searches_are_remembered(register: char)
    ensures
        search_on(PromptEvent::Update, register).0 && search_on(PromptEvent::Validate, register).0,
        !search_on(PromptEvent::Abort, register).0,
        search_on(PromptEvent::Validate, register).1 == Some(register),
        search_on(PromptEvent::Update, register).1 is None,
        search_on(PromptEvent::Abort, register).1 is None,
{
}

} // verus!
