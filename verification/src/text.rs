//! The text of a document: characters, the lines they form, and the grapheme clusters a cursor
//! moves over.
//!
//! Positions are character indices. A line ends after a line feed; the boundaries of the grapheme
//! clusters are part of the text.

use vstd::prelude::*;

verus! {

/// The number of line feeds in `s`.
pub open spec fn newlines(s: Seq<char>) -> nat
    decreases s.len(),
{
    if s.len() == 0 {
        0
    } else {
        newlines(s.drop_last()) + if s.last() == '\n' {
            1nat
        } else {
            0nat
        }
    }
}

/// The number of lines of `s`: one more than its line feeds, as the text after the last line feed
/// is a line, even when it is empty.
pub open spec fn line_count(s: Seq<char>) -> int {
    newlines(s) as int + 1
}

/// The line that holds position `i`.
pub open spec fn line_of(s: Seq<char>, i: int) -> int {
    newlines(s.take(i)) as int
}

/// Where line `line` begins: the least position with `line` line feeds before it, or the end of
/// the text when there are fewer.
pub open spec fn line_start(s: Seq<char>, line: int) -> int
    decreases s.len(),
{
    if line <= 0 {
        0
    } else if s.len() > 0 && newlines(s.drop_last()) >= line {
        line_start(s.drop_last(), line)
    } else {
        s.len() as int
    }
}

/// How many characters at the end of `s` form its line ending: two for `\r\n`, one for `\n`.
pub open spec fn line_ending_len(s: Seq<char>) -> int {
    if s.len() >= 2 && s[s.len() - 2] == '\r' && s[s.len() - 1] == '\n' {
        2
    } else if s.len() >= 1 && s[s.len() - 1] == '\n' {
        1
    } else {
        0
    }
}

/// Line `line` of `s`, with its line ending.
pub open spec fn line_at(s: Seq<char>, line: int) -> Seq<char> {
    s.subrange(line_start(s, line), line_start(s, line + 1))
}

/// Where the line ending of line `line` begins.
pub open spec fn line_end(s: Seq<char>, line: int) -> int {
    line_start(s, line + 1) - line_ending_len(line_at(s, line))
}

/// The least boundary above `i`, or the last boundary when there is none.
pub open spec fn next_boundary(breaks: Seq<usize>, i: int) -> int
    decreases breaks.len(),
{
    if breaks.len() == 0 {
        i
    } else if breaks[0] > i || breaks.len() == 1 {
        breaks[0] as int
    } else {
        next_boundary(breaks.skip(1), i)
    }
}

/// The greatest boundary below `i`, or the first boundary when there is none.
pub open spec fn prev_boundary(breaks: Seq<usize>, i: int) -> int
    decreases breaks.len(),
{
    if breaks.len() == 0 {
        i
    } else if breaks.last() < i || breaks.len() == 1 {
        breaks.last() as int
    } else {
        prev_boundary(breaks.drop_last(), i)
    }
}

/// The boundary reached from `i` by `n` steps forward.
pub open spec fn nth_next_boundary(breaks: Seq<usize>, i: int, n: nat) -> int
    decreases n,
{
    if n == 0 {
        i
    } else {
        nth_next_boundary(breaks, next_boundary(breaks, i), (n - 1) as nat)
    }
}

/// The boundary reached from `i` by `n` steps backward.
pub open spec fn nth_prev_boundary(breaks: Seq<usize>, i: int, n: nat) -> int
    decreases n,
{
    if n == 0 {
        i
    } else {
        nth_prev_boundary(breaks, prev_boundary(breaks, i), (n - 1) as nat)
    }
}

/// `i` itself where it is a boundary, else the least boundary above it.
pub open spec fn boundary_at_or_after(breaks: Seq<usize>, i: int) -> int {
    if breaks.contains(i as usize) {
        i
    } else {
        next_boundary(breaks, i)
    }
}

/// `i` itself where it is a boundary, else the greatest boundary below it.
pub open spec fn boundary_at_or_before(breaks: Seq<usize>, i: int) -> int {
    if breaks.contains(i as usize) {
        i
    } else {
        prev_boundary(breaks, i)
    }
}

/// Boundaries rise from the beginning of a text of `len` characters to its end.
pub open spec fn valid_breaks(breaks: Seq<usize>, len: int) -> bool {
    &&& breaks.len() > 0
    &&& breaks[0] == 0
    &&& breaks.last() == len
    &&& forall|a: int, b: int| 0 <= a < b < breaks.len() ==> breaks[a] < breaks[b]
}

/// Position `i` lies between a carriage return and its line feed.
pub open spec fn splits_crlf(s: Seq<char>, i: int) -> bool {
    0 < i < s.len() && s[i - 1] == '\r' && s[i] == '\n'
}

/// Boundaries rise from 0 and stay below `end`.
spec fn rising_to(breaks: Seq<usize>, end: int) -> bool {
    &&& breaks.len() > 0
    &&& breaks[0] == 0
    &&& forall|a: int, b: int| 0 <= a < b < breaks.len() ==> breaks[a] < breaks[b]
    &&& forall|a: int| 0 <= a < breaks.len() ==> breaks[a] < end
}

proof fn lemma_contains_pushed(before: Seq<usize>, i: usize)
    ensures
        forall|j: usize| #[trigger]
            before.push(i).contains(j) <==> before.contains(j) || j == i,
{
    assert forall|j: usize| before.contains(j) || j == i implies #[trigger] before.push(i).contains(
        j,
    ) by {
        if before.contains(j) {
            let k = choose|k: int| 0 <= k < before.len() && before[k] == j;
            assert(before.push(i)[k] == j);
        } else {
            assert(before.push(i)[before.len() as int] == j);
        }
    }
}

/// Characters together with the boundaries of their grapheme clusters.
pub struct Text {
    pub chars: Vec<char>,
    pub breaks: Vec<usize>,
}

impl View for Text {
    type V = Seq<char>;

    open spec fn view(&self) -> Seq<char> {
        self.chars@
    }
}

impl Text {
    /// The boundaries are those of a text of this length.
    pub open spec fn wf(&self) -> bool {
        valid_breaks(self.breaks@, self.chars@.len() as int)
    }

    /// Puts characters and boundaries together, if they fit.
    pub fn new(chars: Vec<char>, breaks: Vec<usize>) -> (text: Option<Text>)
        ensures
            text is Some <==> valid_breaks(breaks@, chars@.len() as int),
            text matches Some(t) ==> t@ == chars@ && t.breaks@ == breaks@,
    {
        if breaks.len() == 0 || breaks[0] != 0 || breaks[breaks.len() - 1] != chars.len() {
            return None;
        }
        let mut k: usize = 1;
        while k < breaks.len()
            invariant
                1 <= k <= breaks.len(),
                forall|a: int, b: int| 0 <= a < b < k ==> breaks@[a] < breaks@[b],
            decreases breaks.len() - k,
        {
            if breaks[k - 1] >= breaks[k] {
                return None;
            }
            assert(forall|a: int| 0 <= a < k ==> #[trigger] breaks@[a] <= breaks@[k - 1]);
            k += 1;
        }
        Some(Text { chars, breaks })
    }

    /// A text in which every character is a grapheme cluster of its own, except that a carriage
    /// return and the line feed after it form one.
    pub fn from_chars(chars: Vec<char>) -> (text: Text)
        ensures
            text@ == chars@,
            text.wf(),
            forall|i: int|
                0 <= i <= chars@.len() ==> (#[trigger] text.breaks@.contains(i as usize)
                    <==> !splits_crlf(chars@, i)),
    {
        let mut breaks: Vec<usize> = Vec::new();
        breaks.push(0);
        if chars.len() == 0 {
            assert(breaks@[0] == 0);
            return Text { chars, breaks };
        }
        let mut i: usize = 1;
        assert(breaks@[0] == 0);
        while i < chars.len()
            invariant
                1 <= i <= chars.len(),
                rising_to(breaks@, i as int),
                forall|j: int|
                    0 <= j < i ==> (#[trigger] breaks@.contains(j as usize) <==> !splits_crlf(
                        chars@,
                        j,
                    )),
            decreases chars.len() - i,
        {
            let ghost before = breaks@;
            if !(chars[i - 1] == '\r' && chars[i] == '\n') {
                breaks.push(i);
                proof {
                    lemma_contains_pushed(before, i);
                }
            }
            assert(!before.contains(i));
            i += 1;
        }
        let ghost before = breaks@;
        breaks.push(i);
        proof {
            lemma_contains_pushed(before, i);
        }
        Text { chars, breaks }
    }

    /// The number of characters.
    pub fn len_chars(&self) -> (n: usize)
        ensures
            n == self@.len(),
    {
        self.chars.len()
    }

    /// The line that holds position `pos`.
    pub fn char_to_line(&self, pos: usize) -> (line: usize)
        requires
            pos <= self@.len(),
        ensures
            line == line_of(self@, pos as int),
            line <= pos,
    {
        let mut line: usize = 0;
        let mut i: usize = 0;
        assert(self@.take(0).len() == 0);
        while i < pos
            invariant
                i <= pos <= self@.len(),
                line == newlines(self@.take(i as int)),
                line <= i,
            decreases pos - i,
        {
            assert(self@.take(i + 1).drop_last() =~= self@.take(i as int));
            if self.chars[i] == '\n' {
                line += 1;
            }
            i += 1;
        }
        line
    }

    /// The number of lines.
    pub fn len_lines(&self) -> (n: usize)
        requires
            self@.len() < usize::MAX,
        ensures
            n == line_count(self@),
    {
        assert(self@.take(self@.len() as int) =~= self@);
        self.char_to_line(self.chars.len()) + 1
    }

    /// Where line `line` begins; the end of the text for a line past the last one.
    pub fn line_to_char(&self, line: usize) -> (pos: usize)
        ensures
            pos == line_start(self@, line as int),
            pos <= self@.len(),
    {
        let mut seen: usize = 0;
        let mut i: usize = 0;
        assert(self@.take(0).len() == 0);
        while seen < line && i < self.chars.len()
            invariant
                i <= self@.len(),
                seen <= i,
                seen <= line,
                seen == newlines(self@.take(i as int)),
                seen == line ==> i == line_start(self@.take(i as int), line as int),
            decreases self.chars.len() - i,
        {
            assert(self@.take(i + 1).drop_last() =~= self@.take(i as int));
            if self.chars[i] == '\n' {
                seen += 1;
            }
            i += 1;
        }
        proof {
            lemma_line_start_of_prefix(self@, i as int, line as int);
        }
        i
    }

    /// Where the line ending of line `line` begins.
    pub fn line_end_char_index(&self, line: usize) -> (pos: usize)
        requires
            line < usize::MAX,
        ensures
            pos == line_end(self@, line as int),
            line_start(self@, line as int) <= pos <= line_start(self@, line + 1) <= self@.len(),
    {
        let start = self.line_to_char(line);
        let next = self.line_to_char(line + 1);
        proof {
            lemma_line_start_monotonic(self@, line as int, line + 1);
        }
        let ghost text = line_at(self@, line as int);
        if next - start >= 2 && self.chars[next - 2] == '\r' && self.chars[next - 1] == '\n' {
            next - 2
        } else if next - start >= 1 && self.chars[next - 1] == '\n' {
            next - 1
        } else {
            next
        }
    }

    /// Whether a grapheme cluster begins or ends at `pos`.
    pub fn is_grapheme_boundary(&self, pos: usize) -> (found: bool)
        ensures
            found == self.breaks@.contains(pos),
    {
        let mut k: usize = 0;
        while k < self.breaks.len()
            invariant
                k <= self.breaks@.len(),
                forall|j: int| 0 <= j < k ==> self.breaks@[j] != pos,
            decreases self.breaks.len() - k,
        {
            if self.breaks[k] == pos {
                return true;
            }
            k += 1;
        }
        false
    }

    /// The boundary after `pos`, or the end of the text.
    pub fn next_grapheme_boundary(&self, pos: usize) -> (next: usize)
        requires
            self.wf(),
        ensures
            next == next_boundary(self.breaks@, pos as int),
            next <= self@.len(),
            pos < self@.len() ==> next > pos,
            pos >= self@.len() ==> next == self@.len(),
            self.breaks@.contains(next),
    {
        let mut k: usize = 0;
        assert(self.breaks@.skip(0) =~= self.breaks@);
        while k < self.breaks.len() - 1 && self.breaks[k] <= pos
            invariant
                self.wf(),
                k < self.breaks@.len(),
                next_boundary(self.breaks@, pos as int) == next_boundary(
                    self.breaks@.skip(k as int),
                    pos as int,
                ),
                forall|j: int| 0 <= j < k ==> self.breaks@[j] <= pos,
            decreases self.breaks.len() - k,
        {
            assert(self.breaks@.skip(k as int).skip(1) =~= self.breaks@.skip(k + 1));
            k += 1;
        }
        let next = self.breaks[k];
        assert(self.breaks@.contains(next));
        next
    }

    /// The boundary before `pos`, or the beginning of the text.
    pub fn prev_grapheme_boundary(&self, pos: usize) -> (prev: usize)
        requires
            self.wf(),
        ensures
            prev == prev_boundary(self.breaks@, pos as int),
            prev <= self@.len(),
            pos > 0 ==> prev < pos,
            pos == 0 ==> prev == 0,
            self.breaks@.contains(prev),
    {
        let mut k: usize = self.breaks.len() - 1;
        assert(self.breaks@.take(k + 1) =~= self.breaks@);
        while k > 0 && self.breaks[k] >= pos
            invariant
                self.wf(),
                k < self.breaks@.len(),
                prev_boundary(self.breaks@, pos as int) == prev_boundary(
                    self.breaks@.take(k + 1),
                    pos as int,
                ),
            decreases k,
        {
            assert(self.breaks@.take(k + 1).drop_last() =~= self.breaks@.take(k as int));
            k -= 1;
        }
        let prev = self.breaks[k];
        assert(self.breaks@.contains(prev));
        prev
    }

    /// `n` boundaries after `pos`.
    pub fn nth_next_grapheme_boundary(&self, pos: usize, n: usize) -> (next: usize)
        requires
            self.wf(),
        ensures
            next == nth_next_boundary(self.breaks@, pos as int, n as nat),
            pos <= self@.len() ==> pos <= next <= self@.len(),
    {
        let mut at: usize = pos;
        let mut left: usize = n;
        while left > 0
            invariant
                self.wf(),
                nth_next_boundary(self.breaks@, pos as int, n as nat) == nth_next_boundary(
                    self.breaks@,
                    at as int,
                    left as nat,
                ),
                pos <= self@.len() ==> pos <= at <= self@.len(),
            decreases left,
        {
            at = self.next_grapheme_boundary(at);
            left -= 1;
        }
        at
    }

    /// `n` boundaries before `pos`.
    pub fn nth_prev_grapheme_boundary(&self, pos: usize, n: usize) -> (prev: usize)
        requires
            self.wf(),
        ensures
            prev == nth_prev_boundary(self.breaks@, pos as int, n as nat),
            prev <= pos,
    {
        let mut at: usize = pos;
        let mut left: usize = n;
        while left > 0
            invariant
                self.wf(),
                nth_prev_boundary(self.breaks@, pos as int, n as nat) == nth_prev_boundary(
                    self.breaks@,
                    at as int,
                    left as nat,
                ),
                at <= pos,
            decreases left,
        {
            at = self.prev_grapheme_boundary(at);
            left -= 1;
        }
        at
    }

    /// `pos` where it is a boundary, else the boundary after it.
    pub fn ensure_grapheme_boundary_next(&self, pos: usize) -> (next: usize)
        requires
            self.wf(),
        ensures
            next == boundary_at_or_after(self.breaks@, pos as int),
            pos <= self@.len() ==> pos <= next <= self@.len(),
    {
        if self.is_grapheme_boundary(pos) {
            pos
        } else {
            proof {
                if pos == self@.len() {
                    assert(self.breaks@[self.breaks@.len() - 1] == pos);
                }
            }
            self.next_grapheme_boundary(pos)
        }
    }

    /// `pos` where it is a boundary, else the boundary before it.
    pub fn ensure_grapheme_boundary_prev(&self, pos: usize) -> (prev: usize)
        requires
            self.wf(),
        ensures
            prev == boundary_at_or_before(self.breaks@, pos as int),
            prev <= pos,
    {
        if self.is_grapheme_boundary(pos) {
            pos
        } else {
            self.prev_grapheme_boundary(pos)
        }
    }

    /// The characters from `from` up to `to`.
    pub fn slice(&self, from: usize, to: usize) -> (part: Vec<char>)
        requires
            from <= to <= self@.len(),
        ensures
            part@ == self@.subrange(from as int, to as int),
    {
        let mut part: Vec<char> = Vec::new();
        let mut i: usize = from;
        while i < to
            invariant
                from <= i <= to <= self@.len(),
                part@ == self@.subrange(from as int, i as int),
            decreases to - i,
        {
            part.push(self.chars[i]);
            i += 1;
        }
        part
    }
}

/// A prefix that holds enough line feeds, or that is the whole text, tells where a line begins.
proof fn lemma_line_start_of_prefix(s: Seq<char>, i: int, line: int)
    requires
        0 <= i <= s.len(),
        newlines(s.take(i)) >= line && i == line_start(s.take(i), line) || (newlines(s.take(i))
            < line && i == s.len()),
    ensures
        i == line_start(s, line),
    decreases s.len() - i,
{
    if i < s.len() {
        lemma_newlines_prefix_le(s, i, s.len() - 1);
        assert(s.take(s.len() - 1) =~= s.drop_last());
        assert(s.drop_last().take(i) =~= s.take(i));
        lemma_line_start_of_prefix_shorter(s, i, line);
    } else {
        assert(s.take(i) =~= s);
    }
}

proof fn lemma_line_start_of_prefix_shorter(s: Seq<char>, i: int, line: int)
    requires
        0 <= i < s.len(),
        newlines(s.take(i)) >= line,
        i == line_start(s.take(i), line),
    ensures
        i == line_start(s, line),
    decreases s.len(),
{
    lemma_newlines_prefix_le(s, i, s.len() - 1);
    assert(s.take(s.len() - 1) =~= s.drop_last());
    if i < s.len() - 1 {
        assert(s.drop_last().take(i) =~= s.take(i));
        lemma_line_start_of_prefix_shorter(s.drop_last(), i, line);
    } else {
        assert(s.take(i) =~= s.drop_last());
    }
}

/// A longer prefix holds no fewer line feeds.
pub proof fn lemma_newlines_prefix_le(s: Seq<char>, i: int, j: int)
    requires
        0 <= i <= j <= s.len(),
    ensures
        newlines(s.take(i)) <= newlines(s.take(j)),
        newlines(s.take(j)) <= newlines(s.take(i)) + (j - i),
    decreases j - i,
{
    if i < j {
        assert(s.take(j).drop_last() =~= s.take(j - 1));
        lemma_newlines_prefix_le(s, i, j - 1);
    }
}

/// Line starts lie in the text, and rise with the line.
pub proof fn lemma_line_start_monotonic(s: Seq<char>, a: int, b: int)
    requires
        a <= b,
    ensures
        0 <= line_start(s, a) <= line_start(s, b) <= s.len(),
    decreases s.len(),
{
    if s.len() > 0 {
        lemma_line_start_monotonic(s.drop_last(), a, b);
    }
}

/// A line that exists begins with as many line feeds before it as its number says, right after
/// the last of them.
pub proof fn lemma_line_start_counts(s: Seq<char>, line: int)
    requires
        0 <= line <= newlines(s),
    ensures
        line_of(s, line_start(s, line)) == line,
        0 <= line_start(s, line) <= s.len(),
        line > 0 ==> line_start(s, line) > 0 && s[line_start(s, line) - 1] == '\n',
    decreases s.len(),
{
    if line == 0 {
        assert(s.take(0).len() == 0);
    } else {
        assert(s.len() > 0);
        let shorter = s.drop_last();
        if newlines(shorter) >= line {
            lemma_line_start_counts(shorter, line);
            assert(shorter.take(line_start(shorter, line)) =~= s.take(line_start(s, line)));
        } else {
            assert(s.take(s.len() as int) =~= s);
        }
    }
}

/// A position lies in its line: at or after the line's beginning, and before the next line's
/// beginning unless it is the end of the text.
pub proof fn lemma_line_of_bounds(s: Seq<char>, i: int)
    requires
        0 <= i <= s.len(),
    ensures
        line_start(s, line_of(s, i)) <= i,
        i < s.len() ==> i < line_start(s, line_of(s, i) + 1),
        i == s.len() ==> line_start(s, line_of(s, i) + 1) == i,
        line_of(s, i) <= newlines(s),
    decreases s.len(),
{
    if i == s.len() {
        assert(s.take(i) =~= s);
        lemma_line_start_monotonic(s, newlines(s) as int, newlines(s) as int + 1);
        assert(line_start(s, newlines(s) as int + 1) == s.len()) by {
            if s.len() > 0 {
                assert(newlines(s.drop_last()) <= newlines(s));
            }
        }
    } else {
        let shorter = s.drop_last();
        lemma_newlines_prefix_le(s, i, s.len() as int);
        assert(s.take(s.len() as int) =~= s);
        assert(shorter.take(i) =~= s.take(i));
        lemma_line_of_bounds(shorter, i);
        lemma_newlines_prefix_le(s, i, s.len() - 1);
        assert(s.take(s.len() - 1) =~= shorter);
        let line = line_of(s, i);
        assert(line_start(s, line) <= i) by {
            if line > 0 {
                assert(line_start(s, line) == line_start(shorter, line));
            }
        }
        if newlines(shorter) >= line + 1 {
        } else {
            assert(line_start(s, line + 1) == s.len());
        }
    }
}

/// A line begins no later than any position that has its number of line feeds before it.
pub proof fn lemma_line_start_least(s: Seq<char>, p: int, line: int)
    requires
        0 <= p <= s.len(),
        newlines(s.take(p)) >= line,
    ensures
        line_start(s, line) <= p,
    decreases s.len(),
{
    if line > 0 {
        if p == s.len() {
            assert(s.take(p) =~= s);
            lemma_line_start_monotonic(s, line, line);
        } else {
            let shorter = s.drop_last();
            assert(shorter.take(p) =~= s.take(p));
            lemma_newlines_prefix_le(s, p, s.len() - 1);
            assert(s.take(s.len() - 1) =~= shorter);
            lemma_line_start_least(shorter, p, line);
        }
    }
}

/// A line feed ends its line: none stands in a line before its last character.
pub proof fn lemma_line_has_no_inner_feed(s: Seq<char>, line: int, i: int)
    requires
        0 <= line <= newlines(s),
        line_start(s, line) <= i < line_start(s, line + 1) - 1,
    ensures
        s[i] != '\n',
{
    lemma_line_start_monotonic(s, line, line + 1);
    lemma_line_start_counts(s, line);
    if s[i] == '\n' {
        lemma_newlines_prefix_le(s, line_start(s, line), i);
        assert(s.take(i + 1).drop_last() =~= s.take(i));
        lemma_line_start_least(s, i + 1, line + 1);
    }
}

/// Line feeds of two texts add up.
pub proof fn lemma_newlines_add(a: Seq<char>, b: Seq<char>)
    ensures
        newlines(a + b) == newlines(a) + newlines(b),
    decreases b.len(),
{
    if b.len() == 0 {
        assert(a + b =~= a);
    } else {
        assert((a + b).drop_last() =~= a + b.drop_last());
        lemma_newlines_add(a, b.drop_last());
    }
}

/// A text without line feeds has none.
pub proof fn lemma_no_newlines(s: Seq<char>)
    requires
        forall|i: int| 0 <= i < s.len() ==> s[i] != '\n',
    ensures
        newlines(s) == 0,
    decreases s.len(),
{
    if s.len() > 0 {
        lemma_no_newlines(s.drop_last());
    }
}

/// A line ends within it.
pub proof fn lemma_line_end_bounds(s: Seq<char>, line: int)
    ensures
        0 <= line_start(s, line) <= line_end(s, line) <= line_start(s, line + 1) <= s.len(),
{
    lemma_line_start_monotonic(s, line, line + 1);
}

/// Line ends rise with the line.
pub proof fn lemma_line_end_monotonic(s: Seq<char>, a: int, b: int)
    requires
        a <= b,
    ensures
        line_end(s, a) <= line_end(s, b),
{
    if a < b {
        lemma_line_end_bounds(s, a);
        lemma_line_end_bounds(s, b);
        lemma_line_start_monotonic(s, a + 1, b);
    }
}

/// What a step back reaches: a boundary, below `i` unless there is none.
pub proof fn lemma_prev_boundary(text: Text, i: int)
    requires
        text.wf(),
    ensures
        0 <= prev_boundary(text.breaks@, i) <= text@.len(),
        i > 0 ==> prev_boundary(text.breaks@, i) < i,
        i <= 0 ==> prev_boundary(text.breaks@, i) == 0,
        text.breaks@.contains(prev_boundary(text.breaks@, i) as usize),
{
    lemma_prev_boundary_of(text.breaks@, i);
}

/// No boundary lies between `i` and the one a step back from it reaches.
pub proof fn lemma_prev_boundary_above(text: Text, b: usize, i: int)
    requires
        text.wf(),
        text.breaks@.contains(b),
        b < i,
    ensures
        b <= prev_boundary(text.breaks@, i),
{
    lemma_prev_boundary_of(text.breaks@, i);
}

proof fn lemma_prev_boundary_of(b: Seq<usize>, i: int)
    requires
        b.len() > 0,
        b[0] == 0,
        forall|x: int, y: int| 0 <= x < y < b.len() ==> b[x] < b[y],
    ensures
        0 <= prev_boundary(b, i) <= b.last(),
        i > 0 ==> prev_boundary(b, i) < i,
        i <= 0 ==> prev_boundary(b, i) == 0,
        b.contains(prev_boundary(b, i) as usize),
        forall|x: usize| #[trigger] b.contains(x) && x < i ==> x <= prev_boundary(b, i),
    decreases b.len(),
{
    if b.last() < i || b.len() == 1 {
        assert(b[b.len() - 1] == b.last());
        assert forall|x: usize| #[trigger] b.contains(x) implies x <= b.last() by {
            let k = choose|k: int| 0 <= k < b.len() && b[k] == x;
        }
    } else {
        let shorter = b.drop_last();
        lemma_prev_boundary_of(shorter, i);
        let p = prev_boundary(b, i) as usize;
        let k = choose|k: int| 0 <= k < shorter.len() && shorter[k] == p;
        assert(b[k] == p);
        assert(b[b.len() - 2] < b[b.len() - 1]);
        assert forall|x: usize| #[trigger] b.contains(x) && x < i implies x <= prev_boundary(b, i) by {
            let k = choose|k: int| 0 <= k < b.len() && b[k] == x;
            assert(k < shorter.len());
            assert(shorter[k] == x);
            assert(shorter.contains(x));
        }
    }
}

proof fn lemma_next_boundary_of(b: Seq<usize>, i: int)
    requires
        b.len() > 0,
        forall|x: int, y: int| 0 <= x < y < b.len() ==> b[x] < b[y],
    ensures
        b[0] <= next_boundary(b, i) <= b.last(),
        i < b.last() ==> next_boundary(b, i) > i,
        i >= b.last() ==> next_boundary(b, i) == b.last(),
        b.contains(next_boundary(b, i) as usize),
        forall|x: usize| #[trigger] b.contains(x) && x > i ==> x >= next_boundary(b, i),
    decreases b.len(),
{
    if b[0] > i || b.len() == 1 {
        assert forall|x: usize| #[trigger] b.contains(x) implies x >= b[0] by {
            let k = choose|k: int| 0 <= k < b.len() && b[k] == x;
        }
        if b.len() > 1 {
            assert(b[0] < b[b.len() - 1]);
        }
    } else {
        let rest = b.skip(1);
        lemma_next_boundary_of(rest, i);
        let p = next_boundary(b, i) as usize;
        let k = choose|k: int| 0 <= k < rest.len() && rest[k] == p;
        assert(b[k + 1] == p);
        assert forall|x: usize| #[trigger] b.contains(x) && x > i implies x >= next_boundary(b, i) by {
            let k = choose|k: int| 0 <= k < b.len() && b[k] == x;
            assert(k > 0);
            assert(rest[k - 1] == x);
            assert(rest.contains(x));
        }
    }
}

/// A step forward or backward reaches the nearest boundary on that side: none lies between.
pub proof fn steps_reach_the_nearest_boundary(text: Text, i: int, b: usize)
    requires
        text.wf(),
        text.breaks@.contains(b),
    ensures
        text.breaks@.contains(next_boundary(text.breaks@, i) as usize),
        0 <= next_boundary(text.breaks@, i) <= text@.len(),
        i < text@.len() ==> i < next_boundary(text.breaks@, i),
        i < b ==> next_boundary(text.breaks@, i) <= b,
        i >= text@.len() ==> next_boundary(text.breaks@, i) == text@.len(),
        text.breaks@.contains(prev_boundary(text.breaks@, i) as usize),
        0 <= prev_boundary(text.breaks@, i) <= text@.len(),
        0 < i ==> prev_boundary(text.breaks@, i) < i,
        b < i ==> b <= prev_boundary(text.breaks@, i),
        i <= 0 ==> prev_boundary(text.breaks@, i) == 0,
        b <= text@.len(),
{
    lemma_prev_boundary_of(text.breaks@, i);
    lemma_next_boundary_of(text.breaks@, i);
    let k = choose|k: int| 0 <= k < text.breaks@.len() && text.breaks@[k] == b;
    assert(text.breaks@[k] <= text.breaks@[text.breaks@.len() - 1]);
}

/// Stepping forward and then back from a boundary inside the text returns to it.
pub proof fn stepping_forth_and_back(text: Text, b: usize)
    requires
        text.wf(),
        text.breaks@.contains(b),
        b < text@.len(),
    ensures
        prev_boundary(text.breaks@, next_boundary(text.breaks@, b as int)) == b,
        b < next_boundary(text.breaks@, b as int) <= text@.len(),
{
    steps_reach_the_nearest_boundary(text, b as int, b);
    let n = next_boundary(text.breaks@, b as int);
    steps_reach_the_nearest_boundary(text, n, b);
    let p = prev_boundary(text.breaks@, n);
    if p > b {
        steps_reach_the_nearest_boundary(text, b as int, p as usize);
    }
}

/// Steps go from boundary to boundary: `n` steps pass `n` clusters, as far as there are any.
pub proof fn steps_pass_clusters(text: Text, k: int, n: nat)
    requires
        text.wf(),
        0 <= k < text.breaks@.len(),
    ensures
        ({
            let b = text.breaks@;
            let last = b.len() - 1;
            &&& nth_next_boundary(b, b[k] as int, n) == (if k + n <= last {
                b[k + n] as int
            } else {
                b[last] as int
            })
            &&& nth_prev_boundary(b, b[k] as int, n) == (if k >= n {
                b[k - n] as int
            } else {
                0
            })
        }),
    decreases n,
{
    let b = text.breaks@;
    let last = b.len() - 1;
    if n > 0 {
        steps_reach_the_nearest_boundary(text, b[k] as int, b[k]);
        assert(b.contains(b[k]));
        let next = next_boundary(b, b[k] as int);
        let prev = prev_boundary(b, b[k] as int);
        if k < last {
            assert(b.contains(b[k + 1]));
            steps_reach_the_nearest_boundary(text, b[k] as int, b[k + 1]);
            let j = choose|j: int| 0 <= j < b.len() && b[j] == next as usize;
            assert(b[k] < b[j] <= b[k + 1]);
            assert(j == k + 1) by {
                if j <= k {
                    assert(b[j] <= b[k]);
                } else if j > k + 1 {
                    assert(b[k + 1] < b[j]);
                }
            }
            steps_pass_clusters(text, k + 1, (n - 1) as nat);
        } else {
            assert(next == b[last]);
            steps_pass_clusters(text, last, (n - 1) as nat);
        }
        if k > 0 {
            assert(b.contains(b[k - 1]));
            assert(b[k - 1] < b[k]);
            steps_reach_the_nearest_boundary(text, b[k] as int, b[k - 1]);
            let j = choose|j: int| 0 <= j < b.len() && b[j] == prev as usize;
            assert(j == k - 1) by {
                if j >= k {
                    assert(b[k] <= b[j]);
                } else if j < k - 1 {
                    assert(b[j] < b[k - 1]);
                }
            }
            steps_pass_clusters(text, k - 1, (n - 1) as nat);
        } else {
            assert(b[0] == 0);
            steps_pass_clusters(text, 0, (n - 1) as nat);
        }
    }
}

/// The line feeds of two texts add up, and a single character is one or none.
pub proof fn line_feeds_are_counted(a: Seq<char>, b: Seq<char>, c: char)
    ensures
        newlines(a + b) == newlines(a) + newlines(b),
        newlines(seq![c]) == (if c == '\n' {
            1nat
        } else {
            0nat
        }),
{
    lemma_newlines_add(a, b);
    assert(seq![c].drop_last() =~= Seq::<char>::empty());
    reveal_with_fuel(newlines, 2);
}

/// A line lies between two line feeds: it begins behind one, or with the text, holds none but the
/// one it ends with, and its ending is that line feed, with the carriage return before it. Only
/// the last line has none.
pub proof fn lines_lie_between_line_feeds(s: Seq<char>, line: int)
    requires
        0 <= line <= newlines(s),
    ensures
        ({
            let (a, e, b) = (line_start(s, line), line_end(s, line), line_start(s, line + 1));
            &&& 0 <= a <= e <= b <= s.len()
            &&& newlines(s.take(a)) == line
            &&& a == 0 <==> line == 0
            &&& a > 0 ==> s[a - 1] == '\n'
            &&& forall|i: int| a <= i < e ==> s[i] != '\n'
            &&& line == newlines(s) ==> e == b && b == s.len()
            &&& line < newlines(s) ==> {
                &&& a < b
                &&& s[b - 1] == '\n'
                &&& (b - 2 >= a && s[b - 2] == '\r' ==> e == b - 2)
                &&& (!(b - 2 >= a && s[b - 2] == '\r') ==> e == b - 1)
            }
        }),
{
    let (a, e, b) = (line_start(s, line), line_end(s, line), line_start(s, line + 1));
    lemma_line_end_bounds(s, line);
    lemma_line_start_counts(s, line);
    let part = line_at(s, line);
    if line < newlines(s) {
        lemma_line_start_counts(s, line + 1);
        if b <= a {
            assert(line_of(s, a) == line_of(s, b));
        }
        assert(part[part.len() - 1] == s[b - 1]);
        if b - 2 >= a {
            assert(part[part.len() - 2] == s[b - 2]);
        }
    } else {
        assert(b == s.len()) by {
            if s.len() > 0 {
                assert(newlines(s.drop_last()) <= newlines(s));
            }
        }
        if part.len() > 0 && part[part.len() - 1] == '\n' {
            assert(s[b - 1] == '\n');
            lemma_newlines_prefix_le(s, a, b - 1);
            assert(s.take(b).drop_last() =~= s.take(b - 1));
            assert(s.take(b) =~= s);
            assert(false);
        }
    }
    assert forall|i: int| a <= i < e implies s[i] != '\n' by {
        if i < b - 1 {
            lemma_line_has_no_inner_feed(s, line, i);
        } else {
            assert(part[part.len() - 1] == s[b - 1]);
        }
    }
}

/// The line of a position has as many line feeds before it as its number says, and holds the
/// position.
pub proof fn positions_lie_in_their_line(s: Seq<char>, i: int)
    requires
        0 <= i <= s.len(),
    ensures
        0 <= line_of(s, i) == newlines(s.take(i)) <= newlines(s),
        0 <= line_start(s, line_of(s, i)) <= i <= line_start(s, line_of(s, i) + 1) <= s.len(),
        forall|k: int| line_start(s, line_of(s, i)) <= k < i ==> s[k] != '\n',
        i < s.len() ==> i < line_start(s, line_of(s, i) + 1),
{
    lemma_line_of_bounds(s, i);
    let line = line_of(s, i);
    lines_lie_between_line_feeds(s, line);
    assert forall|k: int| line_start(s, line) <= k < i implies s[k] != '\n' by {
        if s[k] == '\n' {
            lemma_newlines_prefix_le(s, line_start(s, line), k);
            assert(s.take(k + 1).drop_last() =~= s.take(k));
            lemma_newlines_prefix_le(s, k + 1, i);
        }
    }
}

/// Stepping back and then forward from a boundary inside the text returns to it.
pub proof fn stepping_back_and_forth(text: Text, b: usize)
    requires
        text.wf(),
        text.breaks@.contains(b),
        b > 0,
    ensures
        next_boundary(text.breaks@, prev_boundary(text.breaks@, b as int)) == b,
{
    lemma_prev_boundary_of(text.breaks@, b as int);
    let p = prev_boundary(text.breaks@, b as int);
    lemma_next_boundary_of(text.breaks@, p);
    let n = next_boundary(text.breaks@, p) as usize;
    let k = choose|k: int| 0 <= k < text.breaks@.len() && text.breaks@[k] == b;
    assert(b <= text.breaks@[text.breaks@.len() - 1]);
    if n < b {
        assert(n <= p);
    }
}

/// The ending of a line.
#[derive(Clone, Copy, Debug, PartialEq, Eq, Structural)]
pub enum LineEnding {
    Crlf,
    LF,
}

impl LineEnding {
    /// The characters of the ending.
    pub open spec fn chars(self) -> Seq<char> {
        match self {
            LineEnding::Crlf => seq!['\r', '\n'],
            LineEnding::LF => seq!['\n'],
        }
    }

    /// The characters of the ending.
    pub fn as_chars(&self) -> (chars: Vec<char>)
        ensures
            chars@ == self.chars(),
    {
        let mut chars: Vec<char> = Vec::new();
        match self {
            LineEnding::Crlf => {
                chars.push('\r');
                chars.push('\n');
            },
            LineEnding::LF => {
                chars.push('\n');
            },
        }
        assert(chars@ =~= self.chars());
        chars
    }

    /// The number of characters of the ending.
    pub fn len_chars(&self) -> (n: usize)
        ensures
            n == self.chars().len(),
    {
        match self {
            LineEnding::Crlf => 2,
            LineEnding::LF => 1,
        }
    }
}

} // verus!
