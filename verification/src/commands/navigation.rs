//! Going to places: buffers, lines, columns, labelled words.

use crate::chars::{char_is_word, is_whitespace, whitespace, word_char};
use crate::commands::search::PromptEvent;
use crate::range::{min, range, Direction, Movement, Range};
use crate::selection::Selection;
use crate::strings::{parse_usize, unsigned};
use crate::text::{
    line_at, line_count, line_end, line_of, line_start, newlines, next_boundary, nth_next_boundary,
    prev_boundary, Text,
};
use vstd::prelude::*;

verus! {

/// The place of an id.
pub open spec fn place_of(ids: Seq<u64>, id: u64) -> int
    decreases ids.len(),
{
    if ids.len() == 0 || ids[0] == id {
        0
    } else {
        1 + place_of(ids.skip(1), id)
    }
}

/// The place that is `count` steps from place `k` in a circle of `n`.
pub open spec fn around(k: int, direction: Direction, count: int, n: int) -> int {
    match direction {
        Direction::Forward => (k + count) % n,
        Direction::Backward => (k - count) % n,
    }
}

/// The buffer `count` places from the current one, going round from the last to the first.
pub fn goto_buffer(ids: &Vec<u64>, current: u64, direction: Direction, count: usize) -> (id: u64)
    requires
        ids@.contains(current),
    ensures
        id == ids@[around(place_of(ids@, current), direction, count as int, ids@.len() as int)],
        0 <= place_of(ids@, current) < ids@.len(),
{
    let n: usize = ids.len();
    let mut k: usize = 0;
    assert(ids@.skip(0) =~= ids@);
    while ids[k] != current
        invariant
            k < ids@.len(),
            n == ids@.len(),
            exists|j: int| k <= j < ids@.len() && ids@[j] == current,
            place_of(ids@, current) == k + place_of(ids@.skip(k as int), current),
        decreases ids@.len() - k,
    {
        proof {
            let j = choose|j: int| k <= j < ids@.len() && ids@[j] == current;
            assert(j > k);
            assert(ids@.skip(k as int).skip(1) =~= ids@.skip(k + 1));
        }
        k += 1;
    }
    let at = step_around(k, direction, count, n);
    ids[at]
}

/// The place that is `count` steps from place `k` in a circle of `n`.
pub fn step_around(k: usize, direction: Direction, count: usize, n: usize) -> (at: usize)
    requires
        k < n,
    ensures
        at == around(k as int, direction, count as int, n as int),
        at < n,
{
    proof {
        lemma_around(k as int, direction, count as int, n as int);
    }
    let steps: usize = count % n;
    match direction {
        Direction::Forward => if steps < n - k {
            k + steps
        } else {
            steps - (n - k)
        },
        Direction::Backward => if steps <= k {
            k - steps
        } else {
            n - (steps - k)
        },
    }
}

proof fn lemma_around(k: int, direction: Direction, count: int, n: int)
    requires
        0 <= k < n,
        0 <= count,
    ensures
        ({
            let steps = count % n;
            around(k, direction, count, n) == match direction {
                Direction::Forward => if steps < n - k {
                    k + steps
                } else {
                    steps - (n - k)
                },
                Direction::Backward => if steps <= k {
                    k - steps
                } else {
                    n - (steps - k)
                },
            }
        }),
{
    let steps = count % n;
    let q = count / n;
    assert(count == n * q + steps) by {
        vstd::arithmetic::div_mod::lemma_fundamental_div_mod(count, n);
    }
    match direction {
        Direction::Forward => {
            if steps < n - k {
                vstd::arithmetic::div_mod::lemma_fundamental_div_mod_converse(
                    k + count,
                    n,
                    q,
                    k + steps,
                );
            } else {
                assert(k + count == n * (q + 1) + (steps - (n - k))) by (nonlinear_arith)
                    requires
                        count == n * q + steps,
                ;
                vstd::arithmetic::div_mod::lemma_fundamental_div_mod_converse(
                    k + count,
                    n,
                    q + 1,
                    steps - (n - k),
                );
            }
        },
        Direction::Backward => {
            if steps <= k {
                assert(k - count == n * (-q) + (k - steps)) by (nonlinear_arith)
                    requires
                        count == n * q + steps,
                ;
                vstd::arithmetic::div_mod::lemma_fundamental_div_mod_converse(
                    k - count,
                    n,
                    -q,
                    k - steps,
                );
            } else {
                assert(k - count == n * (-q - 1) + (n - (steps - k))) by (nonlinear_arith)
                    requires
                        count == n * q + steps,
                ;
                vstd::arithmetic::div_mod::lemma_fundamental_div_mod_converse(
                    k - count,
                    n,
                    -q - 1,
                    n - (steps - k),
                );
            }
        },
    }
}

/// Going so many buffers on and as many back ends where it began.
pub proof fn buffers_go_round(k: int, count: int, n: int)
    requires
        0 <= k < n,
        0 <= count,
    ensures
        around(around(k, Direction::Forward, count, n), Direction::Backward, count, n) == k,
        around(around(k, Direction::Backward, count, n), Direction::Forward, count, n) == k,
        0 <= around(k, Direction::Forward, count, n) < n,
        0 <= around(k, Direction::Backward, count, n) < n,
{
    lemma_around(k, Direction::Forward, count, n);
    lemma_around(k, Direction::Backward, count, n);
    assert(0 <= count % n < n) by {
        vstd::arithmetic::div_mod::lemma_mod_bound(count, n);
    }
    lemma_around(around(k, Direction::Forward, count, n), Direction::Backward, count, n);
    lemma_around(around(k, Direction::Backward, count, n), Direction::Forward, count, n);
}

/// One step on leads to the next place, and from the last one to the first; one step back leads to
/// the place before, and from the first one to the last. No step stays.
pub proof fn steps_lead_to_neighbours(k: int, n: int)
    requires
        0 <= k < n,
    ensures
        around(k, Direction::Forward, 1, n) == (if k + 1 < n {
            k + 1
        } else {
            0
        }),
        around(k, Direction::Backward, 1, n) == (if k > 0 {
            k - 1
        } else {
            n - 1
        }),
        around(k, Direction::Forward, 0, n) == k,
        around(k, Direction::Backward, 0, n) == k,
{
    assert((k + 1) % n == if k + 1 < n {
        k + 1
    } else {
        0
    }) by (nonlinear_arith)
        requires
            0 <= k < n,
    ;
    assert((k - 1) % n == if k > 0 {
        k - 1
    } else {
        n - 1
    }) by (nonlinear_arith)
        requires
            0 <= k < n,
    ;
    assert(k % n == k) by (nonlinear_arith)
        requires
            0 <= k < n,
    ;
}

/// The place of an id is the first at which it stands.
pub proof fn places_hold_their_id(ids: Seq<u64>, id: u64)
    requires
        ids.contains(id),
    ensures
        0 <= place_of(ids, id) < ids.len(),
        ids[place_of(ids, id)] == id,
        forall|k: int| 0 <= k < place_of(ids, id) ==> ids[k] != id,
    decreases ids.len(),
{
    if ids[0] != id {
        let rest = ids.skip(1);
        let k = choose|k: int| 0 <= k < ids.len() && ids[k] == id;
        assert(rest[k - 1] == id);
        places_hold_their_id(rest, id);
        assert forall|k: int| 0 <= k < place_of(ids, id) implies ids[k] != id by {
            if k > 0 {
                assert(rest[k - 1] == ids[k]);
            }
        }
    }
}

/// The last line that one goes to holds something, unless the text is empty: it is the line of the
/// text's last character.
pub proof fn the_last_line_holds_the_last_character(s: Seq<char>)
    ensures
        s.len() == 0 ==> last_line(s) == 0,
        s.len() > 0 ==> last_line(s) == line_of(s, s.len() - 1),
{
    let last = newlines(s) as int;
    crate::text::lines_lie_between_line_feeds(s, last);
    if s.len() > 0 {
        assert(s.drop_last() =~= s.take(s.len() - 1));
        if line_start(s, last) == s.len() {
            assert(s[s.len() - 1] == '\n');
        } else {
            if s.last() == '\n' {
                assert(s[s.len() - 1] != '\n');
            }
        }
        if last == 0 {
            assert(line_start(s, last) == 0);
        }
    }
}

/// Column `count` of a line lies behind `count - 1` clusters of it, but not beyond its end.
pub proof fn columns_are_counted_in_clusters(text: Text, r: Range, count: int, k: int)
    requires
        text.wf(),
        r.within(text@.len() as int),
        count >= 1,
        0 <= k < text.breaks@.len(),
        text.breaks@[k] == line_start(text@, line_of(text@, r.cursor_in(text))),
    ensures
        ({
            let line = line_of(text@, r.cursor_in(text));
            let (start, end) = (line_start(text@, line), line_end(text@, line));
            let pos = column_position(text, r, count);
            &&& start <= pos <= end
            &&& count == 1 ==> pos == start
            &&& k + count - 1 < text.breaks@.len() && text.breaks@[k + count - 1] <= end ==> pos
                == text.breaks@[k + count - 1]
            &&& k + count - 1 < text.breaks@.len() && text.breaks@[k + count - 1] > end ==> pos == end
        }),
{
    let line = line_of(text@, r.cursor_in(text));
    crate::text::lemma_line_end_bounds(text@, line);
    crate::text::steps_pass_clusters(text, k, (count - 1) as nat);
    let b = text.breaks@;
    if k + (count - 1) < b.len() && count > 1 {
        assert(b[k] < b[k + (count - 1)]);
    } else if count > 1 && k < b.len() - 1 {
        assert(b[k] < b[b.len() - 1]);
    }
}

/// The texts of a jump's ranges stand one after the other, with a space between each two.
pub proof fn jump_texts_are_parted_by_spaces(text: Seq<char>, ranges: Seq<Range>, r: Range)
    requires
        ranges.len() > 0,
    ensures
        fragments(text, seq![r]) == text.subrange(r.lo(), r.hi()),
        fragments(text, ranges.push(r)) == fragments(text, ranges) + seq![' '] + text.subrange(
            r.lo(),
            r.hi(),
        ),
{
    assert(ranges.push(r).drop_last() =~= ranges);
    assert(fragments(text, ranges).push(' ') =~= fragments(text, ranges) + seq![' ']);
}

/// A letter is found at its first place in the alphabet, and not at all where it is not in it.
pub proof fn letters_are_found_at_their_place(alphabet: Seq<char>, c: char)
    ensures
        match letter_place(alphabet, c) {
            Some(k) => 0 <= k < alphabet.len() && alphabet[k] == c && forall|j: int|
                0 <= j < k ==> alphabet[j] != c,
            None => !alphabet.contains(c),
        },
    decreases alphabet.len(),
{
    if alphabet.len() > 0 && alphabet[0] != c {
        let rest = alphabet.skip(1);
        letters_are_found_at_their_place(rest, c);
        if letter_place(alphabet, c) is Some {
            let k = letter_place(alphabet, c)->0;
            assert forall|j: int| 0 <= j < k implies alphabet[j] != c by {
                if j > 0 {
                    assert(rest[j - 1] == alphabet[j]);
                }
            }
        } else if alphabet.contains(c) {
            let k = choose|k: int| 0 <= k < alphabet.len() && alphabet[k] == c;
            assert(rest[k - 1] == c);
        }
    }
}

/// A jump that extends covers the primary range and ends at the word's head.
pub proof fn jumps_extend_over_both(label: Range, primary: Range)
    requires
        label.anchor < label.head ==> primary.hi() <= label.head || label.head <= primary.lo(),
    ensures
        ({
            let new = jump_range(label, primary, Movement::Extend);
            &&& new.head == label.head
            &&& label.anchor < label.head && primary.lo() <= label.head ==> new.lo() <= primary.lo()
                && new.lo() <= label.lo()
            &&& label.anchor >= label.head && primary.hi() >= label.head ==> new.hi() >= primary.hi()
                && new.hi() >= label.hi()
        }),
{
}

/// The characters that no word holds are counted up to the first one that a word holds, from either
/// end.
pub proof fn nonword_characters_are_counted(s: Seq<char>)
    ensures
        0 <= leading_nonword(s) <= s.len(),
        forall|k: int| 0 <= k < leading_nonword(s) ==> !word_char(#[trigger] s[k]),
        leading_nonword(s) < s.len() ==> word_char(s[leading_nonword(s)]),
        0 <= trailing_nonword(s) <= s.len(),
        forall|k: int| s.len() - trailing_nonword(s) <= k < s.len() ==> !word_char(#[trigger] s[k]),
        trailing_nonword(s) < s.len() ==> word_char(s[s.len() - trailing_nonword(s) - 1]),
    decreases s.len(),
{
    if s.len() > 0 {
        if !word_char(s[0]) {
            let rest = s.skip(1);
            nonword_characters_are_counted(rest);
            assert forall|k: int| 0 <= k < leading_nonword(s) implies !word_char(#[trigger] s[k]) by {
                if k > 0 {
                    assert(rest[k - 1] == s[k]);
                }
            }
        }
        if !word_char(s.last()) {
            let front = s.drop_last();
            nonword_characters_are_counted(front);
            assert forall|k: int| s.len() - trailing_nonword(s) <= k < s.len() implies !word_char(
                #[trigger] s[k],
            ) by {
                if k < s.len() - 1 {
                    assert(front[k] == s[k]);
                }
            }
        }
    }
}

/// Puts every cursor where the last edit was made, if there was one.
pub fn goto_last_modification(text: &Text, selection: &Selection, edited: Option<usize>, extend: bool) -> (
moved: Option<Selection>)
    requires
        text.wf(),
        selection.wf(),
    ensures
        moved is Some <==> edited is Some,
        moved matches Some(s) ==> s.wf() && s.holds(
            selection.ranges@.map_values(
                |r: Range| r.with_cursor(*text, edited->0 as int, extend),
            ),
            selection.primary_index as int,
        ),
{
    match edited {
        Some(pos) => Some(put_cursors(text, selection, pos, extend)),
        None => None,
    }
}

/// Puts every cursor at one position.
pub fn put_cursors(text: &Text, selection: &Selection, pos: usize, extend: bool) -> (moved: Selection)
    requires
        text.wf(),
        selection.wf(),
    ensures
        moved.wf(),
        moved.holds(
            selection.ranges@.map_values(|r: Range| r.with_cursor(*text, pos as int, extend)),
            selection.primary_index as int,
        ),
{
    let mut ranges: Vec<Range> = Vec::new();
    let mut i: usize = 0;
    while i < selection.ranges.len()
        invariant
            i <= selection.ranges@.len(),
            text.wf(),
            ranges@.len() == i,
            forall|j: int|
                0 <= j < i ==> ranges@[j] == selection.ranges@[j].with_cursor(
                    *text,
                    pos as int,
                    extend,
                ),
        decreases selection.ranges.len() - i,
    {
        ranges.push(selection.ranges[i].put_cursor(text, pos, extend));
        i += 1;
    }
    assert(ranges@ =~= selection.ranges@.map_values(
        |r: Range| r.with_cursor(*text, pos as int, extend),
    ));
    Selection::new(ranges, selection.primary_index)
}

/// The last line that one goes to: an empty line at the end of the text is passed over.
pub open spec fn last_line(s: Seq<char>) -> int {
    let last = line_count(s) - 1;
    if line_at(s, last).len() == 0 && last > 0 {
        last - 1
    } else {
        last
    }
}

/// Where the line of a number begins; numbers beyond the last line lead to it.
pub open spec fn numbered_line_start(s: Seq<char>, number: int) -> int {
    line_start(s, min(number - 1, last_line(s)))
}

/// The last line that one goes to.
pub fn last_line_index(text: &Text) -> (line: usize)
    requires
        text@.len() < usize::MAX,
    ensures
        line == last_line(text@),
{
    let last = text.len_lines() - 1;
    let start = text.line_to_char(last);
    let end = text.line_to_char(last + 1);
    proof {
        crate::text::lemma_line_start_monotonic(text@, last as int, last + 1);
    }
    if start == end && last > 0 {
        last - 1
    } else {
        last
    }
}

/// Goes to line `count`, counted from 1, or to the last line if there are fewer.
pub fn goto_line_without_jumplist(
    text: &Text,
    selection: &Selection,
    count: Option<usize>,
    movement: Movement,
) -> (moved: Option<Selection>)
    requires
        text.wf(),
        text@.len() < usize::MAX,
        selection.wf(),
        count != Some(0usize),
    ensures
        moved is Some <==> count is Some,
        moved matches Some(s) ==> s.wf() && s.holds(
            selection.ranges@.map_values(
                |r: Range|
                    r.with_cursor(
                        *text,
                        numbered_line_start(text@, count->0 as int),
                        movement == Movement::Extend,
                    ),
            ),
            selection.primary_index as int,
        ),
{
    match count {
        Some(count) => {
            let last = last_line_index(text);
            let line = if count - 1 <= last {
                count - 1
            } else {
                last
            };
            let pos = text.line_to_char(line);
            let moved = put_cursors(text, selection, pos, movement == Movement::Extend);
            assert(selection.ranges@.map_values(
                |r: Range| r.with_cursor(*text, pos as int, movement == Movement::Extend),
            ) =~= selection.ranges@.map_values(
                |r: Range|
                    r.with_cursor(
                        *text,
                        numbered_line_start(text@, count as int),
                        movement == Movement::Extend,
                    ),
            ));
            Some(moved)
        },
        None => None,
    }
}

/// Goes to the last line.
pub fn goto_last_line_impl(text: &Text, selection: &Selection, movement: Movement) -> (moved:
    Selection)
    requires
        text.wf(),
        text@.len() < usize::MAX,
        selection.wf(),
    ensures
        moved.wf(),
        moved.holds(
            selection.ranges@.map_values(
                |r: Range|
                    r.with_cursor(
                        *text,
                        line_start(text@, last_line(text@)),
                        movement == Movement::Extend,
                    ),
            ),
            selection.primary_index as int,
        ),
{
    let pos = text.line_to_char(last_line_index(text));
    put_cursors(text, selection, pos, movement == Movement::Extend)
}

/// Goes to line `count`, or without one to the beginning of the text.
pub fn goto_file_start_impl(
    text: &Text,
    selection: &Selection,
    count: Option<usize>,
    movement: Movement,
) -> (moved: Selection)
    requires
        text.wf(),
        text@.len() < usize::MAX,
        selection.wf(),
        count != Some(0usize),
    ensures
        moved.wf(),
        moved.holds(
            selection.ranges@.map_values(
                |r: Range|
                    r.with_cursor(
                        *text,
                        match count {
                            Some(count) => numbered_line_start(text@, count as int),
                            None => 0,
                        },
                        movement == Movement::Extend,
                    ),
            ),
            selection.primary_index as int,
        ),
{
    let pos = match count {
        Some(count) => {
            let last = last_line_index(text);
            text.line_to_char(
                if count - 1 <= last {
                    count - 1
                } else {
                    last
                },
            )
        },
        None => 0,
    };
    let moved = put_cursors(text, selection, pos, movement == Movement::Extend);
    assert(selection.ranges@.map_values(
        |r: Range| r.with_cursor(*text, pos as int, movement == Movement::Extend),
    ) =~= selection.ranges@.map_values(
        |r: Range|
            r.with_cursor(
                *text,
                match count {
                    Some(count) => numbered_line_start(text@, count as int),
                    None => 0,
                },
                movement == Movement::Extend,
            ),
    ));
    moved
}

/// Goes to the end of the text.
pub fn goto_file_end_impl(text: &Text, selection: &Selection, movement: Movement) -> (moved:
    Selection)
    requires
        text.wf(),
        selection.wf(),
    ensures
        moved.wf(),
        moved.holds(
            selection.ranges@.map_values(
                |r: Range| r.with_cursor(*text, text@.len() as int, movement == Movement::Extend),
            ),
            selection.primary_index as int,
        ),
{
    put_cursors(text, selection, text.len_chars(), movement == Movement::Extend)
}

/// Where column `count`, counted from 1, of the cursor's line is; the end of the line if it has
/// fewer.
pub open spec fn column_position(text: Text, r: Range, count: int) -> int {
    let line = line_of(text@, r.cursor_in(text));
    min(
        nth_next_boundary(text.breaks@, line_start(text@, line), (count - 1) as nat),
        line_end(text@, line),
    )
}

/// Goes to a column of each cursor's line.
pub fn goto_column_impl(text: &Text, selection: &Selection, count: usize, movement: Movement) -> (
moved: Selection)
    requires
        text.wf(),
        text@.len() < usize::MAX,
        selection.wf(),
        selection.within(text@.len() as int),
        count >= 1,
    ensures
        moved.wf(),
        moved.holds(
            selection.ranges@.map_values(
                |r: Range|
                    r.with_cursor(
                        *text,
                        column_position(*text, r, count as int),
                        movement == Movement::Extend,
                    ),
            ),
            selection.primary_index as int,
        ),
{
    let mut ranges: Vec<Range> = Vec::new();
    let mut i: usize = 0;
    while i < selection.ranges.len()
        invariant
            i <= selection.ranges@.len(),
            text.wf(),
            text@.len() < usize::MAX,
            selection.within(text@.len() as int),
            count >= 1,
            ranges@.len() == i,
            forall|j: int|
                0 <= j < i ==> ranges@[j] == selection.ranges@[j].with_cursor(
                    *text,
                    column_position(*text, selection.ranges@[j], count as int),
                    movement == Movement::Extend,
                ),
        decreases selection.ranges.len() - i,
    {
        let r = selection.ranges[i];
        assert(selection.ranges@[i as int].within(text@.len() as int));
        let line = text.char_to_line(r.cursor(text));
        let start = text.line_to_char(line);
        let end = text.line_end_char_index(line);
        let at = text.nth_next_grapheme_boundary(start, count - 1);
        let pos = if at <= end {
            at
        } else {
            end
        };
        ranges.push(r.put_cursor(text, pos, movement == Movement::Extend));
        i += 1;
    }
    assert(ranges@ =~= selection.ranges@.map_values(
        |r: Range|
            r.with_cursor(
                *text,
                column_position(*text, r, count as int),
                movement == Movement::Extend,
            ),
    ));
    Selection::new(ranges, selection.primary_index)
}

/// The first of the buffers modified last that is not the current one.
pub fn goto_last_modified_file(last: (Option<u64>, Option<u64>), current: u64) -> (id: Result<
    u64,
    &'static str,
>)
    ensures
        match id {
            Ok(id) => id != current && (last.0 == Some(id) || ((last.0 is None || last.0 == Some(
                current,
            )) && last.1 == Some(id))),
            Err(e) => (last.0 is None || last.0 == Some(current)) && (last.1 is None || last.1
                == Some(current)) && e@ == "no last modified buffer"@,
        },
{
    match last.0 {
        Some(id) if id != current => {
            return Ok(id);
        },
        _ => {},
    }
    match last.1 {
        Some(id) if id != current => Ok(id),
        _ => Err("no last modified buffer"),
    }
}

/// The buffer accessed before the current one, which is taken from the history.
pub fn goto_last_accessed_file(history: &mut Vec<u64>) -> (id: Result<u64, &'static str>)
    ensures
        match id {
            Ok(id) => old(history)@.len() > 0 && id == old(history)@.last() && final(history)@
                == old(history)@.drop_last(),
            Err(e) => old(history)@.len() == 0 && final(history)@ == old(history)@ && e@
                == "no last accessed buffer"@,
        },
{
    match history.pop() {
        Some(id) => Ok(id),
        None => Err("no last accessed buffer"),
    }
}

/// The texts of ranges, with a space between them.
pub open spec fn fragments(text: Seq<char>, ranges: Seq<Range>) -> Seq<char>
    decreases ranges.len(),
{
    if ranges.len() == 0 {
        Seq::empty()
    } else if ranges.len() == 1 {
        text.subrange(ranges[0].lo(), ranges[0].hi())
    } else {
        fragments(text, ranges.drop_last()).push(' ') + text.subrange(
            ranges.last().lo(),
            ranges.last().hi(),
        )
    }
}

/// How a jump is listed: the line of its primary cursor, its text, and whether it leads to the
/// current buffer.
pub struct JumpEntry {
    pub line_start: usize,
    pub contents: Vec<char>,
    pub flags: &'static str,
}

/// Lists a jump.
pub fn jumplist_picker(text: &Text, selection: &Selection, is_current: bool) -> (entry: JumpEntry)
    requires
        text.wf(),
        selection.wf(),
        selection.within(text@.len() as int),
    ensures
        entry.line_start == line_of(
            text@,
            selection.ranges@[selection.primary_index as int].cursor_in(*text),
        ),
        entry.contents@ == fragments(text@, selection.ranges@),
        entry.flags@ == (if is_current {
            " (*)"@
        } else {
            ""@
        }),
{
    let ghost rs = selection.ranges@;
    let mut contents: Vec<char> = Vec::new();
    let mut i: usize = 0;
    assert(rs.take(0) =~= Seq::<Range>::empty());
    while i < selection.ranges.len()
        invariant
            i <= rs.len(),
            rs == selection.ranges@,
            selection.within(text@.len() as int),
            contents@ == fragments(text@, rs.take(i as int)),
        decreases selection.ranges.len() - i,
    {
        assert(rs.take(i + 1).drop_last() =~= rs.take(i as int));
        assert(rs[i as int].within(text@.len() as int));
        if i > 0 {
            contents.push(' ');
        }
        crate::transaction::append(&mut contents, &selection.ranges[i].fragment(text));
        assert(contents@ =~= fragments(text@, rs.take(i + 1)));
        i += 1;
    }
    assert(rs.take(i as int) =~= rs);
    assert(rs[selection.primary_index as int].within(text@.len() as int));
    let flags = if is_current {
        " (*)"
    } else {
        ""
    };
    JumpEntry { line_start: selection.primary().cursor_line(text), contents, flags }
}

/// A character shown in place of the one at a position.
#[derive(Clone, Copy, Debug, PartialEq, Eq, Structural)]
pub struct Overlay {
    pub char_idx: usize,
    pub grapheme: char,
}

/// Letter `k` of the alphabet.
pub open spec fn letter(alphabet: Seq<char>, k: int) -> char {
    alphabet[k]
}

/// The two characters of a label, over the first two grapheme clusters of its range.
pub open spec fn label_overlays(text: Text, alphabet: Seq<char>, labels: Seq<Range>, i: int) -> Seq<
    Overlay,
> {
    let n = alphabet.len() as int;
    Seq::empty().push(
        Overlay { char_idx: labels[i].lo() as usize, grapheme: letter(alphabet, i / n) },
    ).push(
        Overlay {
            char_idx: next_boundary(text.breaks@, labels[i].lo()) as usize,
            grapheme: letter(alphabet, i % n),
        },
    )
}

/// The characters of all labels, label by label.
pub open spec fn all_overlays(text: Text, alphabet: Seq<char>, labels: Seq<Range>, n: nat) -> Seq<
    Overlay,
>
    decreases n,
{
    if n == 0 {
        Seq::empty()
    } else {
        all_overlays(text, alphabet, labels, (n - 1) as nat) + label_overlays(
            text,
            alphabet,
            labels,
            n - 1,
        )
    }
}

/// Overlays in the order of their positions.
pub open spec fn in_text_order(overlays: Seq<Overlay>) -> bool {
    forall|a: int, b: int|
        0 <= a < b < overlays.len() ==> (#[trigger] overlays[a]).char_idx <= (
        #[trigger] overlays[b]).char_idx
}

/// Puts an overlay behind those at or before its position.
fn insert_overlay(sorted: &mut Vec<Overlay>, o: Overlay)
    requires
        in_text_order(old(sorted)@),
    ensures
        in_text_order(final(sorted)@),
        final(sorted)@.to_multiset() == old(sorted)@.to_multiset().insert(o),
{
    let ghost before = sorted@;
    let mut at: usize = sorted.len();
    while at > 0 && sorted[at - 1].char_idx > o.char_idx
        invariant
            at <= sorted@.len(),
            sorted@ == before,
            in_text_order(before),
            forall|k: int| at <= k < before.len() ==> (#[trigger] before[k]).char_idx > o.char_idx,
        decreases at,
    {
        at -= 1;
    }
    sorted.insert(at, o);
    proof {
        let after = sorted@;
        assert forall|a: int, b: int| 0 <= a < b < after.len() implies (#[trigger] after[a]).char_idx
            <= (#[trigger] after[b]).char_idx by {
            if b < at {
                assert(before[a].char_idx <= before[b].char_idx);
            } else if a >= at && b > at {
                if a > at {
                    assert(before[a - 1].char_idx <= before[b - 1].char_idx);
                } else {
                    assert(before[b - 1].char_idx > o.char_idx);
                }
            } else if b == at {
                if at > 0 && a < at - 1 {
                    assert(before[a].char_idx <= before[at - 1].char_idx);
                }
            } else {
                assert(before[a].char_idx <= before[b - 1].char_idx);
            }
        }
        assert(after =~= before.insert(at as int, o));
        before.to_multiset_ensures();
        lemma_insert_multiset(before, at as int, o);
    }
}

proof fn lemma_insert_multiset(s: Seq<Overlay>, at: int, o: Overlay)
    requires
        0 <= at <= s.len(),
    ensures
        s.insert(at, o).to_multiset() == s.to_multiset().insert(o),
{
    broadcast use vstd::seq_lib::group_to_multiset_ensures;
    let t = s.insert(at, o);
    assert(t.remove(at) =~= s);
    assert(t[at] == o);
    assert(t.remove(at).to_multiset() == t.to_multiset().remove(o));
    assert(t.to_multiset().contains(o));
    assert(t.to_multiset() =~= t.to_multiset().remove(o).insert(o));
}

proof fn lemma_label_overlays(text: Text, alphabet: Seq<char>, labels: Seq<Range>, i: int)
    requires
        0 <= i,
    ensures
        label_overlays(text, alphabet, labels, i).len() == 2,
        all_overlays(text, alphabet, labels, (i + 1) as nat) == all_overlays(
            text,
            alphabet,
            labels,
            i as nat,
        ).push(label_overlays(text, alphabet, labels, i)[0]).push(
            label_overlays(text, alphabet, labels, i)[1],
        ),
{
    assert(all_overlays(text, alphabet, labels, (i + 1) as nat) =~= all_overlays(
        text,
        alphabet,
        labels,
        i as nat,
    ).push(label_overlays(text, alphabet, labels, i)[0]).push(
        label_overlays(text, alphabet, labels, i)[1],
    ));
}

proof fn lemma_push_two(s: Seq<Overlay>, a: Overlay, b: Overlay)
    ensures
        s.push(a).push(b).to_multiset() == s.to_multiset().insert(a).insert(b),
{
    broadcast use vstd::seq_lib::group_to_multiset_ensures;

}

/// The labels of jump candidates as they are laid over the text; without candidates there is no
/// jump.
pub fn jump_to_label(text: &Text, alphabet: &Vec<char>, labels: &Vec<Range>) -> (shown: Option<
    Vec<Overlay>,
>)
    requires
        text.wf(),
        labels@.len() <= alphabet@.len() * alphabet@.len(),
    ensures
        shown is Some <==> labels@.len() > 0,
        shown matches Some(overlays) ==> in_text_order(overlays@) && overlays@.to_multiset()
            == all_overlays(*text, alphabet@, labels@, labels@.len()).to_multiset(),
{
    if labels.len() == 0 {
        return None;
    }
    proof {
        if alphabet@.len() == 0 {
            assert(alphabet@.len() * alphabet@.len() == 0);
        }
    }
    let n: usize = alphabet.len();
    let mut overlays: Vec<Overlay> = Vec::new();
    let mut i: usize = 0;
    assert(overlays@ =~= all_overlays(*text, alphabet@, labels@, 0));
    while i < labels.len()
        invariant
            i <= labels@.len() <= alphabet@.len() * alphabet@.len(),
            n == alphabet@.len(),
            n > 0,
            text.wf(),
            in_text_order(overlays@),
            overlays@.to_multiset() == all_overlays(
                *text,
                alphabet@,
                labels@,
                i as nat,
            ).to_multiset(),
        decreases labels.len() - i,
    {
        proof {
            assert(i / n < n) by (nonlinear_arith)
                requires
                    i < n * n,
                    n > 0,
            ;
            assert(i % n < n) by (nonlinear_arith)
                requires
                    n > 0,
            ;
        }
        let from = labels[i].from();
        let first = Overlay { char_idx: from, grapheme: alphabet[i / n] };
        let second = Overlay {
            char_idx: text.next_grapheme_boundary(from),
            grapheme: alphabet[i % n],
        };
        insert_overlay(&mut overlays, first);
        insert_overlay(&mut overlays, second);
        proof {
            let before = all_overlays(*text, alphabet@, labels@, i as nat);
            let shown = label_overlays(*text, alphabet@, labels@, i as int);
            lemma_label_overlays(*text, alphabet@, labels@, i as int);
            assert(shown[0] == first);
            assert(shown[1] == second);
            lemma_push_two(before, first, second);
        }
        i += 1;
    }
    Some(overlays)
}

/// The first place of a character.
pub open spec fn letter_place(alphabet: Seq<char>, c: char) -> Option<int>
    decreases alphabet.len(),
{
    if alphabet.len() == 0 {
        None
    } else if alphabet[0] == c {
        Some(0)
    } else {
        match letter_place(alphabet.skip(1), c) {
            Some(k) => Some(k + 1),
            None => None,
        }
    }
}

fn find_letter(alphabet: &Vec<char>, c: char) -> (found: Option<usize>)
    ensures
        (match found {
            Some(k) => Some(k as int),
            None => None,
        }) == letter_place(alphabet@, c),
        found matches Some(k) ==> k < alphabet@.len(),
{
    let mut i: usize = 0;
    assert(alphabet@.skip(0) =~= alphabet@);
    while i < alphabet.len()
        invariant
            i <= alphabet@.len(),
            letter_place(alphabet@, c) == (match letter_place(alphabet@.skip(i as int), c) {
                Some(k) => Some(k + i),
                None => None,
            }),
        decreases alphabet.len() - i,
    {
        assert(alphabet@.skip(i as int).skip(1) =~= alphabet@.skip(i + 1));
        assert(alphabet@.skip(i as int)[0] == alphabet@[i as int]);
        if alphabet[i] == c {
            return Some(i);
        }
        i += 1;
    }
    None
}

/// The number of the first label that begins with a letter; none when there is no such label or
/// the key is not a plain letter of the alphabet.
pub open spec fn label_row(alphabet: Seq<char>, labels: int, key: Option<char>) -> Option<int> {
    match key {
        Some(c) => match letter_place(alphabet, c) {
            Some(i) if i * alphabet.len() <= labels => Some(i * alphabet.len()),
            _ => None,
        },
        None => None,
    }
}

/// The first key of a label: `key` is a character typed without modifiers.
pub fn first_label_key(alphabet: &Vec<char>, labels: usize, key: Option<char>) -> (row: Option<usize>)
    ensures
        (match row {
            Some(k) => Some(k as int),
            None => None,
        }) == label_row(alphabet@, labels as int, key),
{
    match key {
        Some(c) => match find_letter(alphabet, c) {
            Some(i) => match i.checked_mul(alphabet.len()) {
                Some(outer) => if outer > labels {
                    None
                } else {
                    Some(outer)
                },
                None => None,
            },
            None => None,
        },
        None => None,
    }
}

/// The range that a jump selects. Extending, it reaches from the far end of the primary range, or
/// from the label's own anchor where that is further.
pub open spec fn jump_range(label: Range, primary: Range, behaviour: Movement) -> Range {
    match behaviour {
        Movement::Extend => {
            let anchor = if label.anchor < label.head {
                if label.anchor < primary.lo() {
                    label.anchor as int
                } else {
                    primary.lo()
                }
            } else if label.anchor > primary.hi() {
                label.anchor as int
            } else {
                primary.hi()
            };
            range(anchor, label.head as int)
        },
        Movement::Move => label.facing(Direction::Forward),
    }
}

/// The label of a row that a second letter finds.
pub open spec fn label_in_row(
    alphabet: Seq<char>,
    labels: Seq<Range>,
    row: int,
    key: Option<char>,
) -> Option<Range> {
    match key {
        Some(c) => match letter_place(alphabet, c) {
            Some(i) if row + i < labels.len() => Some(labels[row + i]),
            _ => None,
        },
        None => None,
    }
}

/// The second key of a label: the selection that it jumps to, for which a jump is stored. The labels
/// go away with this key, whatever it is, and with a first key that begins no label.
pub fn second_label_key(
    alphabet: &Vec<char>,
    labels: &Vec<Range>,
    row: usize,
    key: Option<char>,
    primary: &Range,
    behaviour: Movement,
) -> (selection: Option<Selection>)
    ensures
        match label_in_row(alphabet@, labels@, row as int, key) {
            Some(label) => selection matches Some(s) && s.wf() && s.primary_index == 0 && s.ranges@
                == seq![jump_range(label, *primary, behaviour)],
            None => selection is None,
        },
{
    let inner = match key {
        Some(c) => match find_letter(alphabet, c) {
            Some(i) => i,
            None => {
                return None;
            },
        },
        None => {
            return None;
        },
    };
    let total = labels.len();
    let place = match row.checked_add(inner) {
        Some(place) => place,
        None => {
            return None;
        },
    };
    if place >= total {
        return None;
    }
    let label = labels[place];
    let r = match behaviour {
        Movement::Extend => {
            let anchor = if label.anchor < label.head {
                let from = primary.from();
                if label.anchor < from {
                    label.anchor
                } else {
                    from
                }
            } else {
                let to = primary.to();
                if label.anchor > to {
                    label.anchor
                } else {
                    to
                }
            };
            Range::new(anchor, label.head)
        },
        Movement::Move => label.with_direction(Direction::Forward),
    };
    Some(Selection::single(r.anchor, r.head))
}

proof fn lemma_letter_place(alphabet: Seq<char>, i: int)
    requires
        0 <= i < alphabet.len(),
        forall|a: int, b: int| 0 <= a < b < alphabet.len() ==> alphabet[a] != alphabet[b],
    ensures
        letter_place(alphabet, alphabet[i]) == Some(i),
    decreases alphabet.len(),
{
    if i > 0 {
        let rest = alphabet.skip(1);
        assert(rest[i - 1] == alphabet[i]);
        assert(alphabet[0] != alphabet[i]);
        assert forall|a: int, b: int| 0 <= a < b < rest.len() implies rest[a] != rest[b] by {
            assert(alphabet[a + 1] != alphabet[b + 1]);
        }
        lemma_letter_place(rest, i - 1);
    }
}

/// Typing the two letters shown over a word jumps to that word: the first finds the row of labels
/// that begin with it, and the second the label in the row. No other word has the same letters.
pub proof fn labels_lead_to_their_words(
    text: Text,
    alphabet: Seq<char>,
    labels: Seq<Range>,
    k: int,
    primary: Range,
)
    requires
        forall|a: int, b: int| 0 <= a < b < alphabet.len() ==> alphabet[a] != alphabet[b],
        0 <= k < labels.len() <= alphabet.len() * alphabet.len(),
    ensures
        ({
            let n = alphabet.len() as int;
            let (first, second) = (alphabet[k / n], alphabet[k % n]);
            &&& label_overlays(text, alphabet, labels, k)[0].grapheme == first
            &&& label_overlays(text, alphabet, labels, k)[1].grapheme == second
            &&& label_row(alphabet, labels.len() as int, Some(first)) matches Some(row)
                && label_in_row(alphabet, labels, row, Some(second)) == Some(labels[k])
            &&& jump_range(labels[k], primary, Movement::Move) == labels[k].facing(
                Direction::Forward,
            )
            &&& forall|m: int|
                0 <= m < labels.len() && m != k ==> !(#[trigger] alphabet[m / n] == first
                    && alphabet[m % n] == second)
        }),
{
    let n = alphabet.len() as int;
    if n == 0 {
        assert(n * n == 0);
    }
    lemma_label_parts(n, k);
    lemma_letter_place(alphabet, k / n);
    lemma_letter_place(alphabet, k % n);
    assert forall|m: int| 0 <= m < labels.len() && m != k implies !(#[trigger] alphabet[m / n]
        == alphabet[k / n] && alphabet[m % n] == alphabet[k % n]) by {
        lemma_label_parts(n, m);
        if alphabet[m / n] == alphabet[k / n] && alphabet[m % n] == alphabet[k % n] {
            lemma_letter_place(alphabet, m / n);
            lemma_letter_place(alphabet, m % n);
            assert(m / n == k / n && m % n == k % n);
        }
    }
}

/// The row and the place in the row of a label.
proof fn lemma_label_parts(n: int, k: int)
    requires
        n > 0,
        0 <= k < n * n,
    ensures
        0 <= k / n < n,
        0 <= k % n < n,
        (k / n) * n + k % n == k,
        (k / n) * n <= k,
{
    assert(0 <= k / n < n) by (nonlinear_arith)
        requires
            0 <= k < n * n,
            n > 0,
    ;
    assert(0 <= k % n < n && (k / n) * n + k % n == k) by (nonlinear_arith)
        requires
            n > 0,
    ;
}

/// How many characters that no word holds `s` begins with.
pub open spec fn leading_nonword(s: Seq<char>) -> int
    decreases s.len(),
{
    if s.len() > 0 && !word_char(s[0]) {
        1 + leading_nonword(s.skip(1))
    } else {
        0
    }
}

/// How many characters that no word holds `s` ends with.
pub open spec fn trailing_nonword(s: Seq<char>) -> int
    decreases s.len(),
{
    if s.len() > 0 && !word_char(s.last()) {
        1 + trailing_nonword(s.drop_last())
    } else {
        0
    }
}

fn count_leading_nonword(text: &Text, pos: usize) -> (n: usize)
    requires
        pos <= text@.len(),
    ensures
        n == leading_nonword(text@.skip(pos as int)),
        n <= text@.len() - pos,
{
    let ghost s = text@.skip(pos as int);
    let mut n: usize = 0;
    assert(s.skip(0) =~= s);
    while n < text.len_chars() - pos && !char_is_word(text.chars[pos + n])
        invariant
            pos <= text@.len(),
            n <= text@.len() - pos,
            s == text@.skip(pos as int),
            leading_nonword(s) == n + leading_nonword(s.skip(n as int)),
        decreases text@.len() - pos - n,
    {
        assert(s.skip(n as int).skip(1) =~= s.skip(n + 1));
        assert(s.skip(n as int)[0] == text@[pos + n]);
        n += 1;
    }
    proof {
        if n < text@.len() - pos {
            assert(s.skip(n as int)[0] == text@[pos + n]);
        }
    }
    n
}

fn count_trailing_nonword(text: &Text, pos: usize) -> (n: usize)
    requires
        pos <= text@.len(),
    ensures
        n == trailing_nonword(text@.take(pos as int)),
        n <= pos,
{
    let ghost s = text@.take(pos as int);
    let mut n: usize = 0;
    assert(s.take(s.len() as int) =~= s);
    while n < pos && !char_is_word(text.chars[pos - n - 1])
        invariant
            pos <= text@.len(),
            n <= pos,
            s == text@.take(pos as int),
            trailing_nonword(s) == n + trailing_nonword(s.take(s.len() - n)),
        decreases pos - n,
    {
        assert(s.take(s.len() - n).drop_last() =~= s.take(s.len() - n - 1));
        n += 1;
    }
    n
}

/// Every character from `from` up to `to` belongs to a word.
pub open spec fn all_word(s: Seq<char>, from: int, to: int) -> bool {
    forall|i: int| from <= i < to ==> word_char(#[trigger] s[i])
}

fn all_word_chars(text: &Text, from: usize, to: usize) -> (b: bool)
    requires
        to <= text@.len(),
    ensures
        b == all_word(text@, from as int, to as int),
{
    let mut i: usize = from;
    while i < to
        invariant
            from <= i,
            to <= text@.len(),
            i <= to || from >= to,
            forall|j: int| from <= j < i ==> word_char(#[trigger] text@[j]),
        decreases to - i,
    {
        if !char_is_word(text.chars[i]) {
            assert(!word_char(text@[i as int]));
            return false;
        }
        i += 1;
    }
    true
}

/// Two grapheme clusters stand before `pos`, and both are made of characters of words.
pub open spec fn ends_word(text: Text, pos: int) -> bool {
    let second = prev_boundary(text.breaks@, pos);
    let first = prev_boundary(text.breaks@, second);
    pos > 0 && second > 0 && all_word(text@, first, pos)
}

/// Two grapheme clusters stand after `pos`, and both are made of characters of words.
pub open spec fn begins_word(text: Text, pos: int) -> bool {
    let second = next_boundary(text.breaks@, pos);
    let end = next_boundary(text.breaks@, second);
    pos < text@.len() && second < text@.len() && all_word(text@, pos, end)
}

/// What the collection of words is about to ask: where the end of the next word or the beginning
/// of the word before lies. First it asks both of the word under the cursor.
#[derive(Clone, Copy, Debug, PartialEq, Eq, Structural)]
pub enum WordStep {
    CursorWordEnd,
    CursorWordStart,
    NextWordEnd,
    PrevWordStart,
    Done,
}

/// The words found so far, on both sides of the cursor, and the ranges from which the search goes
/// on.
#[verifier::ext_equal]
pub struct WordsFound {
    pub words: Seq<Range>,
    pub fwd: Range,
    pub rev: Range,
    pub changed: bool,
    pub step: WordStep,
}

/// The collection of the words that a label may stand on.
pub struct WordJump {
    pub words: Vec<Range>,
    pub fwd: Range,
    pub rev: Range,
    pub changed: bool,
    pub step: WordStep,
    pub cursor: usize,
    pub start: usize,
    pub end: usize,
    pub limit: usize,
}

impl View for WordJump {
    type V = WordsFound;

    open spec fn view(&self) -> WordsFound {
        WordsFound {
            words: self.words@,
            fwd: self.fwd,
            rev: self.rev,
            changed: self.changed,
            step: self.step,
        }
    }
}

impl WordsFound {
    /// Searches forward, while there is text ahead; else backward.
    pub open spec fn forward(self, start: usize, end: usize) -> WordsFound {
        if self.fwd.head < end {
            WordsFound { step: WordStep::NextWordEnd, ..self }
        } else {
            self.backward(start, end)
        }
    }

    /// Searches backward, while there is text behind; else turns.
    pub open spec fn backward(self, start: usize, end: usize) -> WordsFound {
        if self.rev.head > start {
            WordsFound { step: WordStep::PrevWordStart, ..self }
        } else {
            self.turned(start, end)
        }
    }

    /// Begins a new round if the last one found a word.
    pub open spec fn turned(self, start: usize, end: usize) -> WordsFound {
        if !self.changed {
            WordsFound { step: WordStep::Done, ..self }
        } else if self.fwd.head < end {
            WordsFound { step: WordStep::NextWordEnd, changed: false, ..self }
        } else if self.rev.head > start {
            WordsFound { step: WordStep::PrevWordStart, changed: false, ..self }
        } else {
            WordsFound { step: WordStep::Done, changed: false, ..self }
        }
    }
}

/// The state after the answer `r` to the question asked.
pub open spec fn answered(
    before: WordsFound,
    text: Text,
    cursor: int,
    start: usize,
    end: usize,
    limit: int,
    r: Range,
) -> WordsFound {
    match before.step {
        WordStep::CursorWordEnd => WordsFound {
            fwd: if r.anchor == cursor {
                r
            } else {
                before.fwd
            },
            step: WordStep::CursorWordStart,
            ..before
        },
        WordStep::CursorWordStart => (WordsFound {
            rev: if r.anchor == next_boundary(text.breaks@, cursor) {
                r
            } else {
                before.rev
            },
            changed: false,
            ..before
        }).forward(start, end),
        WordStep::NextWordEnd => if ends_word(text, r.head as int) {
            let word = Range {
                anchor: (r.anchor + leading_nonword(text@.skip(r.anchor as int))) as usize,
                head: r.head,
            };
            let after = WordsFound {
                words: before.words.push(word),
                fwd: word,
                changed: true,
                ..before
            };
            if after.words.len() == limit {
                WordsFound { step: WordStep::Done, ..after }
            } else {
                after.backward(start, end)
            }
        } else {
            (WordsFound { fwd: r, ..before }).forward(start, end)
        },
        WordStep::PrevWordStart => if begins_word(text, r.head as int) {
            let word = Range {
                anchor: (r.anchor - trailing_nonword(text@.take(r.anchor as int))) as usize,
                head: r.head,
            };
            let after = WordsFound {
                words: before.words.push(word),
                rev: word,
                changed: true,
                ..before
            };
            if after.words.len() == limit {
                WordsFound { step: WordStep::Done, ..after }
            } else {
                after.turned(start, end)
            }
        } else {
            (WordsFound { rev: r, ..before }).backward(start, end)
        },
        WordStep::Done => before,
    }
}

impl WordJump {
    /// There is room for every word found, and no more than fit the labels are collected.
    pub open spec fn wf(&self) -> bool {
        &&& self.limit > 0
        &&& self.words@.len() <= self.limit
        &&& self.step != WordStep::Done ==> self.words@.len() < self.limit
    }

    /// Begins at the cursor. `start` and `end` bound the visible text, and `limit` is the number
    /// of labels: the square of the letters of the alphabet. Without letters there is no jump.
    pub fn jump_to_word(text: &Text, primary: &Range, start: usize, end: usize, letters: usize) -> (
    jump: Option<WordJump>)
        requires
            text.wf(),
            letters * letters <= usize::MAX,
        ensures
            jump is Some <==> letters > 0,
            jump matches Some(j) ==> {
                let cursor = primary.cursor_in(*text);
                let first = WordsFound {
                    words: Seq::empty(),
                    fwd: range(cursor, cursor),
                    rev: range(cursor, cursor),
                    changed: false,
                    step: WordStep::CursorWordEnd,
                };
                &&& j.wf()
                &&& j.cursor == cursor && j.start == start && j.end == end && j.limit == letters
                    * letters
                &&& j@ == if cursor < text@.len() && !whitespace(text@[cursor]) {
                    first
                } else {
                    first.forward(start, end)
                }
            },
    {
        if letters == 0 {
            return None;
        }
        assert(letters * letters > 0) by (nonlinear_arith)
            requires
                letters > 0,
        ;
        let cursor = primary.cursor(text);
        let mut jump = WordJump {
            words: Vec::new(),
            fwd: Range::point(cursor),
            rev: Range::point(cursor),
            changed: false,
            step: WordStep::CursorWordEnd,
            cursor,
            start,
            end,
            limit: letters * letters,
        };
        if !(cursor < text.len_chars() && !is_whitespace(text.chars[cursor])) {
            jump.go_forward();
        }
        assert(jump.words@ =~= Seq::<Range>::empty());
        Some(jump)
    }

    fn go_forward(&mut self)
        ensures
            final(self)@ == old(self)@.forward(old(self).start, old(self).end),
            final(self).cursor == old(self).cursor,
            final(self).start == old(self).start,
            final(self).end == old(self).end,
            final(self).limit == old(self).limit,
    {
        if self.fwd.head < self.end {
            self.step = WordStep::NextWordEnd;
        } else {
            self.go_backward();
        }
    }

    fn go_backward(&mut self)
        ensures
            final(self)@ == old(self)@.backward(old(self).start, old(self).end),
            final(self).cursor == old(self).cursor,
            final(self).start == old(self).start,
            final(self).end == old(self).end,
            final(self).limit == old(self).limit,
    {
        if self.rev.head > self.start {
            self.step = WordStep::PrevWordStart;
        } else {
            self.turn();
        }
    }

    fn turn(&mut self)
        ensures
            final(self)@ == old(self)@.turned(old(self).start, old(self).end),
            final(self).cursor == old(self).cursor,
            final(self).start == old(self).start,
            final(self).end == old(self).end,
            final(self).limit == old(self).limit,
    {
        if !self.changed {
            self.step = WordStep::Done;
        } else {
            self.changed = false;
            if self.fwd.head < self.end {
                self.step = WordStep::NextWordEnd;
            } else if self.rev.head > self.start {
                self.step = WordStep::PrevWordStart;
            } else {
                self.step = WordStep::Done;
            }
        }
    }

    /// The range from which the next motion starts, and which motion it is.
    pub fn question(&self) -> (asked: (WordStep, Range))
        ensures
            asked.0 == self.step,
            asked.1 == match self.step {
                WordStep::CursorWordEnd | WordStep::NextWordEnd => self.fwd,
                _ => self.rev,
            },
    {
        let from = match self.step {
            WordStep::CursorWordEnd | WordStep::NextWordEnd => self.fwd,
            _ => self.rev,
        };
        (self.step, from)
    }

    /// Takes the range that the motion led to.
    pub fn answer(&mut self, text: &Text, r: Range)
        requires
            text.wf(),
            r.within(text@.len() as int),
            old(self).wf(),
        ensures
            final(self)@ == answered(
                old(self)@,
                *text,
                old(self).cursor as int,
                old(self).start,
                old(self).end,
                old(self).limit as int,
                r,
            ),
            final(self).wf(),
            final(self).cursor == old(self).cursor,
            final(self).start == old(self).start,
            final(self).end == old(self).end,
            final(self).limit == old(self).limit,
    {
        match self.step {
            WordStep::CursorWordEnd => {
                if r.anchor == self.cursor {
                    self.fwd = r;
                }
                self.step = WordStep::CursorWordStart;
            },
            WordStep::CursorWordStart => {
                if r.anchor == text.next_grapheme_boundary(self.cursor) {
                    self.rev = r;
                }
                self.changed = false;
                self.go_forward();
            },
            WordStep::NextWordEnd => {
                let second = text.prev_grapheme_boundary(r.head);
                let first = text.prev_grapheme_boundary(second);
                if r.head > 0 && second > 0 && all_word_chars(text, first, r.head) {
                    let skipped = count_leading_nonword(text, r.anchor);
                    let word = Range::new(r.anchor + skipped, r.head);
                    self.words.push(word);
                    self.fwd = word;
                    self.changed = true;
                    if self.words.len() == self.limit {
                        self.step = WordStep::Done;
                    } else {
                        self.go_backward();
                    }
                } else {
                    self.fwd = r;
                    self.go_forward();
                }
            },
            WordStep::PrevWordStart => {
                let second = text.next_grapheme_boundary(r.head);
                let end = text.next_grapheme_boundary(second);
                if r.head < text.len_chars() && second < text.len_chars() && all_word_chars(
                    text,
                    r.head,
                    end,
                ) {
                    let skipped = count_trailing_nonword(text, r.anchor);
                    let word = Range::new(r.anchor - skipped, r.head);
                    self.words.push(word);
                    self.rev = word;
                    self.changed = true;
                    if self.words.len() == self.limit {
                        self.step = WordStep::Done;
                    } else {
                        self.turn();
                    }
                } else {
                    self.rev = r;
                    self.go_backward();
                }
            },
            WordStep::Done => {},
        }
    }
}

/// A view whose line prompt shows where it would go.
pub struct LinePreview {
    pub selection: Selection,
    pub last_selection: Option<Selection>,
    pub jumps: Vec<Selection>,
}

/// A line number that is none.
#[derive(Clone, Copy, Debug, PartialEq, Eq, Structural)]
pub struct NotANumber;

/// The two selections are alike.
pub open spec fn alike(a: Selection, b: Selection) -> bool {
    a.ranges@ == b.ranges@ && a.primary_index == b.primary_index
}

/// The selection is brought back, if a preview had moved it.
pub open spec fn preview_undone(before: LinePreview, after: LinePreview) -> bool {
    &&& after.last_selection is None
    &&& after.jumps@ == before.jumps@
    &&& match before.last_selection {
        Some(s) => after.selection == s,
        None => after.selection == before.selection,
    }
}

/// The selection from which a preview started: the first one since the last ended.
pub open spec fn preview_origin(p: LinePreview) -> Selection {
    match p.last_selection {
        Some(s) => s,
        None => p.selection,
    }
}

/// Goes to the line, if there is one with that number.
pub open spec fn previewed(
    before: Selection,
    after: Selection,
    text: Text,
    line: Option<nat>,
    movement: Movement,
) -> bool {
    match line {
        Some(line) if line > 0 => after.wf() && after.holds(
            before.ranges@.map_values(
                |r: Range|
                    r.with_cursor(
                        text,
                        numbered_line_start(text@, line as int),
                        movement == Movement::Extend,
                    ),
            ),
            before.primary_index as int,
        ),
        _ => after == before,
    }
}

impl LinePreview {
    pub open spec fn wf(&self) -> bool {
        self.selection.wf() && (self.last_selection matches Some(s) ==> s.wf())
    }

    fn abort_goto_line_number_preview(&mut self)
        requires
            old(self).wf(),
        ensures
            final(self).wf(),
            preview_undone(*old(self), *final(self)),
    {
        let last = self.last_selection.take();
        match last {
            Some(s) => {
                self.selection = s;
            },
            None => {},
        }
    }

    fn update_goto_line_number_preview(
        &mut self,
        text: &Text,
        arg: &Vec<char>,
        movement: Movement,
    ) -> (done: Result<(), NotANumber>)
        requires
            text.wf(),
            text@.len() < usize::MAX,
            old(self).wf(),
        ensures
            final(self).wf(),
            final(self).jumps@ == old(self).jumps@,
            final(self).last_selection is Some,
            alike(final(self).last_selection->0, preview_origin(*old(self))),
            match unsigned(arg@) {
                Some(n) if n <= usize::MAX => done is Ok && previewed(
                    old(self).selection,
                    final(self).selection,
                    *text,
                    unsigned(arg@),
                    movement,
                ),
                _ => done is Err && final(self).selection == old(self).selection,
            },
    {
        if self.last_selection.is_none() {
            let copy = self.selection.clone();
            self.last_selection = Some(copy);
        }
        match parse_usize(arg) {
            Some(line) => {
                let count = if line == 0 {
                    None
                } else {
                    Some(line)
                };
                match goto_line_without_jumplist(text, &self.selection, count, movement) {
                    Some(moved) => {
                        self.selection = moved;
                    },
                    None => {},
                }
                Ok(())
            },
            None => Err(NotANumber),
        }
    }

    /// Goes to a line as its number is typed. Leaving the prompt, or deleting the number, brings
    /// the selection back; accepting the number keeps where it led, and the selection before it
    /// becomes a jump.
    pub fn goto_line_number(
        &mut self,
        text: &Text,
        args: &Vec<Vec<char>>,
        event: PromptEvent,
        select_mode: bool,
    ) -> (done: Result<(), NotANumber>)
        requires
            text.wf(),
            text@.len() < usize::MAX,
            old(self).wf(),
            event is Validate ==> args@.len() > 0,
        ensures
            final(self).wf(),
            ({
                let movement = if select_mode {
                    Movement::Extend
                } else {
                    Movement::Move
                };
                let number = if args@.len() > 0 {
                    unsigned(args@[0]@)
                } else {
                    None
                };
                let read = number matches Some(n) && n <= usize::MAX;
                match event {
                    PromptEvent::Abort => done is Ok && preview_undone(*old(self), *final(self)),
                    PromptEvent::Update if args@.len() == 0 => done is Ok && preview_undone(
                        *old(self),
                        *final(self),
                    ),
                    PromptEvent::Validate if read => {
                        &&& done is Ok
                        &&& previewed(
                            old(self).selection,
                            final(self).selection,
                            *text,
                            number,
                            movement,
                        )
                        &&& final(self).last_selection is None
                        &&& final(self).jumps@.len() == old(self).jumps@.len() + 1
                        &&& final(self).jumps@.drop_last() == old(self).jumps@
                        &&& alike(final(self).jumps@.last(), preview_origin(*old(self)))
                    },
                    PromptEvent::Update if read => {
                        &&& done is Ok
                        &&& previewed(
                            old(self).selection,
                            final(self).selection,
                            *text,
                            number,
                            movement,
                        )
                        &&& final(self).last_selection is Some
                        &&& alike(final(self).last_selection->0, preview_origin(*old(self)))
                        &&& final(self).jumps@ == old(self).jumps@
                    },
                    _ => {
                        &&& done is Err
                        &&& final(self).selection == old(self).selection
                        &&& final(self).last_selection is Some
                        &&& alike(final(self).last_selection->0, preview_origin(*old(self)))
                        &&& final(self).jumps@ == old(self).jumps@
                    },
                }
            }),
    {
        let movement = if select_mode {
            Movement::Extend
        } else {
            Movement::Move
        };
        match event {
            PromptEvent::Abort => {
                self.abort_goto_line_number_preview();
                Ok(())
            },
            PromptEvent::Validate => {
                let done = self.update_goto_line_number_preview(text, &args[0], movement);
                if done.is_ok() {
                    let last = self.last_selection.take();
                    match last {
                        Some(s) => {
                            self.jumps.push(s);
                        },
                        None => {},
                    }
                    assert(self.jumps@.drop_last() =~= old(self).jumps@);
                }
                done
            },
            PromptEvent::Update => {
                if args.len() == 0 {
                    self.abort_goto_line_number_preview();
                    Ok(())
                } else {
                    self.update_goto_line_number_preview(text, &args[0], movement)
                }
            },
        }
    }
}

/// The selection that a prompt was opened on is the one that leaving it brings back, whatever
/// numbers were typed in between: a preview keeps the selection it started from.
pub proof fn leaving_the_line_prompt_restores(first: LinePreview, typed: LinePreview, left: LinePreview)
    requires
        typed.last_selection is Some,
        alike(typed.last_selection->0, preview_origin(first)),
        preview_undone(typed, left),
    ensures
        alike(left.selection, preview_origin(first)),
        alike(preview_origin(typed), preview_origin(first)),
{
}

/// Lines are numbered from 1: before the line of a number stand as many line feeds as lines come
/// before it. A number beyond the last line leads to where that begins.
pub proof fn lines_are_numbered_from_one(s: Seq<char>, number: int)
    requires
        1 <= number,
    ensures
        ({
            let at = numbered_line_start(s, number);
            &&& 0 <= at <= s.len()
            &&& number == 1 ==> at == 0
            &&& number <= last_line(s) + 1 ==> newlines(s.take(at)) == number - 1 && (at > 0
                ==> s[at - 1] == '\n')
            &&& number > last_line(s) + 1 ==> at == numbered_line_start(s, last_line(s) + 1)
        }),
{
    the_last_line_holds_the_last_character(s);
    if s.len() > 0 {
        crate::text::positions_lie_in_their_line(s, s.len() - 1);
    }
    crate::text::lines_lie_between_line_feeds(s, min(number - 1, last_line(s)));
}

/// A label wants a word of two grapheme clusters: both characters before the end of a word, and
/// both from its beginning on, are of words. Where the clusters are single characters that is
/// enough.
pub proof fn labels_need_two_characters(text: Text, pos: int)
    requires
        text.wf(),
        0 <= pos <= text@.len(),
    ensures
        ends_word(text, pos) ==> pos >= 2 && word_char(text@[pos - 1]) && word_char(text@[pos - 2]),
        pos >= 2 && text.breaks@.contains((pos - 1) as usize) && text.breaks@.contains(
            (pos - 2) as usize,
        ) ==> (ends_word(text, pos) <==> word_char(text@[pos - 1]) && word_char(text@[pos - 2])),
        begins_word(text, pos) ==> pos + 1 < text@.len() && word_char(text@[pos]) && word_char(
            text@[pos + 1],
        ),
        pos + 2 <= text@.len() && text.breaks@.contains((pos + 1) as usize) && text.breaks@.contains(
            (pos + 2) as usize,
        ) ==> (begins_word(text, pos) <==> word_char(text@[pos]) && word_char(text@[pos + 1])),
{
    let b = text.breaks@[0];
    assert(text.breaks@.contains(b));
    let second = prev_boundary(text.breaks@, pos);
    crate::text::steps_reach_the_nearest_boundary(text, pos, b);
    crate::text::steps_reach_the_nearest_boundary(text, second, b);
    if pos >= 2 && text.breaks@.contains((pos - 1) as usize) && text.breaks@.contains(
        (pos - 2) as usize,
    ) {
        crate::text::steps_reach_the_nearest_boundary(text, pos, (pos - 1) as usize);
        crate::text::steps_reach_the_nearest_boundary(text, pos - 1, (pos - 2) as usize);
        assert(second == pos - 1);
        assert(prev_boundary(text.breaks@, second) == pos - 2);
    }
    let next = next_boundary(text.breaks@, pos);
    crate::text::steps_reach_the_nearest_boundary(text, next, b);
    if pos + 2 <= text@.len() && text.breaks@.contains((pos + 1) as usize) && text.breaks@.contains(
        (pos + 2) as usize,
    ) {
        crate::text::steps_reach_the_nearest_boundary(text, pos, (pos + 1) as usize);
        crate::text::steps_reach_the_nearest_boundary(text, pos + 1, (pos + 2) as usize);
        assert(next == pos + 1);
        assert(next_boundary(text.breaks@, next) == pos + 2);
    }
}

/// Words are collected by turns: after one is found ahead the search goes back, while there is text
/// behind. At most as many are collected as there are labels, and those found stay.
pub proof fn words_are_collected_by_turns(
    before: WordsFound,
    text: Text,
    cursor: int,
    start: usize,
    end: usize,
    limit: int,
    r: Range,
)
    ensures
        ({
            let after = answered(before, text, cursor, start, end, limit, r);
            &&& before.words.is_prefix_of(after.words)
            &&& after.words.len() <= before.words.len() + 1
            &&& after.words.len() > before.words.len() ==> after.words.last().head == r.head
                && after.words.last() == (if before.step is NextWordEnd {
                after.fwd
            } else {
                after.rev
            })
            &&& after.words.len() > before.words.len() && after.words.len() == limit
                ==> after.step is Done
            &&& before.step is NextWordEnd && after.words.len() > before.words.len()
                && after.words.len() != limit && before.rev.head > start ==> after.step is PrevWordStart
            &&& before.step is CursorWordEnd ==> after.fwd == (if r.anchor == cursor {
                r
            } else {
                before.fwd
            }) && after.step is CursorWordStart
            &&& before.step is NextWordEnd ==> after.rev == before.rev
            &&& before.step is PrevWordStart ==> after.fwd == before.fwd
            &&& after.step is NextWordEnd ==> after.fwd.head < end
            &&& after.step is PrevWordStart ==> after.rev.head > start
        }),
{
}

} // verus!
