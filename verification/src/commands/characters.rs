//! What the character under the cursor is.

use crate::commands::insert::bytes;
use crate::selection::Selection;
use crate::strings::{code_point, decimal, from_chars, hex, to_chars, to_decimal, to_hex, zero_padded};
use crate::text::{next_boundary, Text};
use crate::transaction::append;
use vstd::prelude::*;

verus! {

/// A character as it is shown: control characters by their escapes.
pub open spec fn printable_char(c: char) -> Seq<char> {
    if c == '\0' {
        seq!['\\', '0']
    } else if c == '\t' {
        seq!['\\', 't']
    } else if c == '\n' {
        seq!['\\', 'n']
    } else if c == '\r' {
        seq!['\\', 'r']
    } else {
        seq![c]
    }
}

/// Characters as they are shown.
pub open spec fn printable(s: Seq<char>) -> Seq<char>
    decreases s.len(),
{
    if s.len() == 0 {
        Seq::empty()
    } else {
        printable(s.drop_last()) + printable_char(s.last())
    }
}

/// The code points of characters, in hexadecimal.
pub open spec fn code_points(s: Seq<char>) -> Seq<char>
    decreases s.len(),
{
    if s.len() == 0 {
        Seq::empty()
    } else {
        (if s.len() == 1 {
            Seq::empty()
        } else {
            code_points(s.drop_last()).push(' ')
        }) + seq!['U', '+'] + zero_padded(hex((s.last() as int) as nat), 4)
    }
}

/// Bytes in hexadecimal, each behind a space.
pub open spec fn hex_bytes(b: Seq<u8>) -> Seq<char>
    decreases b.len(),
{
    if b.len() == 0 {
        Seq::empty()
    } else {
        hex_bytes(b.drop_last()).push(' ') + zero_padded(hex(b.last() as nat), 2)
    }
}

/// The encodings of characters in hexadecimal, with a plus sign between them.
pub open spec fn hex_encodings(encoded: Seq<Seq<u8>>) -> Seq<char>
    decreases encoded.len(),
{
    if encoded.len() == 0 {
        Seq::empty()
    } else {
        (if encoded.len() == 1 {
            Seq::empty()
        } else {
            hex_encodings(encoded.drop_last()) + seq![' ', '+']
        }) + hex_bytes(encoded.last())
    }
}

/// What is told of the character `s`, whose characters are encoded as `encoded`: how it looks,
/// its code points where the document is in UTF-8, its number where it is a single byte of an
/// encoding that contains ASCII, and its bytes.
pub open spec fn character_info(
    s: Seq<char>,
    utf8: bool,
    ascii_compatible: bool,
    encoded: Seq<Seq<u8>>,
) -> Seq<char> {
    let unicode = if utf8 {
        seq![' ', '('] + code_points(s).push(')')
    } else {
        Seq::empty()
    };
    let dec = if ascii_compatible && bytes(s) == 1 {
        " Dec "@ + decimal((s[0] as int) as nat)
    } else {
        Seq::empty()
    };
    seq!['"'] + printable(s).push('"') + unicode + dec + " Hex"@ + hex_encodings(encoded)
}

/// The encodings of characters, for as long as there are any.
pub open spec fn encodings(encoded: Seq<Option<Vec<u8>>>) -> Seq<Seq<u8>> {
    encoded.map_values(|e: Option<Vec<u8>>| e->0@)
}

fn push_printable(out: &mut Vec<char>, c: char)
    ensures
        final(out)@ == old(out)@ + printable_char(c),
{
    if c == '\0' {
        out.push('\\');
        out.push('0');
    } else if c == '\t' {
        out.push('\\');
        out.push('t');
    } else if c == '\n' {
        out.push('\\');
        out.push('n');
    } else if c == '\r' {
        out.push('\\');
        out.push('r');
    } else {
        out.push(c);
    }
    assert(out@ =~= old(out)@ + printable_char(c));
}

fn to_printable(s: &Vec<char>) -> (out: Vec<char>)
    ensures
        out@ == printable(s@),
{
    let mut out: Vec<char> = Vec::new();
    let mut i: usize = 0;
    assert(s@.take(0) =~= Seq::<char>::empty());
    while i < s.len()
        invariant
            i <= s@.len(),
            out@ == printable(s@.take(i as int)),
        decreases s.len() - i,
    {
        assert(s@.take(i + 1).drop_last() =~= s@.take(i as int));
        push_printable(&mut out, s[i]);
        i += 1;
    }
    assert(s@.take(i as int) =~= s@);
    out
}

fn to_code_points(s: &Vec<char>) -> (out: Vec<char>)
    ensures
        out@ == code_points(s@),
{
    let mut out: Vec<char> = Vec::new();
    let mut i: usize = 0;
    assert(s@.take(0) =~= Seq::<char>::empty());
    while i < s.len()
        invariant
            i <= s@.len(),
            out@ == code_points(s@.take(i as int)),
        decreases s.len() - i,
    {
        assert(s@.take(i + 1).drop_last() =~= s@.take(i as int));
        if i != 0 {
            out.push(' ');
        }
        out.push('U');
        out.push('+');
        append(&mut out, &to_hex(code_point(s[i]), 4));
        assert(out@ =~= code_points(s@.take(i + 1)));
        i += 1;
    }
    assert(s@.take(i as int) =~= s@);
    out
}

fn push_hex_bytes(out: &mut Vec<char>, b: &Vec<u8>)
    ensures
        final(out)@ == old(out)@ + hex_bytes(b@),
{
    let mut i: usize = 0;
    assert(b@.take(0) =~= Seq::<u8>::empty());
    assert(out@ =~= old(out)@ + hex_bytes(b@.take(0)));
    while i < b.len()
        invariant
            i <= b@.len(),
            out@ == old(out)@ + hex_bytes(b@.take(i as int)),
        decreases b.len() - i,
    {
        assert(b@.take(i + 1).drop_last() =~= b@.take(i as int));
        out.push(' ');
        append(out, &to_hex(b[i] as u32, 2));
        assert(out@ =~= old(out)@ + hex_bytes(b@.take(i + 1)));
        i += 1;
    }
    assert(b@.take(i as int) =~= b@);
}

/// How `format!` writes a character with `{:?}`.
pub uninterp spec fn debug_char(c: char) -> Seq<char>;

/// `format!("{:?}", c)`: the character in single quotes, as `std::fmt::Debug` writes it.
#[verifier::external_body]
fn write_debug(c: char) -> (s: String)
    ensures
        s@ == debug_char(c),
{
    format!("{:?}", c)
}

/// What is told of a character that an encoding lacks.
pub open spec fn unmapped_message(c: char, encoding: Seq<char>) -> Seq<char> {
    debug_char(c) + " cannot be mapped to "@ + encoding
}

/// Tells what a grapheme cluster is. `encoded` holds the bytes of each of its characters in the
/// encoding of the document, whose name is `encoding`. An encoding may lack a character: the first
/// one that it lacks is the error.
pub fn describe_character(
    s: &Vec<char>,
    utf8: bool,
    ascii_compatible: bool,
    encoded: &Vec<Option<Vec<u8>>>,
    encoding: &str,
) -> (info: Result<String, String>)
    requires
        s@.len() > 0,
        4 * s@.len() <= usize::MAX,
        encoded@.len() == s@.len(),
    ensures
        info matches Ok(text) ==> (forall|k: int|
            0 <= k < encoded@.len() ==> (#[trigger] encoded@[k]) is Some) && text@
            == character_info(s@, utf8, ascii_compatible, encodings(encoded@)),
        info matches Err(m) ==> exists|at: int|
            {
                &&& 0 <= at < encoded@.len()
                &&& (#[trigger] encoded@[at]) is None
                &&& forall|k: int| 0 <= k < at ==> (#[trigger] encoded@[k]) is Some
                &&& m@ == unmapped_message(s@[at], encoding@)
            },
{
    let mut out: Vec<char> = Vec::new();
    out.push('"');
    append(&mut out, &to_printable(s));
    out.push('"');
    assert(out@ =~= seq!['"'] + printable(s@).push('"'));
    if utf8 {
        out.push(' ');
        out.push('(');
        append(&mut out, &to_code_points(s));
        out.push(')');
        assert(out@ =~= seq!['"'] + printable(s@).push('"') + (seq![' ', '('] + code_points(
            s@,
        ).push(')')));
    }
    let ghost shown = seq!['"'] + printable(s@).push('"') + (if utf8 {
        seq![' ', '('] + code_points(s@).push(')')
    } else {
        Seq::empty()
    });
    assert(out@ =~= shown);
    if ascii_compatible && crate::commands::insert::count_bytes(s) == 1 {
        append(&mut out, &to_chars(" Dec "));
        append(&mut out, &to_chars(to_decimal(code_point(s[0]) as usize).as_str()));
    }
    let ghost dec: Seq<char> = if ascii_compatible && bytes(s@) == 1 {
        " Dec "@ + decimal((s@[0] as int) as nat)
    } else {
        Seq::empty()
    };
    assert(out@ =~= shown + dec);
    append(&mut out, &to_chars(" Hex"));
    let ghost head = out@;
    let ghost all = encodings(encoded@);
    let mut i: usize = 0;
    assert(all.take(0) =~= Seq::<Seq<u8>>::empty());
    assert(out@ =~= head + hex_encodings(all.take(0)));
    while i < encoded.len()
        invariant
            i <= encoded@.len(),
            encoded@.len() == s@.len(),
            all == encodings(encoded@),
            forall|k: int| 0 <= k < i ==> (#[trigger] encoded@[k]) is Some,
            out@ == head + hex_encodings(all.take(i as int)),
        decreases encoded.len() - i,
    {
        assert(all.take(i + 1).drop_last() =~= all.take(i as int));
        match &encoded[i] {
            Some(b) => {
                if i != 0 {
                    out.push(' ');
                    out.push('+');
                }
                assert(all[i as int] == b@);
                push_hex_bytes(&mut out, b);
                assert(out@ =~= head + hex_encodings(all.take(i + 1)));
            },
            None => {
                let mut message = write_debug(s[i]);
                message.append(" cannot be mapped to ");
                message.append(encoding);
                assert(encoded@[i as int] is None);
                return Err(message);
            },
        }
        i += 1;
    }
    assert(all.take(i as int) =~= all);
    assert(out@ =~= character_info(s@, utf8, ascii_compatible, all));
    Ok(from_chars(&out))
}

/// The grapheme cluster under the primary cursor; none at the end of the text.
pub fn character_under_cursor(text: &Text, selection: &Selection) -> (found: Option<Vec<char>>)
    requires
        text.wf(),
        selection.wf(),
        selection.within(text@.len() as int),
    ensures
        ({
            let start = selection.ranges@[selection.primary_index as int].cursor_in(*text);
            let end = next_boundary(text.breaks@, start);
            match found {
                Some(s) => start < end && s@ == text@.subrange(start, end),
                None => start == end,
            }
        }),
        found matches Some(s) ==> 0 < s@.len() <= text@.len(),
{
    assert(selection.ranges@[selection.primary_index as int].within(text@.len() as int));
    let start = selection.primary().cursor(text);
    let end = text.next_grapheme_boundary(start);
    if start == end {
        return None;
    }
    Some(text.slice(start, end))
}

/// The UTF-8 encoding of a character.
pub open spec fn utf8(c: char) -> Seq<u8> {
    let n = c as int;
    if n < 0x80 {
        seq![n as u8]
    } else if n < 0x800 {
        seq![(0xC0 + n / 64) as u8, (0x80 + n % 64) as u8]
    } else if n < 0x10000 {
        seq![(0xE0 + n / 4096) as u8, (0x80 + n / 64 % 64) as u8, (0x80 + n % 64) as u8]
    } else {
        seq![
            (0xF0 + n / 262144) as u8,
            (0x80 + n / 4096 % 64) as u8,
            (0x80 + n / 64 % 64) as u8,
            (0x80 + n % 64) as u8,
        ]
    }
}

/// Encodes a character in UTF-8.
pub fn encode_utf8(c: char) -> (out: Vec<u8>)
    ensures
        out@ == utf8(c),
{
    let n = code_point(c);
    let mut out: Vec<u8> = Vec::new();
    if n < 0x80 {
        out.push(n as u8);
    } else if n < 0x800 {
        out.push((0xC0 + n / 64) as u8);
        out.push((0x80 + n % 64) as u8);
    } else if n < 0x10000 {
        out.push((0xE0 + n / 4096) as u8);
        out.push((0x80 + n / 64 % 64) as u8);
        out.push((0x80 + n % 64) as u8);
    } else {
        out.push((0xF0 + n / 262144) as u8);
        out.push((0x80 + n / 4096 % 64) as u8);
        out.push((0x80 + n / 64 % 64) as u8);
        out.push((0x80 + n % 64) as u8);
    }
    assert(out@ =~= utf8(c));
    out
}

/// Tells what the character under the primary cursor of a document in UTF-8 is.
pub fn get_character_info(text: &Text, selection: &Selection) -> (info: Option<String>)
    requires
        text.wf(),
        4 * text@.len() <= usize::MAX,
        selection.wf(),
        selection.within(text@.len() as int),
    ensures
        ({
            let start = selection.ranges@[selection.primary_index as int].cursor_in(*text);
            let end = next_boundary(text.breaks@, start);
            let s = text@.subrange(start, end);
            match info {
                Some(shown) => start < end && shown@ == character_info(
                    s,
                    true,
                    true,
                    s.map_values(|c: char| utf8(c)),
                ),
                None => start == end,
            }
        }),
{
    let s = match character_under_cursor(text, selection) {
        Some(s) => s,
        None => {
            return None;
        },
    };
    let mut encoded: Vec<Option<Vec<u8>>> = Vec::new();
    let mut i: usize = 0;
    while i < s.len()
        invariant
            i <= s@.len(),
            encoded@.len() == i,
            forall|k: int|
                0 <= k < i ==> ((#[trigger] encoded@[k]) matches Some(b) && b@ == utf8(s@[k])),
        decreases s.len() - i,
    {
        encoded.push(Some(encode_utf8(s[i])));
        i += 1;
    }
    assert(encodings(encoded@) =~= s@.map_values(|c: char| utf8(c)));
    match describe_character(&s, true, true, &encoded, "UTF-8") {
        Ok(shown) => Some(shown),
        Err(_) => {
            assert(false);
            None
        },
    }
}

/// The code point of a character that takes more than one byte in UTF-8 is what the bits of its
/// first byte behind the length, and the lower six bits of the others, write.
pub proof fn code_point_from_utf8(c: char)
    ensures
        ({
            let b = utf8(c);
            &&& b.len() == 2 ==> c as int == (b[0] - 0xC0) * 64 + (b[1] - 0x80)
            &&& b.len() == 3 ==> c as int == (b[0] - 0xE0) * 4096 + (b[1] - 0x80) * 64 + (b[2]
                - 0x80)
            &&& b.len() == 4 ==> c as int == (b[0] - 0xF0) * 262144 + (b[1] - 0x80) * 4096 + (b[2]
                - 0x80) * 64 + (b[3] - 0x80)
            &&& b.len() == 1 ==> c as int == b[0]
        }),
{
}

/// Characters are shown one after the other. None is shown as a zero character, a tab or a line
/// break, and a text without those is shown as it is.
pub proof fn shown_characters_stay_on_their_line(s: Seq<char>)
    ensures
        forall|k: int|
            0 <= k < printable(s).len() ==> {
                let c = #[trigger] printable(s)[k];
                c != '\0' && c != '\t' && c != '\n' && c != '\r'
            },
        !s.contains('\0') && !s.contains('\t') && !s.contains('\n') && !s.contains('\r')
            ==> printable(s) == s,
        printable(s).len() >= s.len(),
    decreases s.len(),
{
    if s.len() > 0 {
        let rest = s.drop_last();
        shown_characters_stay_on_their_line(rest);
        assert(forall|k: int| 0 <= k < rest.len() ==> rest[k] == #[trigger] s[k]);
        assert(s[s.len() - 1] == s.last());
        if !s.contains('\0') && !s.contains('\t') && !s.contains('\n') && !s.contains('\r') {
            assert(forall|c: char| rest.contains(c) ==> s.contains(c)) by {
                assert forall|c: char| rest.contains(c) implies s.contains(c) by {
                    let k = choose|k: int| 0 <= k < rest.len() && rest[k] == c;
                    assert(s[k] == c);
                }
            }
            assert(printable(s) =~= s);
        }
    }
}

/// A code point is shown behind `U+` with at least four digits, filled up with zeros; further ones
/// stand behind a space.
pub proof fn code_points_have_four_digits(s: Seq<char>, c: char)
    ensures
        ({
            let one = code_points(seq![c]);
            let digits = hex((c as int) as nat);
            &&& one[0] == 'U' && one[1] == '+'
            &&& one.len() >= 6
            &&& one.skip(one.len() - digits.len()) == digits
            &&& forall|k: int| 2 <= k < one.len() - digits.len() ==> one[k] == '0'
            &&& s.len() > 0 ==> code_points(s.push(c)) == code_points(s) + seq![' '] + one
        }),
{
    let digits = hex((c as int) as nat);
    let padded = zero_padded(digits, 4);
    crate::strings::zeros_fill_up_the_width(digits, 4);
    let one = code_points(seq![c]);
    assert(one =~= seq!['U', '+'] + padded);
    assert(one.skip(one.len() - digits.len()) =~= padded.skip(padded.len() - digits.len()));
    assert forall|k: int| 2 <= k < one.len() - digits.len() implies one[k] == '0' by {
        assert(one[k] == padded[k - 2]);
    }
    if s.len() > 0 {
        assert(s.push(c).drop_last() =~= s);
        assert(code_points(s.push(c)) =~= code_points(s) + seq![' '] + one);
    }
}

/// Each byte is shown with two digits behind a space.
pub proof fn bytes_have_two_digits(b: Seq<u8>, i: int)
    requires
        0 <= i < b.len(),
    ensures
        hex_bytes(b).len() == 3 * b.len(),
        hex_bytes(b)[3 * i] == ' ',
        hex_bytes(b).subrange(3 * i + 1, 3 * i + 3) == zero_padded(hex(b[i] as nat), 2),
    decreases b.len(),
{
    let n = b.last() as nat;
    let rest = b.drop_last();
    reveal_with_fuel(hex_bytes, 2);
    lemma_byte_digits(b.last());
    crate::strings::zeros_fill_up_the_width(hex(n), 2);
    if rest.len() > 0 {
        if i < rest.len() {
            bytes_have_two_digits(rest, i);
            assert(rest[i] == b[i]);
            assert(hex_bytes(b).subrange(3 * i + 1, 3 * i + 3) =~= hex_bytes(rest).subrange(
                3 * i + 1,
                3 * i + 3,
            ));
        } else {
            bytes_have_two_digits(rest, 0);
        }
    }
    if i == rest.len() {
        assert(hex_bytes(b).subrange(3 * i + 1, 3 * i + 3) =~= zero_padded(hex(n), 2));
    }
}

proof fn lemma_byte_digits(b: u8)
    ensures
        1 <= hex(b as nat).len() <= 2,
{
    reveal_with_fuel(hex, 3);
}

/// Characters are told of in quotes first; the decimal number is told of a single byte alone, and
/// only where the encoding contains ASCII.
pub proof fn characters_are_told_of_in_quotes(
    s: Seq<char>,
    utf8: bool,
    ascii_compatible: bool,
    encoded: Seq<Seq<u8>>,
)
    ensures
        ({
            let info = character_info(s, utf8, ascii_compatible, encoded);
            let shown = printable(s);
            &&& info[0] == '"' && info[shown.len() + 1 as int] == '"'
            &&& info.subrange(1, shown.len() + 1 as int) == shown
            &&& info.skip(info.len() - hex_encodings(encoded).len()) == hex_encodings(encoded)
            &&& utf8 ==> code_points(s).is_prefix_of(info.skip(shown.len() + 4 as int))
            &&& !(ascii_compatible && bytes(s) == 1) ==> info == character_info(
                s,
                utf8,
                false,
                encoded,
            )
        }),
{
    let info = character_info(s, utf8, ascii_compatible, encoded);
    let shown = printable(s);
    assert(info.subrange(1, shown.len() + 1 as int) =~= shown);
    let tail = hex_encodings(encoded);
    assert(info.skip(info.len() - tail.len()) =~= tail);
    if utf8 {
        let points = code_points(s);
        let behind = info.skip(shown.len() + 4 as int);
        assert(behind.take(points.len() as int) =~= points);
    }
}

} // verus!
