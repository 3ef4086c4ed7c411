//! Strings as sequences of characters, and numbers as strings.

use vstd::prelude::*;

verus! {

/// `String::push`: puts a character behind the string.
pub assume_specification[ String::push ](s: &mut String, c: char)
    ensures
        final(s)@ == old(s)@.push(c),
;

/// The characters of a string.
pub fn to_chars(s: &str) -> (chars: Vec<char>)
    ensures
        chars@ == s@,
{
    broadcast use vstd::string::axiom_spec_iter;

    let mut chars: Vec<char> = Vec::new();
    for c in it: s.chars()
        invariant
            it.seq() == s@,
            chars@ == s@.take(it.index() as int),
    {
        chars.push(c);
        assert(s@.take(it.index() + 1) =~= s@.take(it.index() as int).push(c));
    }
    assert(s@.take(s@.len() as int) =~= s@);
    chars
}

/// The string of some characters.
pub fn from_chars(chars: &Vec<char>) -> (s: String)
    ensures
        s@ == chars@,
{
    let mut s = String::new();
    let mut i: usize = 0;
    while i < chars.len()
        invariant
            i <= chars@.len(),
            s@ == chars@.take(i as int),
        decreases chars.len() - i,
    {
        s.push(chars[i]);
        assert(chars@.take(i + 1) =~= chars@.take(i as int).push(chars@[i as int]));
        i += 1;
    }
    assert(chars@.take(i as int) =~= chars@);
    s
}

/// The decimal digit of `d`.
pub open spec fn digit(d: int) -> char {
    (('0' as u8) + d) as char
}

/// The decimal representation of `n`.
pub open spec fn decimal(n: nat) -> Seq<char>
    decreases n,
{
    if n < 10 {
        seq![digit(n as int)]
    } else {
        decimal(n / 10).push(digit((n % 10) as int))
    }
}

/// Writes `n` in decimal.
pub fn to_decimal(n: usize) -> (s: String)
    ensures
        s@ == decimal(n as nat),
    decreases n,
{
    let mut s = if n < 10 {
        String::new()
    } else {
        to_decimal(n / 10)
    };
    let d: u8 = (n % 10) as u8;
    let c: char = (48u8 + d) as char;
    s.push(c);
    assert(s@ =~= decimal(n as nat));
    s
}

/// `a` comes before `b` in a dictionary that orders characters by their code points.
pub open spec fn comes_before(a: Seq<char>, b: Seq<char>) -> bool
    decreases a.len(),
{
    if b.len() == 0 {
        false
    } else if a.len() == 0 {
        true
    } else if a[0] != b[0] {
        (a[0] as int) < (b[0] as int)
    } else {
        comes_before(a.skip(1), b.skip(1))
    }
}

/// Of two different texts exactly one comes before the other.
pub proof fn lemma_comes_before_total(a: Seq<char>, b: Seq<char>)
    ensures
        a == b ==> !comes_before(a, b),
        a != b ==> comes_before(a, b) != comes_before(b, a),
    decreases a.len(),
{
    if a.len() == 0 || b.len() == 0 {
        if a.len() == 0 && b.len() == 0 {
            assert(a =~= b);
        }
    } else if a[0] == b[0] {
        lemma_comes_before_total(a.skip(1), b.skip(1));
        if a.skip(1) == b.skip(1) {
            assert(a =~= seq![a[0]] + a.skip(1));
            assert(b =~= seq![b[0]] + b.skip(1));
        }
        assert(comes_before(b, a) == comes_before(b.skip(1), a.skip(1)));
        assert(comes_before(a, b) == comes_before(a.skip(1), b.skip(1)));
    } else {
        assert(a[0] as int != b[0] as int);
    }
}

/// The order is transitive.
pub proof fn lemma_comes_before_transitive(a: Seq<char>, b: Seq<char>, c: Seq<char>)
    requires
        comes_before(a, b),
        comes_before(b, c),
    ensures
        comes_before(a, c),
    decreases a.len(),
{
    if a.len() > 0 && a[0] == b[0] && b[0] == c[0] {
        lemma_comes_before_transitive(a.skip(1), b.skip(1), c.skip(1));
    }
}

/// The code point of a character.
pub fn code_point(c: char) -> (n: u32)
    ensures
        n as int == c as int,
{
    c as u32
}

/// Whether `a` comes before `b`.
pub fn is_before(a: &Vec<char>, b: &Vec<char>) -> (before: bool)
    ensures
        before == comes_before(a@, b@),
{
    let mut i: usize = 0;
    assert(a@.skip(0) =~= a@);
    assert(b@.skip(0) =~= b@);
    while i < a.len() && i < b.len()
        invariant
            i <= a@.len(),
            i <= b@.len(),
            comes_before(a@, b@) == comes_before(a@.skip(i as int), b@.skip(i as int)),
        decreases a.len() - i,
    {
        if a[i] != b[i] {
            return code_point(a[i]) < code_point(b[i]);
        }
        assert(a@.skip(i as int).skip(1) =~= a@.skip(i + 1));
        assert(b@.skip(i as int).skip(1) =~= b@.skip(i + 1));
        i += 1;
    }
    i < b.len()
}

/// Texts in order, each once.
pub open spec fn ascending(parts: Seq<Seq<char>>) -> bool {
    forall|i: int, j: int|
        0 <= i < j < parts.len() ==> comes_before(#[trigger] parts[i], #[trigger] parts[j])
}

/// The characters of each part.
pub open spec fn views(parts: Seq<Vec<char>>) -> Seq<Seq<char>> {
    parts.map_values(|p: Vec<char>| p@)
}

/// Puts a text in its place among ordered ones, unless it is there already.
fn insert_distinct(sorted: &mut Vec<Vec<char>>, part: Vec<char>)
    requires
        ascending(views(old(sorted)@)),
    ensures
        ascending(views(final(sorted)@)),
        forall|x: Seq<char>| #[trigger]
            views(final(sorted)@).contains(x) <==> views(old(sorted)@).contains(x) || x == part@,
{
    let ghost before = views(sorted@);
    let mut at: usize = 0;
    while at < sorted.len() && is_before(&sorted[at], &part)
        invariant
            at <= sorted@.len(),
            before == views(sorted@),
            forall|k: int| 0 <= k < at ==> comes_before(#[trigger] before[k], part@),
        decreases sorted.len() - at,
    {
        assert(before[at as int] == sorted@[at as int]@);
        at += 1;
    }
    if at < sorted.len() {
        assert(before[at as int] == sorted@[at as int]@);
        proof {
            lemma_comes_before_total(sorted@[at as int]@, part@);
        }
        if !is_before(&part, &sorted[at]) {
            assert(before.contains(part@));
            return ;
        }
    }
    sorted.insert(at, part);
    let ghost after = views(sorted@);
    proof {
        assert(after =~= before.take(at as int).push(part@) + before.skip(at as int));
        assert forall|i: int, j: int| 0 <= i < j < after.len() implies comes_before(
            #[trigger] after[i],
            #[trigger] after[j],
        ) by {
            if j < at {
                assert(comes_before(before[i], before[j]));
            } else if j == at {
                assert(comes_before(before[i], part@));
            } else if i > at {
                assert(comes_before(before[i - 1], before[j - 1]));
            } else {
                if j - 1 > at {
                    assert(comes_before(before[at as int], before[j - 1]));
                    lemma_comes_before_transitive(part@, before[at as int], before[j - 1]);
                }
                if i < at {
                    assert(comes_before(before[i], part@));
                    lemma_comes_before_transitive(before[i], part@, before[j - 1]);
                }
            }
        }
        assert forall|x: Seq<char>| #[trigger] after.contains(x) <==> before.contains(x) || x
            == part@ by {
            if after.contains(x) {
                let k = choose|k: int| 0 <= k < after.len() && after[k] == x;
                if k < at {
                    assert(before[k] == x);
                } else if k > at {
                    assert(before[k - 1] == x);
                }
            }
            if before.contains(x) {
                let k = choose|k: int| 0 <= k < before.len() && before[k] == x;
                if k < at {
                    assert(after[k] == x);
                } else {
                    assert(after[k + 1] == x);
                }
            }
            if x == part@ {
                assert(after[at as int] == x);
            }
        }
    }
}

/// The first `limit` of some texts, in order and each once.
pub fn sorted_distinct(parts: &Vec<Vec<char>>, limit: usize) -> (sorted: Vec<Vec<char>>)
    ensures
        ascending(views(sorted@)),
        forall|x: Seq<char>| #[trigger]
            views(sorted@).contains(x) <==> exists|k: int|
                0 <= k < parts@.len() && k < limit && (#[trigger] parts@[k])@ == x,
{
    let mut sorted: Vec<Vec<char>> = Vec::new();
    let mut i: usize = 0;
    while i < parts.len() && i < limit
        invariant
            i <= parts@.len(),
            i <= limit,
            ascending(views(sorted@)),
            forall|x: Seq<char>| #[trigger]
                views(sorted@).contains(x) <==> exists|k: int|
                    0 <= k < i && (#[trigger] parts@[k])@ == x,
        decreases parts.len() - i,
    {
        let part = crate::transaction::copy_chars(&parts[i]);
        let ghost before = views(sorted@);
        insert_distinct(&mut sorted, part);
        proof {
            assert forall|x: Seq<char>| #[trigger] views(sorted@).contains(x) <==> exists|k: int|
                0 <= k < i + 1 && (#[trigger] parts@[k])@ == x by {
                assert(before.contains(x) <==> exists|k: int|
                    0 <= k < i && (#[trigger] parts@[k])@ == x);
                if x == parts@[i as int]@ {
                    assert(parts@[i as int]@ == x);
                }
            }
        }
        i += 1;
    }
    sorted
}

/// `c` is a decimal digit.
pub open spec fn is_digit(c: char) -> bool {
    '0' as int <= c as int <= '9' as int
}

/// Nothing but decimal digits.
pub open spec fn all_digits(s: Seq<char>) -> bool {
    forall|i: int| 0 <= i < s.len() ==> is_digit(#[trigger] s[i])
}

/// The number that some decimal digits write.
pub open spec fn digits_value(s: Seq<char>) -> nat
    decreases s.len(),
{
    if s.len() == 0 {
        0
    } else {
        10 * digits_value(s.drop_last()) + (s.last() as int - '0' as int) as nat
    }
}

/// The digits of a number: what follows a plus sign, or all of it.
pub open spec fn unsigned_digits(s: Seq<char>) -> Seq<char> {
    if s.len() > 0 && s[0] == '+' {
        s.skip(1)
    } else {
        s
    }
}

/// The number that `s` writes: digits, with or without a plus sign before them.
pub open spec fn unsigned(s: Seq<char>) -> Option<nat> {
    let digits = unsigned_digits(s);
    if digits.len() > 0 && all_digits(digits) {
        Some(digits_value(digits))
    } else {
        None
    }
}

/// Reads a number that is not negative and fits a machine word.
pub fn parse_usize(s: &Vec<char>) -> (n: Option<usize>)
    ensures
        (match n {
            Some(n) => Some(n as nat),
            None => None,
        }) == (match unsigned(s@) {
            Some(v) if v <= usize::MAX => Some(v),
            _ => None,
        }),
{
    let ghost digits = unsigned_digits(s@);
    let start: usize = if s.len() > 0 && s[0] == '+' {
        1
    } else {
        0
    };
    assert(digits =~= s@.skip(start as int));
    if start == s.len() {
        return None;
    }
    let mut value: usize = 0;
    let mut i: usize = start;
    assert(digits.take(0) =~= Seq::<char>::empty());
    while i < s.len()
        invariant
            start <= i <= s@.len(),
            start < s@.len(),
            digits == unsigned_digits(s@),
            digits == s@.skip(start as int),
            all_digits(digits.take(i - start)),
            value == digits_value(digits.take(i - start)),
        decreases s.len() - i,
    {
        let c = s[i];
        assert(c == digits[i - start]);
        let code = code_point(c);
        if code < 48 || code > 57 {
            assert(!is_digit(digits[i - start]));
            return None;
        }
        let d: usize = (code - 48) as usize;
        proof {
            assert(digits.take(i - start + 1).drop_last() =~= digits.take(i - start));
            assert(digits_value(digits.take(i - start + 1)) == 10 * value + d);
            lemma_digits_value_prefix(digits, i - start + 1);
        }
        if value > (usize::MAX - d) / 10 {
            return None;
        }
        value = value * 10 + d;
        proof {
            assert forall|k: int| 0 <= k < i - start + 1 implies is_digit(
                #[trigger] digits.take(i - start + 1)[k],
            ) by {
                if k < i - start {
                    assert(digits.take(i - start)[k] == digits[k]);
                    assert(is_digit(digits.take(i - start)[k]));
                }
            }
        }
        i += 1;
    }
    assert(digits.take(i - start) =~= digits);
    Some(value)
}

/// More digits write a number that is no smaller.
proof fn lemma_digits_value_prefix(s: Seq<char>, n: int)
    requires
        0 <= n <= s.len(),
    ensures
        all_digits(s) ==> digits_value(s.take(n)) <= digits_value(s),
    decreases s.len(),
{
    if n < s.len() {
        lemma_digits_value_prefix(s.drop_last(), n);
        assert(s.drop_last().take(n) =~= s.take(n));
        if all_digits(s) {
            assert(is_digit(s[s.len() - 1]));
            assert(all_digits(s.drop_last())) by {
                assert forall|i: int| 0 <= i < s.len() - 1 implies is_digit(
                    #[trigger] s.drop_last()[i],
                ) by {
                    assert(is_digit(s[i]));
                }
            }
        }
    } else {
        assert(s.take(n) =~= s);
    }
}

/// A digit reads as the number it was written for.
proof fn lemma_digit(d: int)
    requires
        0 <= d < 10,
    ensures
        is_digit(digit(d)),
        digit(d) as int - '0' as int == d,
{
}

/// Reading a number that was written in decimal gives it back.
pub proof fn reading_undoes_writing(n: nat)
    ensures
        unsigned(decimal(n)) == Some(n),
{
    lemma_decimal_digits(n);
    let s = decimal(n);
    assert(is_digit(s[0]));
    assert(s[0] != '+');
    assert(unsigned_digits(s) == s);
}

pub proof fn lemma_decimal_digits(n: nat)
    ensures
        all_digits(decimal(n)),
        decimal(n).len() > 0,
        digits_value(decimal(n)) == n,
    decreases n,
{
    let s = decimal(n);
    lemma_digit((n % 10) as int);
    if n < 10 {
        assert(s.drop_last() =~= Seq::<char>::empty());
        assert(digits_value(s.drop_last()) == 0);
    } else {
        lemma_decimal_digits(n / 10);
        assert(s.drop_last() =~= decimal(n / 10));
        assert forall|i: int| 0 <= i < s.len() implies is_digit(#[trigger] s[i]) by {
            if i < s.len() - 1 {
                assert(is_digit(decimal(n / 10)[i]));
            }
        }
    }
}

/// `c` with a capital letter from A to Z made small.
pub open spec fn lower(c: char) -> char {
    if 'A' as int <= c as int <= 'Z' as int {
        (c as int + 32) as char
    } else {
        c
    }
}

/// `s` with the capital letters from A to Z made small.
pub open spec fn lowered(s: Seq<char>) -> Seq<char> {
    s.map_values(|c: char| lower(c))
}

/// Makes a capital letter from A to Z small.
pub fn to_lower(c: char) -> (out: char)
    ensures
        out == lower(c),
{
    let code = code_point(c);
    if 65 <= code && code <= 90 {
        (code + 32) as u8 as char
    } else {
        c
    }
}

/// Makes the capital letters from A to Z small.
pub fn to_lowered(s: &Vec<char>) -> (out: Vec<char>)
    ensures
        out@ == lowered(s@),
{
    let mut out: Vec<char> = Vec::new();
    let mut i: usize = 0;
    while i < s.len()
        invariant
            i <= s@.len(),
            out@.len() == i,
            forall|j: int| 0 <= j < i ==> out@[j] == lower(s@[j]),
        decreases s.len() - i,
    {
        out.push(to_lower(s[i]));
        i += 1;
    }
    assert(out@ =~= lowered(s@));
    out
}

/// The hexadecimal digit of `d`.
pub open spec fn hex_digit(d: int) -> char {
    if d < 10 {
        ('0' as int + d) as char
    } else {
        ('a' as int + (d - 10)) as char
    }
}

/// The hexadecimal representation of `n`.
pub open spec fn hex(n: nat) -> Seq<char>
    decreases n,
{
    if n < 16 {
        seq![hex_digit(n as int)]
    } else {
        hex(n / 16).push(hex_digit((n % 16) as int))
    }
}

/// `s` with zeros before it up to a width.
pub open spec fn zero_padded(s: Seq<char>, width: int) -> Seq<char> {
    if s.len() < width {
        crate::transaction::repeated(seq!['0'], (width - s.len()) as nat) + s
    } else {
        s
    }
}

/// Writes `n` in hexadecimal.
fn push_hex(out: &mut Vec<char>, n: u32)
    ensures
        final(out)@ == old(out)@ + hex(n as nat),
    decreases n,
{
    if n >= 16 {
        push_hex(out, n / 16);
    }
    let d: u8 = (n % 16) as u8;
    let c: char = if d < 10 {
        (48u8 + d) as char
    } else {
        (87u8 + d) as char
    };
    out.push(c);
    assert(out@ =~= old(out)@ + hex(n as nat));
}

/// Writes `n` in hexadecimal, with zeros before it up to a width.
pub fn to_hex(n: u32, width: usize) -> (out: Vec<char>)
    ensures
        out@ == zero_padded(hex(n as nat), width as int),
{
    let mut digits: Vec<char> = Vec::new();
    push_hex(&mut digits, n);
    assert(digits@ =~= hex(n as nat));
    if digits.len() >= width {
        return digits;
    }
    let mut zero: Vec<char> = Vec::new();
    zero.push('0');
    assert(zero@ =~= seq!['0']);
    let mut out = crate::transaction::repeat(&zero, width - digits.len());
    crate::transaction::append(&mut out, &digits);
    out
}

/// Ten times a number is written as the number with a zero behind it, and the next number with its
/// last digit raised by one, unless that is a nine.
pub proof fn numbers_are_written_by_tens(n: nat)
    ensures
        n > 0 ==> decimal(10 * n) == decimal(n).push('0'),
        n < 10 ==> decimal(n).len() == 1 && decimal(n)[0] as int == '0' as int + n,
        n % 10 < 9 ==> decimal(n + 1).drop_last() == decimal(n).drop_last() && decimal(n + 1).last()
            as int == decimal(n).last() as int + 1,
{
    lemma_digit((n % 10) as int);
    if n > 0 {
        assert((10 * n) / 10 == n && (10 * n) % 10 == 0);
        assert(digit(0) == '0');
    }
    if n % 10 < 9 {
        lemma_digit(((n + 1) % 10) as int);
        if n >= 10 {
            assert((n + 1) / 10 == n / 10);
            assert(decimal(n + 1).drop_last() =~= decimal(n / 10));
            assert(decimal(n).drop_last() =~= decimal(n / 10));
        } else {
            assert(decimal(n + 1).drop_last() =~= Seq::<char>::empty());
            assert(decimal(n).drop_last() =~= Seq::<char>::empty());
        }
    }
}

/// Sixteen times a number is written in hexadecimal as the number with a zero behind it; the digits
/// are those from 0 to 9 and then the small letters from a to f.
pub proof fn numbers_are_written_by_sixteens(n: nat)
    ensures
        n > 0 ==> hex(16 * n) == hex(n).push('0'),
        n < 10 ==> hex(n) == decimal(n),
        10 <= n < 16 ==> hex(n).len() == 1 && hex(n)[0] as int == 'a' as int + (n - 10),
        n % 16 < 15 && n >= 16 ==> hex(n + 1).drop_last() == hex(n).drop_last(),
{
    if n > 0 {
        assert((16 * n) / 16 == n && (16 * n) % 16 == 0);
        assert(hex_digit(0) == '0');
    }
    if n < 10 {
        lemma_digit(n as int);
        assert(hex(n) =~= decimal(n));
    }
    if n % 16 < 15 && n >= 16 {
        assert((n + 1) / 16 == n / 16);
        assert(hex(n + 1).drop_last() =~= hex(n / 16));
        assert(hex(n).drop_last() =~= hex(n / 16));
    }
}

/// A padded text is as wide as asked for, or as it was where it is wider; it ends with what it was,
/// and only zeros stand before that.
pub proof fn zeros_fill_up_the_width(s: Seq<char>, width: int)
    ensures
        ({
            let out = zero_padded(s, width);
            &&& out.len() == (if s.len() < width {
                width
            } else {
                s.len() as int
            })
            &&& out.skip(out.len() - s.len()) == s
            &&& forall|k: int| 0 <= k < out.len() - s.len() ==> out[k] == '0'
        }),
{
    let out = zero_padded(s, width);
    if s.len() < width {
        let n = (width - s.len()) as nat;
        lemma_zeros(n);
        assert(out.skip(out.len() - s.len()) =~= s);
    } else {
        assert(out.skip(0) =~= s);
    }
}

proof fn lemma_zeros(n: nat)
    ensures
        crate::transaction::repeated(seq!['0'], n).len() == n,
        forall|k: int| 0 <= k < n ==> crate::transaction::repeated(seq!['0'], n)[k] == '0',
    decreases n,
{
    if n > 0 {
        lemma_zeros((n - 1) as nat);
    }
}

/// Of two texts the one comes first that has the lower character where they first differ; where one
/// begins the other, it comes first.
pub proof fn the_first_difference_decides(
    common: Seq<char>,
    x: char,
    y: char,
    a: Seq<char>,
    b: Seq<char>,
)
    ensures
        (x as int) < (y as int) ==> comes_before(common.push(x) + a, common.push(y) + b),
        (x as int) < (y as int) ==> !comes_before(common.push(y) + b, common.push(x) + a),
        comes_before(common, common.push(x) + a),
        !comes_before(common.push(x) + a, common),
        !comes_before(common, common),
    decreases common.len(),
{
    let (s, t) = (common.push(x) + a, common.push(y) + b);
    if common.len() > 0 {
        let rest = common.skip(1);
        the_first_difference_decides(rest, x, y, a, b);
        assert(s.skip(1) =~= rest.push(x) + a);
        assert(t.skip(1) =~= rest.push(y) + b);
        assert(s[0] == common[0] && t[0] == common[0]);
    } else {
        assert(s[0] == x && t[0] == y);
    }
}

/// Making letters small changes capital letters alone, each to the small letter of its place in the
/// alphabet; doing it twice changes nothing more.
pub proof fn only_capital_letters_are_made_small(s: Seq<char>, i: int)
    requires
        0 <= i < s.len(),
    ensures
        lowered(s).len() == s.len(),
        'A' as int <= s[i] as int <= 'Z' as int ==> lowered(s)[i] as int - 'a' as int == s[i] as int
            - 'A' as int,
        !('A' as int <= s[i] as int <= 'Z' as int) ==> lowered(s)[i] == s[i],
        lowered(lowered(s)) == lowered(s),
{
    assert forall|k: int| 0 <= k < s.len() implies lowered(lowered(s))[k] == lowered(s)[k] by {
        let c = s[k];
        if 'A' as int <= c as int <= 'Z' as int {
            assert(lower(c) as int == c as int + 32);
        }
    }
    assert(lowered(lowered(s)) =~= lowered(s));
}

} // verus!
