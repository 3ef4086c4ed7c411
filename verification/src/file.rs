//! Telling binary files from text by their leading bytes.

use vstd::prelude::*;

verus! {

/// `bytes` begins with `magic`.
pub open spec fn begins_with(bytes: Seq<u8>, magic: Seq<u8>) -> bool {
    bytes.len() >= magic.len() && bytes.subrange(0, magic.len() as int) == magic
}

/// `bytes` begins with one of the Unicode byte-order marks.
pub open spec fn has_byte_order_mark(bytes: Seq<u8>) -> bool {
    ||| begins_with(bytes, seq![0xEFu8, 0xBB, 0xBF])
    ||| begins_with(bytes, seq![0x00u8, 0x00, 0xFE, 0xFF])
    ||| begins_with(bytes, seq![0xFFu8, 0xFE, 0x00, 0x00])
    ||| begins_with(bytes, seq![0xFEu8, 0xFF])
    ||| begins_with(bytes, seq![0xFFu8, 0xFE])
}

/// `bytes` begins with the header of a PDF, PNG, JPEG, GIF or WebP file.
pub open spec fn has_signature(bytes: Seq<u8>) -> bool {
    ||| begins_with(bytes, seq![0x25u8, 0x50, 0x44, 0x46])
    ||| begins_with(bytes, seq![0x89u8, 0x50, 0x4E, 0x47])
    ||| begins_with(bytes, seq![0xFFu8, 0xD8, 0xFF])
    ||| begins_with(bytes, seq![0x47u8, 0x49, 0x46, 0x38, 0x37, 0x61])
    ||| begins_with(bytes, seq![0x47u8, 0x49, 0x46, 0x38, 0x39, 0x61])
    ||| (begins_with(bytes, seq![0x52u8, 0x49, 0x46, 0x46]) && bytes.len() >= 12
        && bytes.subrange(8, 12) == seq![0x57u8, 0x45, 0x42, 0x50])
}

/// A zero byte stands among the first 1024 bytes.
pub open spec fn has_early_nul(bytes: Seq<u8>) -> bool {
    exists|i: int| 0 <= i < bytes.len() && i < 1024 && bytes[i] == 0
}

/// Whether `buffer` begins with `magic`.
fn starts_with(buffer: &[u8], magic: &[u8]) -> (found: bool)
    ensures
        found == begins_with(buffer@, magic@),
{
    if buffer.len() < magic.len() {
        return false;
    }
    let mut i: usize = 0;
    while i < magic.len()
        invariant
            i <= magic.len() <= buffer.len(),
            forall|j: int| 0 <= j < i ==> buffer@[j] == magic@[j],
        decreases magic.len() - i,
    {
        if buffer[i] != magic[i] {
            assert(buffer@.subrange(0, magic@.len() as int)[i as int] != magic@[i as int]);
            return false;
        }
        i += 1;
    }
    assert(buffer@.subrange(0, magic@.len() as int) =~= magic@);
    true
}

/// Recognizes binary headers even when an explicit text encoding was requested.
pub fn has_binary_signature(buffer: &[u8]) -> (found: bool)
    ensures
        found == has_signature(buffer@),
{
    let pdf: [u8; 4] = [0x25, 0x50, 0x44, 0x46];
    let png: [u8; 4] = [0x89, 0x50, 0x4E, 0x47];
    let jpeg: [u8; 3] = [0xFF, 0xD8, 0xFF];
    let gif87: [u8; 6] = [0x47, 0x49, 0x46, 0x38, 0x37, 0x61];
    let gif89: [u8; 6] = [0x47, 0x49, 0x46, 0x38, 0x39, 0x61];
    let riff: [u8; 4] = [0x52, 0x49, 0x46, 0x46];
    assert(pdf@ =~= seq![0x25u8, 0x50, 0x44, 0x46]);
    assert(png@ =~= seq![0x89u8, 0x50, 0x4E, 0x47]);
    assert(jpeg@ =~= seq![0xFFu8, 0xD8, 0xFF]);
    assert(gif87@ =~= seq![0x47u8, 0x49, 0x46, 0x38, 0x37, 0x61]);
    assert(gif89@ =~= seq![0x47u8, 0x49, 0x46, 0x38, 0x39, 0x61]);
    assert(riff@ =~= seq![0x52u8, 0x49, 0x46, 0x46]);
    if starts_with(buffer, &pdf) || starts_with(buffer, &png) || starts_with(buffer, &jpeg)
        || starts_with(buffer, &gif87) || starts_with(buffer, &gif89) {
        return true;
    }
    if !starts_with(buffer, &riff) || buffer.len() < 12 {
        return false;
    }
    let webp: bool = buffer[8] == 0x57 && buffer[9] == 0x45 && buffer[10] == 0x42 && buffer[11]
        == 0x50;
    proof {
        let tag = buffer@.subrange(8, 12);
        assert(tag[0] == buffer@[8] && tag[1] == buffer@[9] && tag[2] == buffer@[10] && tag[3]
            == buffer@[11]);
        if webp {
            assert(tag =~= seq![0x57u8, 0x45, 0x42, 0x50]);
        }
    }
    webp
}

/// Heuristic "is this a binary (non-text) file?" check over a leading chunk of a file.
///
/// A leading byte-order mark marks the content as text: UTF-16 and UTF-32 text contains zero
/// bytes, so it is excluded before the scan for them. Otherwise a zero byte in the first
/// kilobyte, or a known binary header, means binary.
pub fn is_binary(buffer: &[u8]) -> (binary: bool)
    ensures
        binary == (!has_byte_order_mark(buffer@) && (has_early_nul(buffer@) || has_signature(
            buffer@,
        ))),
{
    let utf8: [u8; 3] = [0xEF, 0xBB, 0xBF];
    let utf32be: [u8; 4] = [0x00, 0x00, 0xFE, 0xFF];
    let utf32le: [u8; 4] = [0xFF, 0xFE, 0x00, 0x00];
    let utf16be: [u8; 2] = [0xFE, 0xFF];
    let utf16le: [u8; 2] = [0xFF, 0xFE];
    assert(utf8@ =~= seq![0xEFu8, 0xBB, 0xBF]);
    assert(utf32be@ =~= seq![0x00u8, 0x00, 0xFE, 0xFF]);
    assert(utf32le@ =~= seq![0xFFu8, 0xFE, 0x00, 0x00]);
    assert(utf16be@ =~= seq![0xFEu8, 0xFF]);
    assert(utf16le@ =~= seq![0xFFu8, 0xFE]);
    if starts_with(buffer, &utf8) || starts_with(buffer, &utf32be) || starts_with(buffer, &utf32le)
        || starts_with(buffer, &utf16be) || starts_with(buffer, &utf16le) {
        return false;
    }
    let mut i: usize = 0;
    while i < buffer.len() && i < 1024
        invariant
            i <= buffer.len(),
            i <= 1024,
            !has_byte_order_mark(buffer@),
            forall|j: int| 0 <= j < i ==> buffer@[j] != 0,
        decreases buffer.len() - i,
    {
        if buffer[i] == 0 {
            assert(has_early_nul(buffer@));
            return true;
        }
        i += 1;
    }
    assert(!has_early_nul(buffer@));
    has_binary_signature(buffer)
}

/// Text that carries a byte-order mark is never taken for binary, whatever follows the mark.
pub proof fn marked_text_has_no_signature(bytes: Seq<u8>)
    requires
        has_byte_order_mark(bytes),
    ensures
        !has_signature(bytes),
{
    let first = bytes[0];
    let second = bytes[1];
    assert(bytes.len() >= 2);
    assert(forall|magic: Seq<u8>|
        #![trigger begins_with(bytes, magic)]
        begins_with(bytes, magic) && magic.len() >= 2 ==> first == magic[0] && second == magic[1])
    by {
        assert forall|magic: Seq<u8>|
            #![trigger begins_with(bytes, magic)]
            begins_with(bytes, magic) && magic.len() >= 2 implies first == magic[0] && second
            == magic[1] by {
            assert(bytes.subrange(0, magic.len() as int)[0] == bytes[0]);
            assert(bytes.subrange(0, magic.len() as int)[1] == bytes[1]);
        }
    }
}

/// Only a zero byte in the first 1024 bytes counts, wherever in them it stands.
pub proof fn zero_bytes_count_at_the_beginning(bytes: Seq<u8>)
    ensures
        bytes.len() <= 1024 ==> (has_early_nul(bytes) <==> bytes.contains(0)),
        bytes.len() > 1024 ==> (has_early_nul(bytes) <==> bytes.take(1024).contains(0)),
{
    let front = if bytes.len() > 1024 {
        bytes.take(1024)
    } else {
        bytes
    };
    if has_early_nul(bytes) {
        let i = choose|i: int| 0 <= i < bytes.len() && i < 1024 && bytes[i] == 0;
        assert(front[i] == 0);
    }
    if front.contains(0) {
        let i = choose|i: int| 0 <= i < front.len() && front[i] == 0;
        assert(bytes[i] == 0);
    }
}

} // verus!
