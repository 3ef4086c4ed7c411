use mitos::commands::characters::{
    character_under_cursor, describe_character, encode_utf8, get_character_info,
};
use mitos::selection::Selection;
use mitos::text::Text;

fn text(s: &str) -> Text {
    Text::from_chars(s.chars().collect())
}

#[test]
fn characters_are_described() {
    let info = |s: &str, at| get_character_info(&text(s), &Selection::point(at));
    assert_eq!(info("A", 0).unwrap(), "\"A\" (U+0041) Dec 65 Hex 41");
    assert_eq!(info("é", 0).unwrap(), "\"é\" (U+00e9) Hex c3 a9");
    assert_eq!(info("\n", 0).unwrap(), "\"\\n\" (U+000a) Dec 10 Hex 0a");
    assert_eq!(info("😀", 0).unwrap(), "\"😀\" (U+1f600) Hex f0 9f 98 80");
    assert_eq!(info("A", 1), None);
}

#[test]
fn clusters_are_described_together() {
    let text = Text::new(vec!['e', '\u{301}', 'x'], vec![0, 2, 3]).unwrap();
    assert_eq!(
        get_character_info(&text, &Selection::point(0)).unwrap(),
        "\"e\u{301}\" (U+0065 U+0301) Hex 65 + cc 81"
    );
    assert_eq!(
        character_under_cursor(&text, &Selection::point(0)),
        Some(vec!['e', '\u{301}'])
    );
}

#[test]
fn other_encodings_may_lack_a_character() {
    let s = vec!['a', '€'];
    let encoded = vec![Some(vec![0x61]), None];
    assert_eq!(
        describe_character(&s, false, true, &encoded, "IBM866").err().unwrap(),
        "'€' cannot be mapped to IBM866"
    );
    let encoded = vec![None, None];
    assert_eq!(
        describe_character(&vec!['\n', 'b'], false, true, &encoded, "IBM866").err().unwrap(),
        "'\\n' cannot be mapped to IBM866"
    );
    let encoded = vec![Some(vec![0x61]), Some(vec![0x80])];
    assert_eq!(
        describe_character(&s, false, true, &encoded, "windows-1252").unwrap(),
        "\"a€\" Hex 61 + 80"
    );
}

#[test]
fn utf8_is_encoded() {
    for c in ['a', 'ß', '€', '😀'] {
        assert_eq!(encode_utf8(c), c.to_string().into_bytes());
    }
}
