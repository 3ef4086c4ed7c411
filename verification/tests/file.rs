use mitos::file::{has_binary_signature, is_binary};

#[test]
fn plain_text_is_not_binary() {
    assert!(!is_binary(b"fn main() {}\n"));
    assert!(!is_binary(b""));
    assert!(is_binary(b"ab\0c"));
    assert!(has_binary_signature(b"%PDF-1.7"));
}
