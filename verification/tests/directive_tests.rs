use fix_typelength_limit::directive::extract_limit;

fn extract(text: &[u8]) -> Option<Vec<u8>> {
    extract_limit(&text.to_vec())
}

#[test]
fn extract_basic() {
    let stderr = b"error: reached the type-length limit while instantiating x\n\
                   note: consider adding a `#![type_length_limit = \"128\"]` attribute\n"
        .to_vec();
    assert_eq!(extract_limit(&stderr), Some(b"128".to_vec()));
}

#[test]
fn extract_preserves_digits_verbatim() {
    assert_eq!(extract(b"type_length_limit = \"007\""), Some(b"007".to_vec()));
    assert_eq!(extract(b"type_length_limit = \"0\""), Some(b"0".to_vec()));
    assert_eq!(
        extract(b"type_length_limit = \"18446744073709551616\""),
        Some(b"18446744073709551616".to_vec())
    );
}

#[test]
fn extract_first_of_several() {
    assert_eq!(
        extract(b"type_length_limit = \"64\" and then type_length_limit = \"256\""),
        Some(b"64".to_vec())
    );
}

#[test]
fn extract_accepts_any_spacing() {
    assert_eq!(extract(b"type_length_limit=\"99\""), Some(b"99".to_vec()));
    assert_eq!(extract(b"type_length_limit   =   \"5\""), Some(b"5".to_vec()));
    assert_eq!(extract(b"type_length_limit =\"12\""), Some(b"12".to_vec()));
}

#[test]
fn extract_none_on_unrelated_error() {
    assert_eq!(extract(b"error[E0308]: mismatched types\n --> src/main.rs:1:1\n"), None);
    assert_eq!(extract(b""), None);
}

#[test]
fn extract_none_on_malformed_directive() {
    // no digits at all
    assert_eq!(extract(b"type_length_limit = \"\""), None);
    // digits not closed by a quote
    assert_eq!(extract(b"type_length_limit = \"12x\""), None);
    assert_eq!(extract(b"type_length_limit = \"345"), None);
    // no equals sign
    assert_eq!(extract(b"type_length_limit \"77\""), None);
    // key truncated
    assert_eq!(extract(b"type_length_limi = \"77\""), None);
}

#[test]
fn extract_skips_earlier_malformed_text() {
    assert_eq!(
        extract(b"type_length_limit = \"x\" ... type_length_limit = \"42\""),
        Some(b"42".to_vec())
    );
}
