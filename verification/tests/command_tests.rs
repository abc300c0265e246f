use fix_typelength_limit::command::split_tokens;

fn split(s: &[u8]) -> Vec<Vec<u8>> {
    split_tokens(&s.to_vec())
}

#[test]
fn split_program_and_arguments() {
    assert_eq!(
        split(b"cargo build --release"),
        vec![b"cargo".to_vec(), b"build".to_vec(), b"--release".to_vec()]
    );
}

#[test]
fn split_single_token() {
    assert_eq!(split(b"make"), vec![b"make".to_vec()]);
}

#[test]
fn split_empty_line_is_one_empty_token() {
    assert_eq!(split(b""), vec![b"".to_vec()]);
}

#[test]
fn split_keeps_empty_fields() {
    assert_eq!(split(b"a  b"), vec![b"a".to_vec(), b"".to_vec(), b"b".to_vec()]);
    assert_eq!(split(b" x "), vec![b"".to_vec(), b"x".to_vec(), b"".to_vec()]);
}
