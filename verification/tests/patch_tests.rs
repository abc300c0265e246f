use fix_typelength_limit::patch::patch_limit;

fn patch(src: &[u8], limit: &[u8]) -> Vec<u8> {
    patch_limit(&src.to_vec(), &limit.to_vec())
}

#[test]
fn patch_replaces_value() {
    let src = b"#![type_length_limit = \"64\"]\nfn main() {}\n";
    let out = patch(src, b"128");
    assert_eq!(out, b"#![type_length_limit = \"128\"]\nfn main() {}\n".to_vec());
}

#[test]
fn patch_writes_digits_verbatim() {
    // no numeric reformatting, no leading-zero stripping
    let out = patch(b"#![type_length_limit = \"64\"]", b"0032");
    assert_eq!(out, b"#![type_length_limit = \"0032\"]".to_vec());
}

#[test]
fn patch_replaces_every_occurrence() {
    let src = b"#![type_length_limit = \"1\"]\n// type_length_limit = \"2\"\n";
    let out = patch(src, b"9");
    assert_eq!(out, b"#![type_length_limit = \"9\"]\n// type_length_limit = \"9\"\n".to_vec());
}

#[test]
fn patch_normalizes_directive_spacing() {
    let out = patch(b"#![type_length_limit   =  \"7\"]", b"8");
    assert_eq!(out, b"#![type_length_limit = \"8\"]".to_vec());
}

#[test]
fn patch_without_directive_is_noop() {
    let src = b"fn main() { println!(\"hello\"); }\n";
    assert_eq!(patch(src, b"128"), src.to_vec());
    assert_eq!(patch(b"", b"128"), b"".to_vec());
    // a malformed directive is not rewritten
    let odd = b"#![type_length_limit = \"\"]";
    assert_eq!(patch(odd, b"3"), odd.to_vec());
}

#[test]
fn patch_twice_is_patch_once() {
    let src = b"x\n#![type_length_limit=\"64\"]\ny\n".to_vec();
    let limit = b"256".to_vec();
    let once = patch_limit(&src, &limit);
    let twice = patch_limit(&once, &limit);
    assert_eq!(twice, once);
}

#[test]
fn patch_leaves_surrounding_bytes_unchanged() {
    let src = b"prefix type_length_limit = \"5\" suffix";
    let out = patch(src, b"50");
    assert_eq!(out, b"prefix type_length_limit = \"50\" suffix".to_vec());
}
