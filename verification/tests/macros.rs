use cpreproc::defines::{handle_macros, transform_macro_line};

fn line(s: &str) -> Vec<u8> {
    s.as_bytes().to_vec()
}

fn lines(ls: &[&str]) -> Vec<Vec<u8>> {
    ls.iter().map(|s| line(s)).collect()
}

fn text(ls: &[Vec<u8>]) -> Vec<String> {
    ls.iter().map(|l| String::from_utf8(l.clone()).unwrap()).collect()
}

#[test]
fn define_without_value_becomes_marker() {
    let r = transform_macro_line(&line("#define DEBUG"));
    assert_eq!(String::from_utf8(r).unwrap(), "#[cfg(DEBUG)]");
}

#[test]
fn define_with_value_becomes_constant() {
    let r = transform_macro_line(&line("#define MAX 100"));
    assert_eq!(String::from_utf8(r).unwrap(), "const MAX: &str = \"100\";");
}

#[test]
fn value_is_an_opaque_string() {
    let r = transform_macro_line(&line("#define PI 3.14159"));
    assert_eq!(String::from_utf8(r).unwrap(), "const PI: &str = \"3.14159\";");
}

#[test]
fn transform_is_a_pure_per_line_function() {
    let a = transform_macro_line(&line("#define DEBUG"));
    let b = transform_macro_line(&line("#define DEBUG"));
    assert_eq!(a, b);
    let c = transform_macro_line(&line("#define X 5"));
    let d = transform_macro_line(&line("#define X 5"));
    assert_eq!(c, d);
    assert_eq!(String::from_utf8(c).unwrap(), "const X: &str = \"5\";");
}

#[test]
fn non_ascii_macro_name_is_recognized() {
    // the macro name may hold a multi-byte UTF-8 character (U+00E9)
    let mut l = line("#define P");
    l.extend_from_slice(&[0xC3, 0xA9]);
    l.extend_from_slice(b" 1");
    let r = transform_macro_line(&l);
    let mut expected = line("const P");
    expected.extend_from_slice(&[0xC3, 0xA9]);
    expected.extend_from_slice(b": &str = \"1\";");
    assert_eq!(r, expected);
}

#[test]
fn non_macro_line_passes_through() {
    let r = transform_macro_line(&line("int x = 5;"));
    assert_eq!(String::from_utf8(r).unwrap(), "int x = 5;");
}

#[test]
fn definition_found_after_leading_whitespace() {
    let r = transform_macro_line(&line("  #define A 1"));
    assert_eq!(String::from_utf8(r).unwrap(), "const A: &str = \"1\";");
}

#[test]
fn text_before_the_keyword_passes_through() {
    // the keyword must be the line's first non-whitespace token
    let r = transform_macro_line(&line("x #define A 1"));
    assert_eq!(String::from_utf8(r).unwrap(), "x #define A 1");
    let r2 = transform_macro_line(&line("int x; #define Y 1"));
    assert_eq!(String::from_utf8(r2).unwrap(), "int x; #define Y 1");
}

#[test]
fn trailing_spaces_belong_to_the_value() {
    let r = transform_macro_line(&line("#define A 1 "));
    assert_eq!(String::from_utf8(r).unwrap(), "const A: &str = \"1 \";");
}

#[test]
fn keyword_without_whitespace_does_not_match() {
    let r = transform_macro_line(&line("#defineX 1"));
    assert_eq!(String::from_utf8(r).unwrap(), "#defineX 1");
}

#[test]
fn only_trailing_whitespace_means_no_value() {
    let r = transform_macro_line(&line("#define FLAG   "));
    assert_eq!(String::from_utf8(r).unwrap(), "#[cfg(FLAG)]");
}

#[test]
fn stage_rewrites_each_line_independently() {
    let out = handle_macros(&lines(&["#define DEBUG", "int x;", "#define MAX 100"]));
    assert_eq!(
        text(&out),
        vec!["#[cfg(DEBUG)]", "int x;", "const MAX: &str = \"100\";"]
    );
}

#[test]
fn stage_leaves_macro_free_text_unchanged() {
    let input = lines(&["int a;", "// a note", "", "int f() {"]);
    let out = handle_macros(&input);
    assert_eq!(out, input);
}
