use cpreproc::headers::{header_target, inline_headers};
use cpreproc::pipeline::preprocess;

fn line(s: &str) -> Vec<u8> {
    s.as_bytes().to_vec()
}

fn lines(ls: &[&str]) -> Vec<Vec<u8>> {
    ls.iter().map(|s| line(s)).collect()
}

fn text(ls: &[Vec<u8>]) -> Vec<String> {
    ls.iter().map(|l| String::from_utf8(l.clone()).unwrap()).collect()
}

fn directive(name: &str) -> String {
    format!("{}{}", "#inclu", format!("de \"{}\"", name))
}

#[test]
fn directive_names_its_header() {
    let t = header_target(&line(&directive("util.h"))).unwrap();
    assert_eq!(String::from_utf8(t).unwrap(), "util.h");
}

#[test]
fn plain_line_names_no_header() {
    assert!(header_target(&line("int x;")).is_none());
    assert!(header_target(&line("")).is_none());
}

#[test]
fn quote_must_follow_whitespace() {
    let no_space = format!("{}{}", "#inclu", "de\"a.h\"");
    assert!(header_target(&line(&no_space)).is_none());
}

#[test]
fn name_ends_at_the_next_closing_quote() {
    let l = format!("{} \"b.txt\"", directive("a.h"));
    let t = header_target(&line(&l)).unwrap();
    assert_eq!(String::from_utf8(t).unwrap(), "a.h");
}

#[test]
fn directive_found_after_leading_whitespace() {
    let l = format!("  {}", directive("util.h"));
    let t = header_target(&line(&l)).unwrap();
    assert_eq!(String::from_utf8(t).unwrap(), "util.h");
}

#[test]
fn text_before_the_directive_passes_through() {
    // the keyword must be the line's first non-whitespace token
    let l = format!("int x; {}", directive("a.h"));
    assert!(header_target(&line(&l)).is_none());
    let input = vec![line(&l)];
    let contents: Vec<Option<Vec<Vec<u8>>>> = vec![None];
    let (out, missing) = inline_headers(&input, &contents);
    assert_eq!(text(&out), vec![l]);
    assert!(missing.is_empty());
}

#[test]
fn any_quoted_file_name_is_a_directive() {
    let t = header_target(&line(&directive("config.txt"))).unwrap();
    assert_eq!(String::from_utf8(t).unwrap(), "config.txt");
    let t2 = header_target(&line(&directive("a.hh"))).unwrap();
    assert_eq!(String::from_utf8(t2).unwrap(), "a.hh");
}

#[test]
fn empty_quoted_name_is_not_a_directive() {
    let l = format!("{}{}", "#inclu", "de \"\"");
    assert!(header_target(&line(&l)).is_none());
}

#[test]
fn missing_header_without_h_suffix_is_dropped_with_a_warning() {
    let input = vec![line(&directive("a.hh")), line("int a;")];
    let contents: Vec<Option<Vec<Vec<u8>>>> = vec![None, None];
    let (out, missing) = inline_headers(&input, &contents);
    assert_eq!(text(&out), vec!["int a;"]);
    assert_eq!(text(&missing), vec!["a.hh"]);
}

#[test]
fn readable_header_without_h_suffix_is_inlined() {
    let input = vec![line(&directive("defs.inc.txt")), line("int a;")];
    let contents: Vec<Option<Vec<Vec<u8>>>> =
        vec![Some(lines(&["int t() {", "}"])), None];
    let (out, missing) = inline_headers(&input, &contents);
    assert_eq!(text(&out), vec!["int t() {", "}", "int a;"]);
    assert!(missing.is_empty());
}

#[test]
fn missing_header_is_dropped_with_a_warning() {
    // the output holds neither the directive line nor any substituted
    // content, and processing runs to completion
    let input = vec![line(&directive("missing.h")), line("int a;")];
    let contents: Vec<Option<Vec<Vec<u8>>>> = vec![None, None];
    let (out, missing) = inline_headers(&input, &contents);
    assert_eq!(text(&out), vec!["int a;"]);
    assert_eq!(text(&missing), vec!["missing.h"]);
}

#[test]
fn readable_header_replaces_its_directive() {
    let input = vec![line(&directive("util.h")), line("int a;")];
    let contents: Vec<Option<Vec<Vec<u8>>>> =
        vec![Some(lines(&["int h() {", "}"])), None];
    let (out, missing) = inline_headers(&input, &contents);
    assert_eq!(text(&out), vec!["int h() {", "}", "int a;"]);
    assert!(missing.is_empty());
}

#[test]
fn pipeline_runs_all_stages() {
    let input = vec![line(&directive("util.h")), line("int f() {")];
    let contents: Vec<Option<Vec<Vec<u8>>>> = vec![Some(lines(&["int h() {"])), None];
    let (out, missing) = preprocess(&input, &contents).unwrap();
    assert_eq!(
        text(&out),
        vec![
            "// Function start: Function_0",
            "int h() {",
            "// Function start: Function_1",
            "int f() {",
        ]
    );
    assert!(missing.is_empty());
}

#[test]
fn pipeline_surfaces_missing_headers_and_continues() {
    let input = vec![line(&directive("gone.h")), line("int f() {")];
    let contents: Vec<Option<Vec<Vec<u8>>>> = vec![None, None];
    let (out, missing) = preprocess(&input, &contents).unwrap();
    assert_eq!(text(&out), vec!["// Function start: Function_0", "int f() {"]);
    assert_eq!(text(&missing), vec!["gone.h"]);
}

#[test]
fn pipeline_rewrites_surviving_macro_line() {
    // a block-bodied function-like macro is picked up as an element by
    // the structural heuristic, so its line reaches the macro stage
    let input = lines(&["#define BLOCK(x) { x }"]);
    let contents: Vec<Option<Vec<Vec<u8>>>> = vec![None];
    let (out, _) = preprocess(&input, &contents).unwrap();
    assert_eq!(
        text(&out),
        vec![
            "// Function start: Function_0",
            "const BLOCK: &str = \"(x) { x }\";",
        ]
    );
}

#[test]
fn pipeline_drops_unmatched_content() {
    // macro lines are not elements, so the reorder stage leaves them
    // out before the macro stage ever sees them
    let input = lines(&["#define MAX 100", "int f() {"]);
    let contents: Vec<Option<Vec<Vec<u8>>>> = vec![None, None];
    let (out, _) = preprocess(&input, &contents).unwrap();
    assert_eq!(text(&out), vec!["// Function start: Function_1", "int f() {"]);
}
