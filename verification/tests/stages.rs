use cpreproc::elements::{extract_elements, is_fn_def};
use cpreproc::graph::build_graph;
use cpreproc::pipeline::reorder_elements;
use cpreproc::reassemble::reassemble;
use cpreproc::toposort::topo_sort;

fn line(s: &str) -> Vec<u8> {
    s.as_bytes().to_vec()
}

fn lines(ls: &[&str]) -> Vec<Vec<u8>> {
    ls.iter().map(|s| line(s)).collect()
}

fn text(ls: &[Vec<u8>]) -> Vec<String> {
    ls.iter().map(|l| String::from_utf8(l.clone()).unwrap()).collect()
}

#[test]
fn two_matched_elements_keep_their_order() {
    // two matched elements: identities in extraction order, one edge,
    // sorter output in the same order, f's marker and line before g's
    let input = lines(&["int f() {", "int g() {"]);
    let elements = extract_elements(&input);
    assert_eq!(elements.len(), 2);
    assert_eq!(elements[0].identity, 0);
    assert_eq!(elements[1].identity, 1);
    let ids: Vec<usize> = elements.iter().map(|e| e.identity).collect();
    let g = build_graph(&ids);
    assert_eq!(g.nodes, vec![0, 1]);
    assert_eq!(g.edges, vec![(0, 1)]);
    let order = topo_sort(&g.nodes, &g.edges).unwrap();
    assert_eq!(order, vec![0, 1]);
    let out = reassemble(&order, &elements);
    assert_eq!(
        text(&out),
        vec![
            "// Function start: Function_0",
            "int f() {",
            "// Function start: Function_1",
            "int g() {",
        ]
    );
}

#[test]
fn reorder_stage_emits_markers_in_extraction_order() {
    let out = reorder_elements(&lines(&["int f() {", "int g() {"])).unwrap();
    assert_eq!(
        text(&out),
        vec![
            "// Function start: Function_0",
            "int f() {",
            "// Function start: Function_1",
            "int g() {",
        ]
    );
}

#[test]
fn extractor_records_position_and_raw_text() {
    let input = lines(&["", "int main() {", "}"]);
    let elements = extract_elements(&input);
    assert_eq!(elements.len(), 1);
    assert_eq!(elements[0].identity, 1);
    assert_eq!(elements[0].origin_line, 1);
    assert_eq!(String::from_utf8(elements[0].raw_text.clone()).unwrap(), "int main() {");
}

#[test]
fn detection_needs_brace_on_the_same_line() {
    assert!(!is_fn_def(&line("int f()")));
    assert!(!is_fn_def(&line("int f(void);")));
}

#[test]
fn detection_needs_two_tokens() {
    assert!(!is_fn_def(&line("f() {")));
    assert!(is_fn_def(&line("int f() {")));
}

#[test]
fn detection_allows_spacing() {
    assert!(is_fn_def(&line("int f ( void ) {")));
    assert!(is_fn_def(&line("static long compute_sum(int a, int b)   {")));
}

#[test]
fn detection_accepts_non_ascii_identifiers() {
    // a function name holding a multi-byte UTF-8 character (here
    // U+00E9) is still an identifier-like token
    let mut l = line("int f");
    l.extend_from_slice(&[0xC3, 0xA9]);
    l.extend_from_slice(b"() {");
    assert!(is_fn_def(&l));
}

#[test]
fn detection_is_a_structural_heuristic() {
    // line-local pattern matching, not parsing: control flow that has
    // the same shape is also picked up
    assert!(is_fn_def(&line("} else if (x) {")));
}

#[test]
fn marker_carries_the_line_number() {
    let mut ls = vec![String::new(); 12];
    ls.push("int f() {".to_string());
    let refs: Vec<&str> = ls.iter().map(|s| s.as_str()).collect();
    let out = reorder_elements(&lines(&refs)).unwrap();
    assert_eq!(text(&out), vec!["// Function start: Function_12", "int f() {"]);
}

#[test]
fn empty_input_reorders_to_empty() {
    let out = reorder_elements(&lines(&[])).unwrap();
    assert!(out.is_empty());
}

#[test]
fn text_without_elements_reorders_to_empty() {
    // only matched lines are reproduced by the reassembler
    let out = reorder_elements(&lines(&["int x;", "// note"])).unwrap();
    assert!(out.is_empty());
}
