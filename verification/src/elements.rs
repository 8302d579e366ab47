//! Element extraction: finding the lines that look like function
//! definitions and turning each into a `CodeElement`.
//!
//! Recognition is line-local and heuristic, as the design prescribes:
//! a line is a candidate when somewhere in it an identifier-like token,
//! at least one whitespace byte, a second identifier-like token and an
//! opening parenthesis stand in a row (the two tokens play the role of
//! return type and name), and a closing parenthesis followed only by
//! whitespace and an opening brace stands later in the same line.
//! Signatures that span several lines are deliberately not recognized.

use vstd::prelude::*;
use crate::scan::{back_word, back_ws, skip_ws, back_word_exec, back_ws_exec, skip_ws_exec};
use crate::bytes::lines_view;

verus! {

/// One detected function definition: a stable identity derived from
/// the line position, the position itself, and the literal line.
pub struct CodeElement {
    pub identity: usize,
    pub origin_line: usize,
    pub raw_text: Vec<u8>,
}

/// Ghost model of an element: its identity and its raw text.
pub open spec fn elems_model(es: Seq<CodeElement>) -> Seq<(int, Seq<u8>)> {
    es.map_values(|e: CodeElement| (e.identity as int, e.raw_text@))
}

/// A well-formed element carries its origin line as its identity.
pub open spec fn wf_elem(e: CodeElement) -> bool {
    e.identity == e.origin_line
}

/// The byte before position `m` ends `word, whitespace, word,
/// whitespace?` when scanned backwards maximally: a return-type-like
/// token, then an identifier-like token, then optional spacing.
pub open spec fn fndef_prefix_ok(s: Seq<u8>, m: int) -> bool {
    let d = back_ws(s, m);
    let c = back_word(s, d);
    let b = back_ws(s, c);
    let a = back_word(s, b);
    c < d && b < c && a < b
}

/// Position `n` holds a closing parenthesis followed by optional
/// whitespace and an opening brace.
pub open spec fn close_at(s: Seq<u8>, n: int) -> bool {
    0 <= n < s.len() && s[n] == 41 && {
        let p = skip_ws(s, n + 1);
        p < s.len() && s[p] == 123
    }
}

/// Position `m` holds the opening parenthesis of a function-definition
/// pattern.
pub open spec fn fndef_at(s: Seq<u8>, m: int) -> bool {
    &&& 0 <= m < s.len()
    &&& s[m] == 40
    &&& fndef_prefix_ok(s, m)
    &&& exists|n: int| m < n < s.len() && close_at(s, n)
}

/// The line structurally resembles a function definition.
pub open spec fn is_fn_def_line(s: Seq<u8>) -> bool {
    exists|m: int| fndef_at(s, m)
}

fn has_close_after(line: &Vec<u8>, m: usize) -> (r: bool)
    requires
        m < line@.len(),
    ensures
        r == exists|n: int| m < n < line@.len() && close_at(line@, n),
{
    let len = line.len();
    let mut n: usize = m + 1;
    while n < len
        invariant
            len == line@.len(),
            m < n <= line@.len(),
            forall|t: int| m < t < n ==> !close_at(line@, t),
        decreases line@.len() - n,
    {
        if line[n] == 41 {
            let p = skip_ws_exec(line, n + 1);
            if p < line.len() && line[p] == 123 {
                proof {
                    assert(close_at(line@, n as int));
                }
                return true;
            }
        }
        n = n + 1;
    }
    false
}

/// Decides whether the line structurally resembles a function
/// definition.
pub fn is_fn_def(line: &Vec<u8>) -> (r: bool)
    ensures
        r == is_fn_def_line(line@),
{
    let mut m: usize = 0;
    while m < line.len()
        invariant
            m <= line@.len(),
            forall|t: int| 0 <= t < m ==> !fndef_at(line@, t),
        decreases line@.len() - m,
    {
        if line[m] == 40 {
            let d = back_ws_exec(line, m);
            let c = back_word_exec(line, d);
            let b = back_ws_exec(line, c);
            let a = back_word_exec(line, b);
            if c < d && b < c && a < b {
                if has_close_after(line, m) {
                    proof {
                        assert(fndef_at(line@, m as int));
                    }
                    return true;
                }
            }
        }
        m = m + 1;
    }
    false
}

/// The elements of the first `n` lines: one `(position, raw text)`
/// pair for every line that resembles a function definition, in line
/// order.
pub open spec fn extract_spec(lines: Seq<Seq<u8>>, n: int) -> Seq<(int, Seq<u8>)>
    decreases n,
{
    if n <= 0 {
        Seq::empty()
    } else if is_fn_def_line(lines[n - 1]) {
        extract_spec(lines, n - 1).push((n - 1, lines[n - 1]))
    } else {
        extract_spec(lines, n - 1)
    }
}

/// Every extracted pair points at a matching line, and positions grow
/// strictly in extraction order.
pub proof fn lemma_extract_spec(lines: Seq<Seq<u8>>, n: int)
    requires
        0 <= n <= lines.len(),
    ensures
        forall|t: int|
            #![trigger extract_spec(lines, n)[t]]
            0 <= t < extract_spec(lines, n).len() ==> {
                &&& 0 <= extract_spec(lines, n)[t].0 < n
                &&& extract_spec(lines, n)[t].1 == lines[extract_spec(lines, n)[t].0]
                &&& is_fn_def_line(lines[extract_spec(lines, n)[t].0])
            },
        forall|t: int, u: int|
            0 <= t < u < extract_spec(lines, n).len() ==> #[trigger] extract_spec(lines, n)[t].0
                < #[trigger] extract_spec(lines, n)[u].0,
    decreases n,
{
    if n > 0 {
        lemma_extract_spec(lines, n - 1);
        let prev = extract_spec(lines, n - 1);
        let cur = extract_spec(lines, n);
        if is_fn_def_line(lines[n - 1]) {
            assert(cur == prev.push((n - 1, lines[n - 1])));
            assert forall|t: int|
                0 <= t < cur.len() implies {
                &&& 0 <= #[trigger] cur[t].0 < n
                &&& cur[t].1 == lines[cur[t].0]
                &&& is_fn_def_line(lines[cur[t].0])
            } by {
                if t < prev.len() {
                    assert(cur[t] == prev[t]);
                } else {
                    assert(cur[t] == (n - 1, lines[n - 1]));
                }
            }
            assert forall|t: int, u: int| 0 <= t < u < cur.len() implies #[trigger] cur[t].0
                < #[trigger] cur[u].0 by {
                if u < prev.len() {
                    assert(cur[t] == prev[t] && cur[u] == prev[u]);
                } else {
                    assert(cur[u] == (n - 1, lines[n - 1]));
                    assert(cur[t] == prev[t]);
                    assert(prev[t].0 < n - 1);
                }
            }
        } else {
            assert(cur == prev);
        }
    }
}

/// Scans the lines and creates one element per candidate line, with
/// its identity derived from its position.
pub fn extract_elements(lines: &Vec<Vec<u8>>) -> (r: Vec<CodeElement>)
    ensures
        elems_model(r@) == extract_spec(lines_view(lines@), lines@.len() as int),
        forall|t: int| 0 <= t < r@.len() ==> wf_elem(#[trigger] r@[t]),
{
    let mut r: Vec<CodeElement> = Vec::new();
    let mut i: usize = 0;
    while i < lines.len()
        invariant
            i <= lines@.len(),
            elems_model(r@) == extract_spec(lines_view(lines@), i as int),
            forall|t: int| 0 <= t < r@.len() ==> wf_elem(#[trigger] r@[t]),
        decreases lines@.len() - i,
    {
        if is_fn_def(&lines[i]) {
            let raw = crate::bytes::copy_line(&lines[i]);
            let e = CodeElement { identity: i, origin_line: i, raw_text: raw };
            proof {
                assert(lines_view(lines@)[i as int] == lines@[i as int]@);
                assert(elems_model(r@.push(e)) =~= elems_model(r@).push(
                    (i as int, lines@[i as int]@),
                ));
            }
            r.push(e);
        }
        i = i + 1;
    }
    r
}

} // verus!
