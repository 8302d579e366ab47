//! The macro transformer: rewrites `#define` lines into declarative
//! constructs.
//!
//! A line that holds a macro definition — the keyword `#define` as
//! the line's first non-whitespace token, then at least one whitespace
//! byte, a name of identifier bytes, and an optional value — is
//! replaced.  Without a value it becomes a conditional-compilation
//! marker keyed by the name; with a value it becomes a named constant
//! declaration binding the name to the value as an opaque string.
//! Every other line passes through unchanged, including one where the
//! keyword stands only after other non-whitespace text; the value runs
//! to the end of the line.

use vstd::prelude::*;
use crate::scan::{is_word_byte, skip_ws, skip_word, skip_ws_exec, skip_word_exec, word_byte};
use crate::bytes::lines_view;

verus! {

/// The bytes of the keyword `#define`.
pub open spec fn kw_define() -> Seq<u8> {
    seq![35u8, 100u8, 101u8, 102u8, 105u8, 110u8, 101u8]
}

/// The keyword `#define` stands at position `i`.
pub open spec fn kw_define_at(s: Seq<u8>, i: int) -> bool {
    0 <= i && i + 7 <= s.len() && s.subrange(i, i + 7) == kw_define()
}

/// A macro definition starts at position `i`: the keyword, at least
/// one whitespace byte, then at least one identifier byte.
pub open spec fn define_at(s: Seq<u8>, i: int) -> bool {
    kw_define_at(s, i) && {
        let j = skip_ws(s, i + 7);
        j > i + 7 && j < s.len() && is_word_byte(s[j])
    }
}

/// The line is a macro-definition line: the keyword is its first
/// non-whitespace token.
pub open spec fn is_define_line(s: Seq<u8>) -> bool {
    define_at(s, skip_ws(s, 0))
}

/// The macro's name: the maximal identifier-byte run after the
/// whitespace that follows the keyword.
pub open spec fn define_name(s: Seq<u8>, i: int) -> Seq<u8> {
    let j = skip_ws(s, i + 7);
    s.subrange(j, skip_word(s, j))
}

/// The macro's value: the rest of the line after the whitespace that
/// follows the name (possibly empty).
pub open spec fn define_value(s: Seq<u8>, i: int) -> Seq<u8> {
    let j = skip_ws(s, i + 7);
    s.subrange(skip_ws(s, skip_word(s, j)), s.len() as int)
}

/// The bytes of `#[cfg(`.
pub open spec fn cfg_open() -> Seq<u8> {
    seq![35u8, 91u8, 99u8, 102u8, 103u8, 40u8]
}

/// The bytes of `)]`.
pub open spec fn cfg_close() -> Seq<u8> {
    seq![41u8, 93u8]
}

/// The bytes of `const `.
pub open spec fn const_open() -> Seq<u8> {
    seq![99u8, 111u8, 110u8, 115u8, 116u8, 32u8]
}

/// The bytes of `: &str = "`.
pub open spec fn const_mid() -> Seq<u8> {
    seq![58u8, 32u8, 38u8, 115u8, 116u8, 114u8, 32u8, 61u8, 32u8, 34u8]
}

/// The bytes of `";`.
pub open spec fn const_end() -> Seq<u8> {
    seq![34u8, 59u8]
}

/// The conditional-compilation marker for a macro name.
pub open spec fn cfg_marker(name: Seq<u8>) -> Seq<u8> {
    cfg_open() + name + cfg_close()
}

/// The named constant declaration binding a macro name to a value.
pub open spec fn const_decl(name: Seq<u8>, value: Seq<u8>) -> Seq<u8> {
    const_open() + name + const_mid() + value + const_end()
}

/// What the transformer makes of one line.
pub open spec fn define_line_spec(s: Seq<u8>) -> Seq<u8> {
    let i = skip_ws(s, 0);
    if !is_define_line(s) {
        s
    } else if define_value(s, i).len() == 0 {
        cfg_marker(define_name(s, i))
    } else {
        const_decl(define_name(s, i), define_value(s, i))
    }
}

/// What the transformer makes of a whole text: each line rewritten
/// independently.
pub open spec fn handle_macros_spec(lines: Seq<Seq<u8>>) -> Seq<Seq<u8>> {
    lines.map_values(|l: Seq<u8>| define_line_spec(l))
}

fn define_head_at(line: &Vec<u8>, i: usize) -> (r: bool)
    requires
        i < line@.len(),
    ensures
        r == define_at(line@, i as int),
{
    let len = line.len();
    if len - i < 7 {
        proof {
            assert(!kw_define_at(line@, i as int));
        }
        return false;
    }
    let kw = line[i] == 35 && line[i + 1] == 100 && line[i + 2] == 101 && line[i + 3] == 102
        && line[i + 4] == 105 && line[i + 5] == 110 && line[i + 6] == 101;
    if !kw {
        proof {
            if kw_define_at(line@, i as int) {
                assert(line@.subrange(i as int, i + 7)[0] == kw_define()[0]);
                assert(line@.subrange(i as int, i + 7)[1] == kw_define()[1]);
                assert(line@.subrange(i as int, i + 7)[2] == kw_define()[2]);
                assert(line@.subrange(i as int, i + 7)[3] == kw_define()[3]);
                assert(line@.subrange(i as int, i + 7)[4] == kw_define()[4]);
                assert(line@.subrange(i as int, i + 7)[5] == kw_define()[5]);
                assert(line@.subrange(i as int, i + 7)[6] == kw_define()[6]);
            }
        }
        return false;
    }
    proof {
        assert(line@.subrange(i as int, i + 7) =~= kw_define());
    }
    let j = skip_ws_exec(line, i + 7);
    j > i + 7 && j < len && word_byte(line[j])
}

/// Start of a macro definition anchored at the line's first
/// non-whitespace byte, if the line is a macro-definition line.
fn define_start_exec(line: &Vec<u8>) -> (r: Option<usize>)
    ensures
        match r {
            Some(i) => is_define_line(line@) && i as int == skip_ws(line@, 0),
            None => !is_define_line(line@),
        },
{
    let i = skip_ws_exec(line, 0);
    if i < line.len() && define_head_at(line, i) {
        Some(i)
    } else {
        proof {
            if i == line@.len() {
                assert(!kw_define_at(line@, i as int));
            }
        }
        None
    }
}

/// Rewrites one line: a macro definition becomes a marker or a
/// constant declaration, any other line is returned unchanged.
pub fn transform_macro_line(line: &Vec<u8>) -> (r: Vec<u8>)
    ensures
        r@ == define_line_spec(line@),
{
    match define_start_exec(line) {
        None => crate::bytes::copy_line(line),
        Some(i) => {
            let len = line.len();
            proof {
                assert(i + 7 <= line@.len());
            }
            let j = skip_ws_exec(line, i + 7);
            let name_end = skip_word_exec(line, j);
            let val_start = skip_ws_exec(line, name_end);
            let mut r: Vec<u8> = Vec::new();
            if val_start == len {
                // no value: conditional-compilation marker
                r.push(35);
                r.push(91);
                r.push(99);
                r.push(102);
                r.push(103);
                r.push(40);
                proof {
                    assert(r@ =~= cfg_open());
                }
                crate::bytes::append_range(&mut r, line, j, name_end);
                r.push(41);
                r.push(93);
                proof {
                    assert(define_value(line@, i as int).len() == 0);
                    assert(r@ =~= cfg_marker(define_name(line@, i as int)));
                }
            } else {
                // a value: named constant declaration
                r.push(99);
                r.push(111);
                r.push(110);
                r.push(115);
                r.push(116);
                r.push(32);
                proof {
                    assert(r@ =~= const_open());
                }
                crate::bytes::append_range(&mut r, line, j, name_end);
                r.push(58);
                r.push(32);
                r.push(38);
                r.push(115);
                r.push(116);
                r.push(114);
                r.push(32);
                r.push(61);
                r.push(32);
                r.push(34);
                proof {
                    assert(r@ =~= const_open() + define_name(line@, i as int) + const_mid());
                }
                crate::bytes::append_range(&mut r, line, val_start, len);
                r.push(34);
                r.push(59);
                proof {
                    assert(define_value(line@, i as int).len() > 0);
                    assert(r@ =~= const_decl(
                        define_name(line@, i as int),
                        define_value(line@, i as int),
                    ));
                }
            }
            r
        },
    }
}

/// Rewrites a whole text, line by line.
pub fn handle_macros(lines: &Vec<Vec<u8>>) -> (r: Vec<Vec<u8>>)
    ensures
        lines_view(r@) == handle_macros_spec(lines_view(lines@)),
{
    let mut r: Vec<Vec<u8>> = Vec::new();
    let mut i: usize = 0;
    while i < lines.len()
        invariant
            i <= lines@.len(),
            lines_view(r@) == handle_macros_spec(lines_view(lines@)).subrange(0, i as int),
        decreases lines@.len() - i,
    {
        let t = transform_macro_line(&lines[i]);
        crate::bytes::push_line(&mut r, t);
        proof {
            assert(lines_view(r@) =~= handle_macros_spec(lines_view(lines@)).subrange(0, i + 1));
        }
        i = i + 1;
    }
    proof {
        assert(handle_macros_spec(lines_view(lines@)).subrange(
            0,
            lines@.len() as int,
        ) =~= handle_macros_spec(lines_view(lines@)));
    }
    r
}

/// Idempotence at the fixed point: a text in which no line holds a
/// macro definition is left exactly as it is.
pub proof fn lemma_handle_macros_idempotent(lines: Seq<Seq<u8>>)
    requires
        forall|t: int| 0 <= t < lines.len() ==> !is_define_line(#[trigger] lines[t]),
    ensures
        handle_macros_spec(lines) == lines,
{
    assert forall|t: int| 0 <= t < lines.len() implies #[trigger] handle_macros_spec(lines)[t]
        == lines[t] by {
        assert(define_line_spec(lines[t]) == lines[t]);
    }
    assert(handle_macros_spec(lines) =~= lines);
}

} // verus!
