//! The inliner for quoted header directives.
//!
//! A line that holds the C preprocessor's quoted file-insertion
//! directive — the byte `#` followed by the letters of that keyword,
//! whitespace, and a double-quoted file name of at least one byte —
//! names a header file.  The stage replaces such a line by the named
//! file's full content when the caller could read it, drops the line
//! and records a warning when it could not, and passes every other
//! line through unchanged.  Reading the files is the caller's part;
//! this stage is a pure function from the text and the read results to
//! the new text.
//!
//! A directive is recognized only when the keyword is the line's
//! first non-whitespace token; the quoted name ends at the next
//! closing quote.  Resolution is single-level: inlined content is not
//! scanned again.

use vstd::prelude::*;
use crate::scan::{skip_ws, skip_ws_exec};
use crate::bytes::lines_view;

verus! {

/// The directive keyword: `#` followed by the seven letters of the
/// C file-insertion keyword.
pub open spec fn kw_directive() -> Seq<u8> {
    seq![35u8, 105u8, 110u8, 99u8, 108u8, 117u8, 100u8, 101u8]
}

/// The directive keyword stands at position `i`.
pub open spec fn kw_directive_at(s: Seq<u8>, i: int) -> bool {
    0 <= i && i + 8 <= s.len() && s.subrange(i, i + 8) == kw_directive()
}

/// First position at or after `e` holding a double quote, or `-1` if
/// there is none.
pub open spec fn first_quote(s: Seq<u8>, e: int) -> int
    decreases s.len() - e,
{
    if e < 0 || e >= s.len() {
        -1
    } else if s[e] == 34 {
        e
    } else {
        first_quote(s, e + 1)
    }
}

/// A header directive starts at position `i`: the keyword, at least
/// one whitespace byte, an opening double quote, and a closing double
/// quote with at least one byte of name between them.
pub open spec fn directive_at(s: Seq<u8>, i: int) -> bool {
    kw_directive_at(s, i) && {
        let j = skip_ws(s, i + 8);
        j > i + 8 && j < s.len() && s[j] == 34 && first_quote(s, j + 1) > j + 1
    }
}

/// The line is a directive line: the keyword is its first
/// non-whitespace token.
pub open spec fn is_directive_line(s: Seq<u8>) -> bool {
    directive_at(s, skip_ws(s, 0))
}

/// The header name carried by the directive at `i`: the bytes between
/// the opening quote and the next closing quote.
pub open spec fn directive_name(s: Seq<u8>, i: int) -> Seq<u8> {
    let j = skip_ws(s, i + 8);
    s.subrange(j + 1, first_quote(s, j + 1))
}

/// The header name a line asks for, if the line is a directive.
pub open spec fn header_target_spec(s: Seq<u8>) -> Option<Seq<u8>> {
    if is_directive_line(s) {
        Some(directive_name(s, skip_ws(s, 0)))
    } else {
        None
    }
}

fn first_quote_exec(line: &Vec<u8>, e: usize) -> (r: Option<usize>)
    requires
        e <= line@.len(),
    ensures
        match r {
            Some(q) => first_quote(line@, e as int) == q as int && e <= q < line@.len(),
            None => first_quote(line@, e as int) == -1,
        },
    decreases line@.len() - e,
{
    if e >= line.len() {
        None
    } else if line[e] == 34 {
        Some(e)
    } else {
        first_quote_exec(line, e + 1)
    }
}

fn directive_head_at(line: &Vec<u8>, i: usize) -> (r: bool)
    requires
        i < line@.len(),
    ensures
        r == directive_at(line@, i as int),
{
    let len = line.len();
    if len - i < 8 {
        proof {
            assert(!kw_directive_at(line@, i as int));
        }
        return false;
    }
    let kw = line[i] == 35 && line[i + 1] == 105 && line[i + 2] == 110 && line[i + 3] == 99
        && line[i + 4] == 108 && line[i + 5] == 117 && line[i + 6] == 100 && line[i + 7] == 101;
    if !kw {
        proof {
            if kw_directive_at(line@, i as int) {
                assert(line@.subrange(i as int, i + 8)[0] == kw_directive()[0]);
                assert(line@.subrange(i as int, i + 8)[1] == kw_directive()[1]);
                assert(line@.subrange(i as int, i + 8)[2] == kw_directive()[2]);
                assert(line@.subrange(i as int, i + 8)[3] == kw_directive()[3]);
                assert(line@.subrange(i as int, i + 8)[4] == kw_directive()[4]);
                assert(line@.subrange(i as int, i + 8)[5] == kw_directive()[5]);
                assert(line@.subrange(i as int, i + 8)[6] == kw_directive()[6]);
                assert(line@.subrange(i as int, i + 8)[7] == kw_directive()[7]);
            }
        }
        return false;
    }
    proof {
        assert(line@.subrange(i as int, i + 8) =~= kw_directive());
    }
    let j = skip_ws_exec(line, i + 8);
    if j > i + 8 && j < len && line[j] == 34 {
        match first_quote_exec(line, j + 1) {
            Some(q) => q > j + 1,
            None => false,
        }
    } else {
        false
    }
}

/// The header name a line asks for, or `None` when the line is not a
/// directive.
pub fn header_target(line: &Vec<u8>) -> (r: Option<Vec<u8>>)
    ensures
        match r {
            Some(v) => header_target_spec(line@) == Some(v@),
            None => header_target_spec(line@) is None,
        },
{
    let len = line.len();
    let i = skip_ws_exec(line, 0);
    if i < len && directive_head_at(line, i) {
        let j = skip_ws_exec(line, i + 8);
        let q = match first_quote_exec(line, j + 1) {
            Some(q) => q,
            None => {
                proof {
                    assert(false);
                }
                0
            },
        };
        let mut name: Vec<u8> = Vec::new();
        crate::bytes::append_range(&mut name, line, j + 1, q);
        Some(name)
    } else {
        proof {
            if i == line@.len() {
                assert(!kw_directive_at(line@, i as int));
            }
        }
        None
    }
}

/// What one line contributes to the inlined text, given the read
/// result for its header (if it is a directive at all).
pub open spec fn inline_step(line: Seq<u8>, content: Option<Seq<Seq<u8>>>) -> Seq<Seq<u8>> {
    if header_target_spec(line) is Some {
        match content {
            Some(h) => h,
            None => Seq::empty(),
        }
    } else {
        seq![line]
    }
}

/// The inlined text of the first `n` lines.
pub open spec fn inline_spec(
    lines: Seq<Seq<u8>>,
    contents: Seq<Option<Seq<Seq<u8>>>>,
    n: int,
) -> Seq<Seq<u8>>
    decreases n,
{
    if n <= 0 {
        Seq::empty()
    } else {
        inline_spec(lines, contents, n - 1) + inline_step(lines[n - 1], contents[n - 1])
    }
}

/// The names of the headers that were asked for but not readable, in
/// line order, among the first `n` lines.
pub open spec fn missing_spec(
    lines: Seq<Seq<u8>>,
    contents: Seq<Option<Seq<Seq<u8>>>>,
    n: int,
) -> Seq<Seq<u8>>
    decreases n,
{
    if n <= 0 {
        Seq::empty()
    } else if header_target_spec(lines[n - 1]) is Some && contents[n - 1] is None {
        missing_spec(lines, contents, n - 1).push(header_target_spec(lines[n - 1]).unwrap())
    } else {
        missing_spec(lines, contents, n - 1)
    }
}

/// The read results, seen as sequences.
pub open spec fn contents_view(cs: Seq<Option<Vec<Vec<u8>>>>) -> Seq<Option<Seq<Seq<u8>>>> {
    cs.map_values(
        |c: Option<Vec<Vec<u8>>>|
            match c {
                Some(v) => Some(lines_view(v@)),
                None => None,
            },
    )
}

/// Inlines header directives.  `contents[i]` is the read result for
/// line `i`: the header's lines where line `i` is a directive naming a
/// readable file, `None` otherwise.  A directive whose file could not
/// be read is dropped and its name is returned as a warning; every
/// other line passes through unchanged.
pub fn inline_headers(lines: &Vec<Vec<u8>>, contents: &Vec<Option<Vec<Vec<u8>>>>) -> (r: (
    Vec<Vec<u8>>,
    Vec<Vec<u8>>,
))
    requires
        contents@.len() == lines@.len(),
    ensures
        lines_view(r.0@) == inline_spec(
            lines_view(lines@),
            contents_view(contents@),
            lines@.len() as int,
        ),
        lines_view(r.1@) == missing_spec(
            lines_view(lines@),
            contents_view(contents@),
            lines@.len() as int,
        ),
{
    let ghost ls = lines_view(lines@);
    let ghost cs = contents_view(contents@);
    let mut out: Vec<Vec<u8>> = Vec::new();
    let mut missing: Vec<Vec<u8>> = Vec::new();
    let mut i: usize = 0;
    while i < lines.len()
        invariant
            i <= lines@.len(),
            contents@.len() == lines@.len(),
            ls == lines_view(lines@),
            cs == contents_view(contents@),
            lines_view(out@) == inline_spec(ls, cs, i as int),
            lines_view(missing@) == missing_spec(ls, cs, i as int),
        decreases lines@.len() - i,
    {
        match header_target(&lines[i]) {
            Some(name) => {
                proof {
                    assert(ls[i as int] == lines@[i as int]@);
                    assert(header_target_spec(ls[i as int]) == Some(name@));
                }
                match &contents[i] {
                    Some(h) => {
                        crate::bytes::append_lines(&mut out, h);
                        proof {
                            assert(cs[i as int] == Some(lines_view(h@)));
                            assert(inline_spec(ls, cs, i + 1) == inline_spec(ls, cs, i as int)
                                + inline_step(ls[i as int], cs[i as int]));
                        }
                    },
                    None => {
                        crate::bytes::push_line(&mut missing, name);
                        proof {
                            assert(cs[i as int] is None);
                            assert(inline_step(ls[i as int], cs[i as int]) =~= Seq::<
                                Seq<u8>,
                            >::empty());
                            assert(inline_spec(ls, cs, i + 1) =~= inline_spec(ls, cs, i as int));
                        }
                    },
                }
            },
            None => {
                let line = crate::bytes::copy_line(&lines[i]);
                crate::bytes::push_line(&mut out, line);
                proof {
                    assert(ls[i as int] == lines@[i as int]@);
                    assert(header_target_spec(ls[i as int]) is None);
                    assert(inline_step(ls[i as int], cs[i as int]) =~= seq![ls[i as int]]);
                    assert(lines_view(out@) =~= inline_spec(ls, cs, i as int) + inline_step(
                        ls[i as int],
                        cs[i as int],
                    ));
                }
            },
        }
        i = i + 1;
    }
    (out, missing)
}

} // verus!
