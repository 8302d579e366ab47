//! Small verified builders over byte lines: copying, appending and
//! decimal rendering, with their sequence-level specifications.

use vstd::prelude::*;

verus! {

/// Byte-for-byte copy of a line.
pub fn copy_line(v: &Vec<u8>) -> (r: Vec<u8>)
    ensures
        r@ == v@,
{
    let mut r: Vec<u8> = Vec::new();
    let mut i: usize = 0;
    while i < v.len()
        invariant
            i <= v@.len(),
            r@ == v@.subrange(0, i as int),
        decreases v@.len() - i,
    {
        r.push(v[i]);
        proof {
            assert(r@ =~= v@.subrange(0, i + 1));
        }
        i = i + 1;
    }
    proof {
        assert(r@ =~= v@);
    }
    r
}

/// Appends all bytes of `src` to `dst`.
pub fn append_bytes(dst: &mut Vec<u8>, src: &Vec<u8>)
    ensures
        final(dst)@ == old(dst)@ + src@,
{
    let mut i: usize = 0;
    while i < src.len()
        invariant
            i <= src@.len(),
            dst@ == old(dst)@ + src@.subrange(0, i as int),
        decreases src@.len() - i,
    {
        dst.push(src[i]);
        proof {
            assert(old(dst)@ + src@.subrange(0, i as int) + seq![src@[i as int]] =~= old(dst)@
                + src@.subrange(0, i + 1));
        }
        i = i + 1;
    }
    proof {
        assert(old(dst)@ + src@.subrange(0, src@.len() as int) =~= old(dst)@ + src@);
    }
}

/// Appends the bytes of `src` between `a` and `b` to `dst`.
pub fn append_range(dst: &mut Vec<u8>, src: &Vec<u8>, a: usize, b: usize)
    requires
        a <= b <= src@.len(),
    ensures
        final(dst)@ == old(dst)@ + src@.subrange(a as int, b as int),
{
    let mut i: usize = a;
    while i < b
        invariant
            a <= i <= b <= src@.len(),
            dst@ == old(dst)@ + src@.subrange(a as int, i as int),
        decreases b - i,
    {
        dst.push(src[i]);
        proof {
            assert(old(dst)@ + src@.subrange(a as int, i as int) + seq![src@[i as int]] =~= old(
                dst,
            )@ + src@.subrange(a as int, i + 1));
        }
        i = i + 1;
    }
}

/// The decimal digits of `n`, most significant first.
pub open spec fn dec_digits(n: nat) -> Seq<u8>
    decreases n,
{
    if n < 10 {
        seq![(48 + n) as u8]
    } else {
        dec_digits(n / 10).push((48 + n % 10) as u8)
    }
}

/// Appends the decimal rendering of `n` to `dst`.
pub fn append_dec(dst: &mut Vec<u8>, n: usize)
    ensures
        final(dst)@ == old(dst)@ + dec_digits(n as nat),
    decreases n,
{
    if n < 10 {
        dst.push(48 + (n as u8));
        proof {
            assert(dst@ =~= old(dst)@ + dec_digits(n as nat));
        }
    } else {
        append_dec(dst, n / 10);
        dst.push(48 + ((n % 10) as u8));
        proof {
            assert(dst@ =~= old(dst)@ + dec_digits(n as nat));
        }
    }
}

/// A sequence of byte lines, seen as a sequence of byte sequences.
pub open spec fn lines_view(ls: Seq<Vec<u8>>) -> Seq<Seq<u8>> {
    ls.map_values(|l: Vec<u8>| l@)
}

/// Appends one line to a line sequence.
pub fn push_line(dst: &mut Vec<Vec<u8>>, line: Vec<u8>)
    ensures
        lines_view(final(dst)@) == lines_view(old(dst)@).push(line@),
{
    let ghost l = line@;
    dst.push(line);
    proof {
        assert(lines_view(dst@) =~= lines_view(old(dst)@).push(l));
    }
}

/// Appends every line of `src` to `dst`.
pub fn append_lines(dst: &mut Vec<Vec<u8>>, src: &Vec<Vec<u8>>)
    ensures
        lines_view(final(dst)@) == lines_view(old(dst)@) + lines_view(src@),
{
    let mut i: usize = 0;
    while i < src.len()
        invariant
            i <= src@.len(),
            lines_view(dst@) == lines_view(old(dst)@) + lines_view(src@).subrange(0, i as int),
        decreases src@.len() - i,
    {
        let line = copy_line(&src[i]);
        push_line(dst, line);
        proof {
            assert((lines_view(old(dst)@) + lines_view(src@).subrange(0, i as int)).push(
                lines_view(src@)[i as int],
            ) =~= lines_view(old(dst)@) + lines_view(src@).subrange(0, i + 1));
        }
        i = i + 1;
    }
    proof {
        assert(lines_view(old(dst)@) + lines_view(src@).subrange(0, lines_view(src@).len() as int)
            =~= lines_view(old(dst)@) + lines_view(src@));
    }
}

} // verus!
