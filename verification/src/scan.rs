//! Byte classes and maximal-run scans used by every line recognizer.
//!
//! A line is a sequence of bytes without a line break.  The recognizers
//! work over two disjoint byte classes: identifier bytes (ASCII
//! letters, digits, underscore and the bytes of non-ASCII characters)
//! and whitespace bytes.

use vstd::prelude::*;

verus! {

/// An identifier byte: an ASCII letter, digit or underscore, or any
/// byte of a multi-byte UTF-8 character, so that non-ASCII identifiers
/// are recognized.  (Non-ASCII punctuation and spacing characters are
/// thereby also read as identifier bytes: the byte model does not
/// class individual code points.)
pub open spec fn is_word_byte(b: u8) -> bool {
    (97 <= b && b <= 122) || (65 <= b && b <= 90) || (48 <= b && b <= 57) || b == 95 || b >= 128
}

/// A whitespace byte: space, tab, line feed, vertical tab, form feed
/// or carriage return.
pub open spec fn is_ws_byte(b: u8) -> bool {
    b == 32 || b == 9 || b == 10 || b == 11 || b == 12 || b == 13
}

pub fn word_byte(b: u8) -> (r: bool)
    ensures
        r == is_word_byte(b),
{
    (97 <= b && b <= 122) || (65 <= b && b <= 90) || (48 <= b && b <= 57) || b == 95 || b >= 128
}

pub fn ws_byte(b: u8) -> (r: bool)
    ensures
        r == is_ws_byte(b),
{
    b == 32 || b == 9 || b == 10 || b == 11 || b == 12 || b == 13
}

/// First position at or after `i` that does not hold a whitespace byte
/// (or the end of the line).
pub open spec fn skip_ws(s: Seq<u8>, i: int) -> int
    decreases s.len() - i,
{
    if i < 0 || i >= s.len() {
        i
    } else if is_ws_byte(s[i]) {
        skip_ws(s, i + 1)
    } else {
        i
    }
}

/// First position at or after `i` that does not hold an identifier byte
/// (or the end of the line).
pub open spec fn skip_word(s: Seq<u8>, i: int) -> int
    decreases s.len() - i,
{
    if i < 0 || i >= s.len() {
        i
    } else if is_word_byte(s[i]) {
        skip_word(s, i + 1)
    } else {
        i
    }
}

/// Start of the maximal whitespace run that ends at `i`.
pub open spec fn back_ws(s: Seq<u8>, i: int) -> int
    decreases i,
{
    if i <= 0 || i > s.len() {
        i
    } else if is_ws_byte(s[i - 1]) {
        back_ws(s, i - 1)
    } else {
        i
    }
}

/// Start of the maximal identifier-byte run that ends at `i`.
pub open spec fn back_word(s: Seq<u8>, i: int) -> int
    decreases i,
{
    if i <= 0 || i > s.len() {
        i
    } else if is_word_byte(s[i - 1]) {
        back_word(s, i - 1)
    } else {
        i
    }
}

pub fn skip_ws_exec(s: &Vec<u8>, i: usize) -> (r: usize)
    requires
        i <= s@.len(),
    ensures
        r == skip_ws(s@, i as int),
        i <= r <= s@.len(),
    decreases s@.len() - i,
{
    if i < s.len() && ws_byte(s[i]) {
        skip_ws_exec(s, i + 1)
    } else {
        i
    }
}

pub fn skip_word_exec(s: &Vec<u8>, i: usize) -> (r: usize)
    requires
        i <= s@.len(),
    ensures
        r == skip_word(s@, i as int),
        i <= r <= s@.len(),
    decreases s@.len() - i,
{
    if i < s.len() && word_byte(s[i]) {
        skip_word_exec(s, i + 1)
    } else {
        i
    }
}

pub fn back_ws_exec(s: &Vec<u8>, i: usize) -> (r: usize)
    requires
        i <= s@.len(),
    ensures
        r == back_ws(s@, i as int),
        r <= i,
    decreases i,
{
    if i > 0 && ws_byte(s[i - 1]) {
        back_ws_exec(s, i - 1)
    } else {
        i
    }
}

pub fn back_word_exec(s: &Vec<u8>, i: usize) -> (r: usize)
    requires
        i <= s@.len(),
    ensures
        r == back_word(s@, i as int),
        r <= i,
    decreases i,
{
    if i > 0 && word_byte(s[i - 1]) {
        back_word_exec(s, i - 1)
    } else {
        i
    }
}

} // verus!
