//! Character-sequence utilities: conversion of a `&str` to its characters,
//! substring and suffix tests, and parsing of hexadecimal identifiers.
//!
//! Device display names and the persisted vendor/product identifiers are
//! strings; the enumerator's name heuristic and the configuration loader both
//! reduce to the functions here.

use vstd::prelude::*;
use vstd::std_specs::iter::IteratorSpec;

verus! {

/// The characters of `s`, in order.
pub fn chars_of(s: &str) -> (r: Vec<char>)
    ensures
        r@ == s@,
{
    broadcast use vstd::string::axiom_spec_iter;
    broadcast use vstd::string::next_postcondition;

    let mut it = s.chars();
    let mut out: Vec<char> = Vec::new();
    loop
        invariant
            out@ + it.remaining() == s@,
            it.decrease() is Some,
        ensures
            out@ == s@,
        decreases it.decrease()->0,
    {
        match it.next() {
            Some(c) => {
                out.push(c);
                proof {
                    assert(out@ + it.remaining() =~= s@);
                }
            },
            None => {
                proof {
                    assert(out@ =~= s@);
                }
                break ;
            },
        }
    }
    out
}

/// `pat` occurs in `hay` starting at position `i`.
pub open spec fn pattern_at(hay: Seq<char>, pat: Seq<char>, i: int) -> bool {
    &&& 0 <= i
    &&& i + pat.len() <= hay.len()
    &&& hay.subrange(i, i + pat.len()) == pat
}

/// `pat` occurs somewhere in `hay`.
pub open spec fn contains_chars(hay: Seq<char>, pat: Seq<char>) -> bool {
    exists|i: int| pattern_at(hay, pat, i)
}

/// `hay` ends with `pat`.
pub open spec fn ends_with_chars(hay: Seq<char>, pat: Seq<char>) -> bool {
    pat.len() <= hay.len() && pattern_at(hay, pat, hay.len() - pat.len())
}

/// Whether `pat` occurs in `hay` at position `i`.
fn pattern_at_exec(hay: &Vec<char>, pat: &Vec<char>, i: usize) -> (r: bool)
    requires
        i + pat@.len() <= hay@.len(),
    ensures
        r == pattern_at(hay@, pat@, i as int),
{
    let hay_len = hay.len();
    let mut j: usize = 0;
    while j < pat.len()
        invariant
            i + pat@.len() <= hay@.len(),
            hay_len == hay@.len(),
            j <= pat@.len(),
            forall|k: int| 0 <= k < j ==> hay@[i + k] == pat@[k],
        decreases pat@.len() - j,
    {
        if hay[i + j] != pat[j] {
            proof {
                assert(hay@.subrange(i as int, i + pat@.len())[j as int] == hay@[i + j]);
            }
            return false;
        }
        j += 1;
    }
    proof {
        assert(hay@.subrange(i as int, i + pat@.len()) =~= pat@);
    }
    true
}

/// Substring search: whether `pat` occurs anywhere in `hay`.
pub fn contains_chars_exec(hay: &Vec<char>, pat: &Vec<char>) -> (r: bool)
    ensures
        r == contains_chars(hay@, pat@),
{
    if pat.len() > hay.len() {
        proof {
            if contains_chars(hay@, pat@) {
                let w = choose|w: int| pattern_at(hay@, pat@, w);
                assert(w + pat@.len() <= hay@.len());
            }
        }
        return false;
    }
    if pat.len() == 0 {
        proof {
            assert(hay@.subrange(0, 0) =~= pat@);
            assert(pattern_at(hay@, pat@, 0));
        }
        return true;
    }
    let n = hay.len();
    let end = n - pat.len();
    let mut i: usize = 0;
    while i <= end
        invariant_except_break
            1 <= pat@.len() <= hay@.len(),
            n == hay@.len(),
            end == hay@.len() - pat@.len(),
            end < n,
            i <= end + 1,
            forall|k: int| 0 <= k < i ==> !pattern_at(hay@, pat@, k),
        ensures
            contains_chars(hay@, pat@) == (i <= end),
        decreases end + 1 - i,
    {
        if pattern_at_exec(hay, pat, i) {
            break ;
        }
        i += 1;
        proof {
            if i > end && contains_chars(hay@, pat@) {
                let w = choose|w: int| pattern_at(hay@, pat@, w);
                assert(!pattern_at(hay@, pat@, w));
            }
        }
    }
    i <= end
}

/// Suffix test: whether `hay` ends with `pat`.
pub fn ends_with_chars_exec(hay: &Vec<char>, pat: &Vec<char>) -> (r: bool)
    ensures
        r == ends_with_chars(hay@, pat@),
{
    if pat.len() > hay.len() {
        return false;
    }
    pattern_at_exec(hay, pat, hay.len() - pat.len())
}

/// The value of one hexadecimal digit, or -1 for any other character.
pub open spec fn hex_digit_value(c: char) -> int {
    if '0' <= c && c <= '9' {
        c as int - '0' as int
    } else if 'a' <= c && c <= 'f' {
        c as int - 'a' as int + 10
    } else if 'A' <= c && c <= 'F' {
        c as int - 'A' as int + 10
    } else {
        -1
    }
}

/// Every character of `s` is a hexadecimal digit.
pub open spec fn all_hex_digits(s: Seq<char>) -> bool {
    forall|i: int| 0 <= i < s.len() ==> hex_digit_value(s[i]) >= 0
}

/// The number denoted by the hexadecimal digits of `s` (most significant
/// first), assuming every character is a digit.
pub open spec fn hex_value(s: Seq<char>) -> int
    decreases s.len(),
{
    if s.len() == 0 {
        0
    } else {
        hex_value(s.drop_last()) * 16 + hex_digit_value(s.last())
    }
}

/// What parsing a hexadecimal identifier yields: the denoted value, or
/// nothing when the string is empty, holds a non-digit, or denotes a value
/// that does not fit in sixteen bits.
pub open spec fn parse_hex_u16_spec(s: Seq<char>) -> Option<u16> {
    if s.len() == 0 || !all_hex_digits(s) || hex_value(s) > 0xFFFF {
        None
    } else {
        Some(hex_value(s) as u16)
    }
}

/// The value of a hexadecimal digit character, or -1.
fn hex_digit_value_exec(c: char) -> (r: i32)
    ensures
        r as int == hex_digit_value(c),
{
    if '0' <= c && c <= '9' {
        (c as u32 - '0' as u32) as i32
    } else if 'a' <= c && c <= 'f' {
        (c as u32 - 'a' as u32) as i32 + 10
    } else if 'A' <= c && c <= 'F' {
        (c as u32 - 'A' as u32) as i32 + 10
    } else {
        -1
    }
}

/// Parses a string of hexadecimal digits as a sixteen-bit identifier.
pub fn parse_hex_u16(s: &str) -> (r: Option<u16>)
    ensures
        r == parse_hex_u16_spec(s@),
{
    let cs = chars_of(s);
    if cs.len() == 0 {
        return None;
    }
    // `acc` tracks the exact value while it fits in sixteen bits and
    // saturates at 0x10000 as soon as it cannot.
    let mut acc: u32 = 0;
    let mut i: usize = 0;
    while i < cs.len()
        invariant
            cs@ == s@,
            i <= cs@.len(),
            all_hex_digits(s@.subrange(0, i as int)),
            hex_value(s@.subrange(0, i as int)) <= 0xFFFF ==> acc == hex_value(
                s@.subrange(0, i as int),
            ),
            hex_value(s@.subrange(0, i as int)) > 0xFFFF ==> acc == 0x10000,
            acc <= 0x10000,
        decreases cs@.len() - i,
    {
        let d = hex_digit_value_exec(cs[i]);
        if d < 0 {
            proof {
                assert(hex_digit_value(s@[i as int]) < 0);
            }
            return None;
        }
        proof {
            assert(s@.subrange(0, i + 1).drop_last() =~= s@.subrange(0, i as int));
            assert(s@.subrange(0, i + 1).last() == s@[i as int]);
            assert(forall|k: int|
                0 <= k < i + 1 ==> hex_digit_value(#[trigger] s@.subrange(0, i + 1)[k]) >= 0);
        }
        let next = acc * 16 + (d as u32);
        acc = if next > 0xFFFF {
            0x10000
        } else {
            next
        };
        i += 1;
    }
    proof {
        assert(s@.subrange(0, s@.len() as int) =~= s@);
    }
    if acc > 0xFFFF {
        None
    } else {
        Some(acc as u16)
    }
}

/// The lowercase hexadecimal digit character for a value below sixteen.
pub open spec fn hex_digit_char(d: int) -> char {
    if d < 10 {
        (('0' as u8) + d as u8) as char
    } else {
        (('a' as u8) + (d - 10) as u8) as char
    }
}

/// The four lowercase hexadecimal digits of a sixteen-bit value, most
/// significant first, zero-padded.
pub open spec fn hex4_chars(v: u16) -> Seq<char> {
    seq![
        hex_digit_char(v as int / 4096),
        hex_digit_char((v as int / 256) % 16),
        hex_digit_char((v as int / 16) % 16),
        hex_digit_char(v as int % 16),
    ]
}

/// Formatting is a left inverse of parsing: the four digits written for a
/// value parse back to exactly that value. What setup persists, the daemon
/// reads back unchanged.
pub proof fn lemma_hex_format_round_trip(v: u16)
    ensures
        parse_hex_u16_spec(hex4_chars(v)) == Some(v),
{
    let s = hex4_chars(v);
    let d3 = v as int / 4096;
    let d2 = (v as int / 256) % 16;
    let d1 = (v as int / 16) % 16;
    let d0 = v as int % 16;
    assert(0 <= d3 < 16 && 0 <= d2 < 16 && 0 <= d1 < 16 && 0 <= d0 < 16) by (nonlinear_arith)
        requires
            0 <= v < 0x10000,
            d3 == v as int / 4096,
            d2 == (v as int / 256) % 16,
            d1 == (v as int / 16) % 16,
            d0 == v as int % 16,
    ;
    lemma_hex_digit_char_value(d3);
    lemma_hex_digit_char_value(d2);
    lemma_hex_digit_char_value(d1);
    lemma_hex_digit_char_value(d0);
    assert(all_hex_digits(s)) by {
        assert forall|i: int| 0 <= i < s.len() implies hex_digit_value(s[i]) >= 0 by {
            assert(s[0] == hex_digit_char(d3) && s[1] == hex_digit_char(d2) && s[2]
                == hex_digit_char(d1) && s[3] == hex_digit_char(d0));
        }
    }
    assert(s.drop_last() =~= seq![s[0], s[1], s[2]]);
    assert(s.drop_last().drop_last() =~= seq![s[0], s[1]]);
    assert(s.drop_last().drop_last().drop_last() =~= seq![s[0]]);
    assert(seq![s[0]].drop_last() =~= Seq::<char>::empty());
    reveal_with_fuel(hex_value, 5);
    assert(hex_value(s) == ((d3 * 16 + d2) * 16 + d1) * 16 + d0);
    assert(((d3 * 16 + d2) * 16 + d1) * 16 + d0 == v as int) by (nonlinear_arith)
        requires
            0 <= v < 0x10000,
            d3 == v as int / 4096,
            d2 == (v as int / 256) % 16,
            d1 == (v as int / 16) % 16,
            d0 == v as int % 16,
    ;
}

/// The digit characters denote their values.
proof fn lemma_hex_digit_char_value(d: int)
    requires
        0 <= d < 16,
    ensures
        hex_digit_value(hex_digit_char(d)) == d,
{
}

/// The value of a nibble as a digit character.
fn hex_char_of(d: u8) -> (c: char)
    requires
        d < 16,
    ensures
        c == hex_digit_char(d as int),
{
    if d < 10 {
        (('0' as u8) + d) as char
    } else {
        (('a' as u8) + (d - 10)) as char
    }
}

/// Writes a sixteen-bit identifier as four lowercase hexadecimal digits,
/// exactly the form `parse_hex_u16` reads back.
pub fn format_hex_u16(v: u16) -> (r: Vec<char>)
    ensures
        r@ == hex4_chars(v),
{
    let mut out: Vec<char> = Vec::new();
    proof {
        assert(v / 4096 < 16 && (v / 256) % 16 < 16 && (v / 16) % 16 < 16 && v % 16 < 16);
    }
    out.push(hex_char_of((v / 4096) as u8));
    out.push(hex_char_of(((v / 256) % 16) as u8));
    out.push(hex_char_of(((v / 16) % 16) as u8));
    out.push(hex_char_of((v % 16) as u8));
    proof {
        assert(out@ =~= hex4_chars(v));
    }
    out
}

} // verus!
