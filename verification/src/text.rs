//! Text helpers: conversion between `String`/`&str` and character vectors,
//! and decimal / hexadecimal rendering of integers.

use vstd::prelude::*;

verus! {

/// `str::chars` collected.
#[verifier::external_body]
pub(crate) fn str_to_chars(s: &str) -> (r: Vec<char>)
    ensures
        r@ == s@,
{
    s.chars().collect()
}

/// `String::from_iter` over characters.
#[verifier::external_body]
pub(crate) fn chars_to_string(v: &Vec<char>) -> (r: String)
    ensures
        r@ == v@,
{
    v.iter().collect()
}

/// The digit character for `d < 16`: `0-9`, then `a-f`.
pub open spec fn digit_char(d: nat) -> char {
    (if d < 10 { d + 48 } else { d + 87 }) as u8 as char
}

/// Base-`base` digits of `n`, most significant first, no leading zeros
/// (`0` renders as `"0"`).
pub open spec fn digits(n: nat, base: nat) -> Seq<char>
    recommends
        2 <= base <= 16,
    decreases n,
{
    if n < base || base < 2 {
        seq![digit_char(n)]
    } else {
        proof {
            assert(n / base < n) by (nonlinear_arith)
                requires
                    n >= base,
                    base >= 2,
            ;
        }
        digits(n / base, base).push(digit_char(n % base))
    }
}

/// Decimal rendering.
pub open spec fn dec(n: nat) -> Seq<char> {
    digits(n, 10)
}

/// Lowercase hexadecimal rendering.
pub open spec fn hex(n: nat) -> Seq<char> {
    digits(n, 16)
}

/// Append the characters of `s`.
pub(crate) fn push_str(out: &mut Vec<char>, s: &str)
    ensures
        final(out)@ == old(out)@ + s@,
{
    let cs = str_to_chars(s);
    let mut i: usize = 0;
    while i < cs.len()
        invariant
            i <= cs.len(),
            cs@ == s@,
            out@ == old(out)@ + cs@.take(i as int),
        decreases cs.len() - i,
    {
        out.push(cs[i]);
        i += 1;
        proof {
            assert(out@ =~= old(out)@ + cs@.take(i as int));
        }
    }
    proof {
        assert(cs@.take(cs.len() as int) =~= cs@);
    }
}

fn digit(d: u64) -> (c: char)
    requires
        d < 16,
    ensures
        c == digit_char(d as nat),
{
    if d < 10 {
        ((d as u8) + 48) as char
    } else {
        ((d as u8) + 87) as char
    }
}

/// Append the base-`base` digits of `n`.
pub(crate) fn push_digits(out: &mut Vec<char>, n: u64, base: u64)
    requires
        2 <= base <= 16,
    ensures
        final(out)@ == old(out)@ + digits(n as nat, base as nat),
    decreases n,
{
    let ghost start = out@;
    if n >= base {
        assert(n / base < n) by (nonlinear_arith)
            requires
                n >= base,
                base >= 2,
        ;
        push_digits(out, n / base, base);
    }
    let ghost mid = out@;
    out.push(digit(n % base));
    proof {
        if n >= base {
            assert(digits(n as nat, base as nat) == digits((n / base) as nat, base as nat).push(
                digit_char((n % base) as nat),
            ));
            assert(out@ =~= start + digits(n as nat, base as nat));
        } else {
            assert(n % base == n) by (nonlinear_arith)
                requires
                    n < base,
            ;
            assert(out@ =~= start + digits(n as nat, base as nat));
        }
    }
}

/// Append the decimal digits of `n`.
pub(crate) fn push_dec(out: &mut Vec<char>, n: u64)
    ensures
        final(out)@ == old(out)@ + dec(n as nat),
{
    push_digits(out, n, 10)
}

/// Append the lowercase hexadecimal digits of `n`.
pub(crate) fn push_hex(out: &mut Vec<char>, n: u64)
    ensures
        final(out)@ == old(out)@ + hex(n as nat),
{
    push_digits(out, n, 16)
}

} // verus!
