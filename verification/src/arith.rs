//! Integer helpers shared by the quantized network: clamping, truncating
//! division and 16-bit two's complement wrapping.
use vstd::prelude::*;

verus! {

/// `x` limited to the range `lo..=hi`.
pub open spec fn clamp_spec(x: int, lo: int, hi: int) -> int {
    if x < lo {
        lo
    } else if x > hi {
        hi
    } else {
        x
    }
}

/// Division rounding toward zero, as Rust's `/` does on signed integers.
pub open spec fn tdiv(a: int, b: int) -> int {
    if a >= 0 {
        a / b
    } else {
        -((-a) / b)
    }
}

/// Whether `x` is a value of `i32`.
pub open spec fn fits_i32(x: int) -> bool {
    i32::MIN <= x <= i32::MAX
}

/// `x` reduced into the range of `i16` by two's complement wrapping.
pub open spec fn wrap16(x: int) -> int {
    (x + 32768) % 65536 - 32768
}

pub fn clamp_i16(x: i16, lo: i16, hi: i16) -> (r: i16)
    requires
        lo <= hi,
    ensures
        r == clamp_spec(x as int, lo as int, hi as int),
{
    if x < lo {
        lo
    } else if x > hi {
        hi
    } else {
        x
    }
}

pub fn clamp_i32(x: i32, lo: i32, hi: i32) -> (r: i32)
    requires
        lo <= hi,
    ensures
        r == clamp_spec(x as int, lo as int, hi as int),
{
    if x < lo {
        lo
    } else if x > hi {
        hi
    } else {
        x
    }
}

/// Wrapping once is the same as wrapping the exact sum.
pub proof fn lemma_wrap16_add(a: int, b: int)
    ensures
        wrap16(wrap16(a) + b) == wrap16(a + b),
{
    let q = (a + 32768) / 65536;
    vstd::arithmetic::div_mod::lemma_fundamental_div_mod(a + 32768, 65536);
    assert(wrap16(a) == a - 65536 * q);
    vstd::arithmetic::div_mod::lemma_mod_multiples_vanish(-q, a + b + 32768, 65536);
    assert(wrap16(a) + b + 32768 == 65536 * (-q) + (a + b + 32768));
}

/// A value of `i16` wraps to itself.
pub proof fn lemma_wrap16_id(a: int)
    requires
        -32768 <= a <= 32767,
    ensures
        wrap16(a) == a,
{
}

} // verus!
