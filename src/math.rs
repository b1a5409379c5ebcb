//! Eight-bit channel arithmetic shared by the pixel formats.

use vstd::prelude::*;

verus! {

/// The rounded product `a * b / 255` in the form `t = a*b + 128; (t + (t >> 8)) >> 8`.
pub open spec fn mul_u8_spec(a: int, b: int) -> int {
    let t = a * b + 128;
    (t + t / 256) / 256
}

/// Linear interpolation from `p` towards `q` by `a / 255`: the rounded
/// product of the distance's magnitude and `a` is added to or taken from
/// `p`, so rounding is symmetric in the direction of travel (for example
/// `p = 1, q = 0, a = 128` gives 0).
pub open spec fn lerp_u8_spec(p: int, q: int, a: int) -> int {
    if q >= p {
        p + mul_u8_spec(q - p, a)
    } else {
        p - mul_u8_spec(p - q, a)
    }
}

/// Premultiplied interpolation `p + q - p * a / 255`, clamped to a channel.
pub open spec fn prelerp_u8_spec(p: int, q: int, a: int) -> int {
    let v = p + q - mul_u8_spec(p, a);
    if v < 0 {
        0
    } else if v > 255 {
        255
    } else {
        v
    }
}

proof fn lemma_mul_u8_bounds(a: u32, b: u32)
    requires
        a < 256,
        b < 256,
    ensures
        mul_u8_spec(a as int, b as int) <= a,
        0 <= mul_u8_spec(a as int, b as int),
        b == 255 ==> mul_u8_spec(a as int, b as int) == a,
        b == 0 ==> mul_u8_spec(a as int, b as int) == 0,
{
    let t: u32 = (a * b + 128) as u32;
    let s: u32 = ((t >> 8u32) + t) as u32;
    assert(a * b <= 255 * 255) by (nonlinear_arith)
        requires
            a < 256,
            b < 256,
    ;
    assert((s >> 8u32) <= a && (b == 255 ==> (s >> 8u32) == a) && (b == 0 ==> (s >> 8u32) == 0))
        by (bit_vector)
        requires
            a < 256,
            b < 256,
            t == (a * b + 128) as u32,
            s == ((t >> 8u32) + t) as u32,
    ;
    assert(t >> 8u32 == t / 256) by (bit_vector);
    assert(s >> 8u32 == s / 256) by (bit_vector);
}

/// Multiplies two channel values, `a * b / 255` rounded.
pub fn multiply_u8(a: u8, b: u8) -> (r: u8)
    ensures
        r == mul_u8_spec(a as int, b as int),
        r == (2 * a * b + 255) / 510,
        r <= a,
{
    proof {
        lemma_multiply_is_rounded_quotient(a, b);
    }
    let a32: u32 = a as u32;
    let b32: u32 = b as u32;
    proof {
        lemma_mul_u8_bounds(a32, b32);
        assert(a32 * b32 <= 255 * 255) by (nonlinear_arith)
            requires
                a32 < 256,
                b32 < 256,
        ;
    }
    let t: u32 = a32 * b32 + 128;
    proof {
        assert(t >> 8u32 <= t) by (bit_vector);
    }
    let s: u32 = (t >> 8u32) + t;
    let tt: u32 = s >> 8u32;
    proof {
        assert(t >> 8u32 == t / 256) by (bit_vector);
        assert(s >> 8u32 == s / 256) by (bit_vector);
    }
    tt as u8
}

/// Moves channel value `p` towards `q` by the fraction `a / 255`, rounding
/// the step's magnitude (see `lerp_u8_spec`).
pub fn lerp_u8(p: u8, q: u8, a: u8) -> (r: u8)
    ensures
        r == lerp_u8_spec(p as int, q as int, a as int),
{
    if q >= p {
        let m = multiply_u8(q - p, a);
        p + m
    } else {
        let m = multiply_u8(p - q, a);
        p - m
    }
}

/// Premultiplied blend of `q` over `p` with coverage `a`, clamped to a channel.
pub fn prelerp_u8(p: u8, q: u8, a: u8) -> (r: u8)
    ensures
        r == prelerp_u8_spec(p as int, q as int, a as int),
{
    let m = multiply_u8(p, a);
    let v: u32 = p as u32 + q as u32 - m as u32;
    if v > 255 {
        255
    } else {
        v as u8
    }
}

/// Channel arithmetic identities: multiplying by full scale keeps a value,
/// multiplying by zero clears it, and interpolation by zero or by full scale
/// returns the start or the end point.
pub proof fn lemma_channel_identities(x: u8, p: u8, q: u8)
    ensures
        mul_u8_spec(x as int, 255) == x,
        mul_u8_spec(x as int, 0) == 0,
        lerp_u8_spec(p as int, q as int, 0) == p,
        lerp_u8_spec(p as int, q as int, 255) == q,
{
    lemma_mul_u8_bounds(x as u32, 255);
    lemma_mul_u8_bounds(x as u32, 0);
    if q >= p {
        lemma_mul_u8_bounds((q - p) as u32, 0);
        lemma_mul_u8_bounds((q - p) as u32, 255);
    } else {
        lemma_mul_u8_bounds((p - q) as u32, 0);
        lemma_mul_u8_bounds((p - q) as u32, 255);
    }
}

/// The fast form of `multiply_u8` is exactly `a * b / 255` rounded to
/// nearest: `(2ab + 255) / 510`.
pub proof fn lemma_multiply_is_rounded_quotient(a: u8, b: u8)
    ensures
        mul_u8_spec(a as int, b as int) == (2 * a * b + 255) / 510,
{
    let a32 = a as u32;
    let b32 = b as u32;
    let t: u32 = (a32 * b32 + 128) as u32;
    let s: u32 = ((t >> 8u32) + t) as u32;
    assert(a32 * b32 <= 255 * 255) by (nonlinear_arith)
        requires
            a32 < 256,
            b32 < 256,
    ;
    assert((s >> 8u32) == ((2 * a32 * b32 + 255) as u32) / 510) by (bit_vector)
        requires
            a32 < 256,
            b32 < 256,
            t == (a32 * b32 + 128) as u32,
            s == ((t >> 8u32) + t) as u32,
    ;
    assert(t >> 8u32 == t / 256) by (bit_vector);
    assert(s >> 8u32 == s / 256) by (bit_vector);
    assert(2 * a32 * b32 + 255 <= 2 * 255 * 255 + 255) by (nonlinear_arith)
        requires
            a32 < 256,
            b32 < 256,
    ;
    assert(2 * a32 * b32 == 2 * (a as int) * (b as int));
    assert(((2 * a32 * b32 + 255) as u32) as int == 2 * (a as int) * (b as int) + 255);
}

} // verus!
