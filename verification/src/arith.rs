//! Integer helpers: truncating division, clamping and saturating
//! arithmetic with exact mathematical contracts.
use vstd::prelude::*;

verus! {

/// Absolute value of a mathematical integer.
pub open spec fn abs(v: int) -> int {
    if v < 0 { -v } else { v }
}

/// Division rounding toward zero, as Rust's `/` on signed integers.
pub open spec fn tdiv(a: int, b: int) -> int {
    if a == 0 || (a > 0) == (b > 0) {
        abs(a) / abs(b)
    } else {
        -(abs(a) / abs(b))
    }
}

/// Remainder matching `tdiv`, as Rust's `%` on signed integers.
pub open spec fn trem(a: int, b: int) -> int {
    if a >= 0 { abs(a) % abs(b) } else { -(abs(a) % abs(b)) }
}

/// `v` clamped into `[lo, hi]`.
pub open spec fn clamp(v: int, lo: int, hi: int) -> int {
    if v < lo { lo } else if v > hi { hi } else { v }
}

pub open spec fn sat_i32(v: int) -> int {
    clamp(v, i32::MIN as int, i32::MAX as int)
}

pub open spec fn sat_i64(v: int) -> int {
    clamp(v, i64::MIN as int, i64::MAX as int)
}

pub open spec fn sat_i128(v: int) -> int {
    clamp(v, i128::MIN as int, i128::MAX as int)
}

pub open spec fn sat_usize(v: int) -> int {
    clamp(v, 0, usize::MAX as int)
}

/// `a * b` saturated to the `i64` range.
pub fn sat_mul_i64(a: i64, b: i64) -> (r: i64)
    ensures
        r == sat_i64(a * b),
{
    assert(-0x4000_0000_0000_0000_0000_0000_0000_0000 <= (a as int) * (b as int)
        <= 0x4000_0000_0000_0000_0000_0000_0000_0000) by (nonlinear_arith)
        requires
            i64::MIN <= a <= i64::MAX,
            i64::MIN <= b <= i64::MAX,
    ;
    let p = (a as i128) * (b as i128);
    if p > i64::MAX as i128 {
        i64::MAX
    } else if p < i64::MIN as i128 {
        i64::MIN
    } else {
        p as i64
    }
}

/// `a + b` saturated to the `i64` range.
pub fn sat_add_i64(a: i64, b: i64) -> (r: i64)
    ensures
        r == sat_i64(a + b),
{
    let p = (a as i128) + (b as i128);
    if p > i64::MAX as i128 {
        i64::MAX
    } else if p < i64::MIN as i128 {
        i64::MIN
    } else {
        p as i64
    }
}

/// `a * b` saturated to the `i32` range.
pub fn sat_mul_i32(a: i32, b: i32) -> (r: i32)
    ensures
        r == sat_i32(a * b),
{
    assert(-0x4000_0000_0000_0000 <= (a as int) * (b as int) <= 0x4000_0000_0000_0000)
        by (nonlinear_arith)
        requires
            i32::MIN <= a <= i32::MAX,
            i32::MIN <= b <= i32::MAX,
    ;
    let p = (a as i64) * (b as i64);
    if p > i32::MAX as i64 {
        i32::MAX
    } else if p < i32::MIN as i64 {
        i32::MIN
    } else {
        p as i32
    }
}

/// `a + b` saturated to the `i32` range.
pub fn sat_add_i32(a: i32, b: i32) -> (r: i32)
    ensures
        r == sat_i32(a + b),
{
    let p = (a as i64) + (b as i64);
    if p > i32::MAX as i64 {
        i32::MAX
    } else if p < i32::MIN as i64 {
        i32::MIN
    } else {
        p as i32
    }
}

/// `a - b` saturated to the `i32` range.
pub fn sat_sub_i32(a: i32, b: i32) -> (r: i32)
    ensures
        r == sat_i32(a - b),
{
    let p = (a as i64) - (b as i64);
    if p > i32::MAX as i64 {
        i32::MAX
    } else if p < i32::MIN as i64 {
        i32::MIN
    } else {
        p as i32
    }
}

/// `a + b` saturated to the `usize` range.
pub fn sat_add_usize(a: usize, b: usize) -> (r: usize)
    ensures
        r == sat_usize(a + b),
{
    if a > usize::MAX - b {
        usize::MAX
    } else {
        a + b
    }
}

/// `a * b` saturated to the `usize` range.
pub fn sat_mul_usize(a: usize, b: usize) -> (r: usize)
    ensures
        r == sat_usize(a * b),
{
    match a.checked_mul(b) {
        Some(p) => p,
        None => usize::MAX,
    }
}

/// `a - b`, or zero when `b > a`.
pub fn sat_sub_usize(a: usize, b: usize) -> (r: usize)
    ensures
        r == sat_usize(a - b),
{
    if b > a {
        0
    } else {
        a - b
    }
}

/// The value of `v` as an `i32`, clamped into the `i32` range.
pub fn clamp_i32(v: i64) -> (r: i32)
    ensures
        r == sat_i32(v as int),
{
    if v > i32::MAX as i64 {
        i32::MAX
    } else if v < i32::MIN as i64 {
        i32::MIN
    } else {
        v as i32
    }
}

/// The value of `v` as an `i32`, clamped into the `i32` range.
pub fn clamp_i32_128(v: i128) -> (r: i32)
    ensures
        r == sat_i32(v as int),
{
    if v > i32::MAX as i128 {
        i32::MAX
    } else if v < i32::MIN as i128 {
        i32::MIN
    } else {
        v as i32
    }
}

/// Dividing a natural number by a positive one does not increase it,
/// and dividing by at least two strictly decreases a positive one.
pub proof fn lemma_div_shrinks(x: int, d: int)
    requires
        x >= 0,
        d >= 1,
    ensures
        0 <= x / d <= x,
        d >= 2 && x > 0 ==> x / d < x,
{
    vstd::arithmetic::div_mod::lemma_div_pos_is_pos(x, d);
    vstd::arithmetic::div_mod::lemma_fundamental_div_mod(x, d);
    assert(d * (x / d) >= x / d) by (nonlinear_arith)
        requires
            d >= 1,
            x / d >= 0,
    ;
    if d >= 2 && x > 0 {
        assert(x / d < x) by (nonlinear_arith)
            requires
                d >= 2,
                x > 0,
                x == d * (x / d) + x % d,
                0 <= x % d < d,
                x / d >= 0,
        ;
    }
}

/// `a / b` rounded toward zero, as Rust's `/` on `i64`.
pub fn div_i64(a: i64, b: i64) -> (r: i64)
    requires
        b != 0,
        !(a == i64::MIN && b == -1),
    ensures
        r == tdiv(a as int, b as int),
{
    if b > 0 {
        a / b
    } else if b == i64::MIN {
        if a == i64::MIN {
            proof { vstd::arithmetic::div_mod::lemma_div_basics_3(abs(a as int)); }
            1
        } else {
            proof { vstd::arithmetic::div_mod::lemma_basic_div(abs(a as int), abs(b as int)); }
            0
        }
    } else {
        let nb: i64 = -b;
        proof {
            lemma_div_shrinks(abs(a as int), nb as int);
        }
        let q = a / nb;
        assert(q == tdiv(a as int, nb as int));
        assert(tdiv(a as int, b as int) == -tdiv(a as int, nb as int));
        -q
    }
}

/// `a / b` rounded toward zero, as Rust's `/` on `i32`.
pub fn div_i32(a: i32, b: i32) -> (r: i32)
    requires
        b != 0,
        !(a == i32::MIN && b == -1),
    ensures
        r == tdiv(a as int, b as int),
{
    if b > 0 {
        a / b
    } else if b == i32::MIN {
        if a == i32::MIN {
            proof { vstd::arithmetic::div_mod::lemma_div_basics_3(abs(a as int)); }
            1
        } else {
            proof { vstd::arithmetic::div_mod::lemma_basic_div(abs(a as int), abs(b as int)); }
            0
        }
    } else {
        let nb: i32 = -b;
        proof {
            lemma_div_shrinks(abs(a as int), nb as int);
        }
        let q = a / nb;
        assert(q == tdiv(a as int, nb as int));
        assert(tdiv(a as int, b as int) == -tdiv(a as int, nb as int));
        -q
    }
}

/// An arithmetic right shift by 8 is floor division by 256.
pub proof fn lemma_shr8_floor(x: i32)
    ensures
        (x >> 8u32) as int == (x as int) / 256,
{
    assert(x >= 0 ==> (x >> 8u32) == x / 256) by (bit_vector);
    assert(x < 0 ==> (x >> 8u32) == -(((-1 - x) / 256)) - 1) by (bit_vector);
}

/// `a % b` as Rust's `%` on `i32`: the sign follows `a`.
pub fn rem_i32(a: i32, b: i32) -> (r: i32)
    requires
        b != 0,
        !(a == i32::MIN && b == -1),
    ensures
        r == trem(a as int, b as int),
{
    if b > 0 {
        a % b
    } else if b == i32::MIN {
        if a == i32::MIN {
            proof { vstd::arithmetic::div_mod::lemma_mod_self_0(abs(a as int)); }
            0
        } else {
            proof { vstd::arithmetic::div_mod::lemma_small_mod(abs(a as int) as nat, abs(b as int) as nat); }
            a
        }
    } else {
        let nb: i32 = -b;
        let r = a % nb;
        assert(r == trem(a as int, nb as int));
        r
    }
}


/// The low bit of `x` is its remainder by 2 (`x % 2` being Euclidean).
pub proof fn lemma_and1_mod2(x: i32)
    ensures
        (x & 1i32) as int == (x as int) % 2,
        0 <= (x & 1i32) <= 1,
{
    assert(x >= 0 ==> (x & 1i32) == x % 2) by (bit_vector);
    assert(x < 0 ==> (x & 1i32) == 1 - ((-1 - x) % 2)) by (bit_vector);
}

/// An arithmetic right shift by two is floor division by 4.
pub proof fn lemma_shr2_floor(x: i32)
    ensures
        (x >> 2u32) as int == (x as int) / 4,
{
    assert(x >= 0 ==> (x >> 2u32) == x / 4) by (bit_vector);
    assert(x < 0 ==> (x >> 2u32) == -(((-1 - x) / 4)) - 1) by (bit_vector);
}

} // verus!
