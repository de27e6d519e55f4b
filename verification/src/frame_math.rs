//! Frame-rate conversion arithmetic: which source frame an output frame
//! falls on and the blend phase between neighbouring source frames.
use vstd::prelude::*;
use crate::arith::{
    abs, clamp_i32, clamp_i32_128, div_i64, sat_add_i64, sat_i32, sat_i64, sat_mul_i64, tdiv, trem,
};

verus! {

/// Output frame rate and the ratio between output and source frame
/// periods, each kept as a reduced fraction.
#[derive(Clone, Copy)]
pub struct Timing {
    pub fps_num: i64,
    pub fps_den: i64,
    pub frame_num: i64,
    pub frame_den: i64,
}

/// Greatest common divisor by Euclid's algorithm.
pub open spec fn gcd_spec(a: nat, b: nat) -> nat
    decreases b,
{
    if b == 0 {
        a
    } else {
        gcd_spec(b, a % b)
    }
}

pub open spec fn non_zero_spec(v: int) -> int {
    if v == 0 { 1 } else { v }
}

/// The divisor that `normalize` uses: the gcd of the magnitudes, or 1
/// where the gcd does not fit in an `i64`.
pub open spec fn normalize_divisor(num: int, den: int) -> int {
    let g = gcd_spec(abs(num) as nat, abs(den) as nat);
    if g <= i64::MAX { g as int } else { 1 }
}

/// A fraction reduced by the gcd of its parts; `(0, 1)` when either part
/// is zero.
pub open spec fn normalize_spec(num: int, den: int) -> (int, int) {
    if num == 0 || den == 0 {
        (0, 1)
    } else {
        let d = normalize_divisor(num, den);
        (tdiv(num, d), tdiv(den, d))
    }
}

/// The four fields that `Timing::new` computes.
pub open spec fn timing_spec(
    source_fps_num: int,
    source_fps_den: int,
    absolute: bool,
    rate_num: int,
    rate_den: int,
) -> (int, int, int, int) {
    let rn = non_zero_spec(rate_num);
    let rd = non_zero_spec(rate_den);
    let fps = if absolute {
        normalize_spec(rn, rd)
    } else {
        normalize_spec(sat_i64(source_fps_num * rn), sat_i64(source_fps_den * rd))
    };
    let frame = normalize_spec(
        sat_i64(source_fps_den * fps.0),
        sat_i64(source_fps_num * fps.1),
    );
    (fps.0, fps.1, frame.0, frame.1)
}

impl Timing {
    pub open spec fn fields(self) -> (int, int, int, int) {
        (self.fps_num as int, self.fps_den as int, self.frame_num as int, self.frame_den as int)
    }

    /// What `source_frame` divides by `frame_num`.
    pub open spec fn source_dividend(self, frame: int, round_nearest: bool) -> int {
        let scaled = sat_i64(frame * self.frame_den);
        if round_nearest {
            sat_i64(scaled + tdiv(self.frame_num as int, 2))
        } else {
            scaled
        }
    }

    /// The source frame that output `frame` maps to, rounded down or to the
    /// nearest frame.
    pub open spec fn source_frame_spec(self, frame: int, round_nearest: bool) -> int {
        if self.frame_num == 0 {
            frame
        } else {
            sat_i32(tdiv(self.source_dividend(frame, round_nearest), self.frame_num as int))
        }
    }

    /// Rounded 1/256 steps of `remainder / frame_num`.
    pub open spec fn phase_of_remainder(self, remainder: int) -> int {
        sat_i32((remainder * 512 + self.frame_num) / (2 * self.frame_num))
    }

    /// Blend position, in 1/256 units, of output `frame` past the start of
    /// `source_frame`.
    pub open spec fn phase_256_spec(self, frame: int, source_frame: int) -> int {
        if self.frame_num <= 0 {
            0
        } else {
            let remainder = frame * self.frame_den - source_frame * self.frame_num;
            if remainder <= 0 {
                0
            } else {
                self.phase_of_remainder(remainder)
            }
        }
    }

    /// Blend position, in 1/256 units, of output `frame` past the source
    /// frame it falls after.
    pub open spec fn output_phase_256_spec(self, frame: int) -> int {
        if self.frame_num <= 0 {
            0
        } else {
            self.phase_of_remainder((frame * self.frame_den) % (self.frame_num as int))
        }
    }

    /// What `scale_frame_count` adds one to.
    pub open spec fn scaled_count_quotient(self, frames: int) -> int {
        tdiv(sat_i64((frames - 1) * self.frame_num), self.frame_den as int)
    }

    /// Output frame count for `frames` source frames.
    pub open spec fn scale_frame_count_spec(self, frames: int) -> int {
        if frames <= 0 || self.frame_den == 0 {
            frames
        } else {
            sat_i32(self.scaled_count_quotient(frames) + 1)
        }
    }

    /// Builds the timing for a source rate and a requested rate, absolute or
    /// relative to the source.
    pub fn new(
        source_fps_num: i64,
        source_fps_den: i64,
        absolute: bool,
        rate_num: i64,
        rate_den: i64,
    ) -> (t: Self)
        ensures
            t.fields() == timing_spec(
                source_fps_num as int,
                source_fps_den as int,
                absolute,
                rate_num as int,
                rate_den as int,
            ),
    {
        let rate_num = non_zero(rate_num);
        let rate_den = non_zero(rate_den);
        let (fps_num, fps_den) = if absolute {
            normalize(rate_num, rate_den)
        } else {
            normalize(
                sat_mul_i64(source_fps_num, rate_num),
                sat_mul_i64(source_fps_den, rate_den),
            )
        };
        let (frame_num, frame_den) = normalize(
            sat_mul_i64(source_fps_den, fps_num),
            sat_mul_i64(source_fps_num, fps_den),
        );
        Timing { fps_num, fps_den, frame_num, frame_den }
    }

    /// The source frame that output `frame` maps to.
    pub fn source_frame(self, frame: i32, round_nearest: bool) -> (r: i32)
        requires
            self.frame_num == -1 ==> self.source_dividend(frame as int, round_nearest)
                != i64::MIN,
        ensures
            r == self.source_frame_spec(frame as int, round_nearest),
    {
        if self.frame_num == 0 {
            return frame;
        }
        let scaled = sat_mul_i64(frame as i64, self.frame_den);
        if round_nearest {
            let half = div_i64(self.frame_num, 2);
            clamp_i32(div_i64(sat_add_i64(scaled, half), self.frame_num))
        } else {
            clamp_i32(div_i64(scaled, self.frame_num))
        }
    }

    /// Blend phase of output `frame` relative to `source_frame`.
    pub fn phase_256(self, frame: i32, source_frame: i32) -> (r: i32)
        ensures
            r == self.phase_256_spec(frame as int, source_frame as int),
    {
        if self.frame_num <= 0 {
            return 0;
        }
        proof {
            lemma_i32_times_i64_fits(frame as int, self.frame_den as int);
            lemma_i32_times_i64_fits(source_frame as int, self.frame_num as int);
        }
        // Each product fits in 95 bits, so no operation below saturates.
        let scaled = (frame as i128) * (self.frame_den as i128);
        let whole = (source_frame as i128) * (self.frame_num as i128);
        let remainder = scaled - whole;
        if remainder <= 0 {
            return 0;
        }
        self.phase_from_remainder(remainder)
    }

    /// Rounded 1/256 steps of a positive remainder below 2^96.
    fn phase_from_remainder(self, remainder: i128) -> (r: i32)
        requires
            self.frame_num > 0,
            0 <= remainder < 0x1_0000_0000_0000_0000_0000_0000,
        ensures
            r == self.phase_of_remainder(remainder as int),
    {
        let num = self.frame_num as i128;
        let q = (remainder * 512 + num) / (num * 2);
        clamp_i32_128(q)
    }

    /// Blend phase of output `frame` relative to the source frame before it.
    pub fn output_phase_256(self, frame: i32) -> (r: i32)
        ensures
            r == self.output_phase_256_spec(frame as int),
    {
        if self.frame_num <= 0 {
            return 0;
        }
        proof {
            lemma_i32_times_i64_fits(frame as int, self.frame_den as int);
        }
        let scaled = (frame as i128) * (self.frame_den as i128);
        let remainder = rem_euclid_i128(scaled, self.frame_num as i128);
        self.phase_from_remainder(remainder)
    }

    /// Number of output frames that `frames` source frames give.
    pub fn scale_frame_count(self, frames: i32) -> (r: i32)
        requires
            frames > 0 && self.frame_den != 0 ==> {
                &&& (self.frame_den == -1 ==> sat_i64((frames - 1) * self.frame_num) != i64::MIN)
                &&& self.scaled_count_quotient(frames as int) < i64::MAX
            },
        ensures
            r == self.scale_frame_count_spec(frames as int),
    {
        if frames <= 0 || self.frame_den == 0 {
            return frames;
        }
        let q = div_i64(sat_mul_i64((frames - 1) as i64, self.frame_num), self.frame_den);
        clamp_i32(q + 1)
    }
}

/// `x * y` for an `i32` and an `i64` is below 2^94 in magnitude.
proof fn lemma_i32_times_i64_fits(x: int, y: int)
    requires
        i32::MIN <= x <= i32::MAX,
        i64::MIN <= y <= i64::MAX,
    ensures
        -0x4000_0000_0000_0000_0000_0000 <= x * y <= 0x4000_0000_0000_0000_0000_0000,
{
    assert(-0x4000_0000_0000_0000_0000_0000 <= x * y <= 0x4000_0000_0000_0000_0000_0000)
        by (nonlinear_arith)
        requires
            -0x8000_0000 <= x <= 0x7fff_ffff,
            -0x8000_0000_0000_0000 <= y <= 0x7fff_ffff_ffff_ffff,
    ;
}

/// The product of two `i32` values is below 2^62 in magnitude.
pub proof fn lemma_i32_times_i32_fits(x: int, y: int)
    requires
        i32::MIN <= x <= i32::MAX,
        i32::MIN <= y <= i32::MAX,
    ensures
        -0x4000_0000_0000_0000 <= x * y <= 0x4000_0000_0000_0000,
{
    assert(-0x4000_0000_0000_0000 <= x * y <= 0x4000_0000_0000_0000) by (nonlinear_arith)
        requires
            -0x8000_0000 <= x <= 0x7fff_ffff,
            -0x8000_0000 <= y <= 0x7fff_ffff,
    ;
}

/// Euclidean remainder of `x` by a positive `n`.
fn rem_euclid_i128(x: i128, n: i128) -> (r: i128)
    requires
        n > 0,
    ensures
        r == (x as int) % (n as int),
{
    let t = x % n;
    proof {
        lemma_trem_to_euclid(x as int, n as int);
    }
    if t < 0 {
        t + n
    } else {
        t
    }
}

/// A truncating remainder, moved up by the divisor when negative, is the
/// Euclidean remainder.
proof fn lemma_trem_to_euclid(x: int, n: int)
    requires
        n > 0,
    ensures
        trem(x, n) > -n,
        trem(x, n) < n,
        (if trem(x, n) < 0 { trem(x, n) + n } else { trem(x, n) }) == x % n,
{
    if x >= 0 {
        vstd::arithmetic::div_mod::lemma_fundamental_div_mod(x, n);
    } else {
        let m = -x;
        vstd::arithmetic::div_mod::lemma_fundamental_div_mod(m, n);
        let q = m / n;
        let r = m % n;
        if r == 0 {
            assert(x == (-q) * n + 0) by (nonlinear_arith)
                requires
                    m == n * q + r,
                    r == 0,
                    x == -m,
            ;
            vstd::arithmetic::div_mod::lemma_fundamental_div_mod_converse(x, n, -q, 0);
        } else {
            assert(x == (-q - 1) * n + (n - r)) by (nonlinear_arith)
                requires
                    m == n * q + r,
                    x == -m,
            ;
            vstd::arithmetic::div_mod::lemma_fundamental_div_mod_converse(x, n, -q - 1, n - r);
        }
    }
}

/// `0` becomes `1`; everything else stays.
fn non_zero(value: i64) -> (r: i64)
    ensures
        r == non_zero_spec(value as int),
{
    if value == 0 {
        1
    } else {
        value
    }
}

/// Magnitude of an `i64` as a `u64`.
fn unsigned_abs(v: i64) -> (r: u64)
    ensures
        r == abs(v as int),
{
    if v < 0 {
        (-(v as i128)) as u64
    } else {
        v as u64
    }
}

/// The fraction `num / den` reduced to lowest terms.
pub fn normalize(num: i64, den: i64) -> (r: (i64, i64))
    ensures
        (r.0 as int, r.1 as int) == normalize_spec(num as int, den as int),
{
    if num == 0 || den == 0 {
        return (0, 1);
    }
    let g = gcd(unsigned_abs(num), unsigned_abs(den));
    proof {
        lemma_gcd_positive(abs(num as int) as nat, abs(den as int) as nat);
    }
    let d: i64 = if g <= i64::MAX as u64 {
        g as i64
    } else {
        1
    };
    (div_i64(num, d), div_i64(den, d))
}

/// Greatest common divisor of two naturals.
pub fn gcd(left: u64, right: u64) -> (r: u64)
    ensures
        r == gcd_spec(left as nat, right as nat),
{
    let mut left = left;
    let mut right = right;
    let ghost a = left as nat;
    let ghost b = right as nat;
    while right != 0
        invariant
            gcd_spec(left as nat, right as nat) == gcd_spec(a, b),
        decreases right,
    {
        let next = left % right;
        left = right;
        right = next;
    }
    left
}

/// The gcd of two naturals, not both zero, is positive.
pub proof fn lemma_gcd_positive(a: nat, b: nat)
    requires
        a > 0 || b > 0,
    ensures
        gcd_spec(a, b) > 0,
    decreases b,
{
    if b > 0 {
        lemma_gcd_positive(b, a % b);
    }
}

/// The gcd divides both arguments.
pub proof fn lemma_gcd_divides(a: nat, b: nat)
    requires
        a > 0 || b > 0,
    ensures
        gcd_spec(a, b) > 0,
        a % gcd_spec(a, b) == 0,
        b % gcd_spec(a, b) == 0,
    decreases b,
{
    lemma_gcd_positive(a, b);
    if b > 0 {
        lemma_gcd_divides(b, a % b);
        let g = gcd_spec(a, b);
        vstd::arithmetic::div_mod::lemma_fundamental_div_mod(a as int, b as int);
        vstd::arithmetic::div_mod::lemma_fundamental_div_mod(b as int, g as int);
        vstd::arithmetic::div_mod::lemma_fundamental_div_mod((a % b) as int, g as int);
        let qb = b / g;
        let qr = (a % b) / g;
        let q = a / b;
        assert(a == (q * qb + qr) * g + 0) by (nonlinear_arith)
            requires
                a == b * q + a % b,
                b == g * qb,
                a % b == g * qr,
        ;
        vstd::arithmetic::div_mod::lemma_fundamental_div_mod_converse(
            a as int,
            g as int,
            (q * qb + qr) as int,
            0,
        );
    }
}

/// Scaling both arguments scales the gcd.
pub proof fn lemma_gcd_scale(k: nat, x: nat, y: nat)
    requires
        k > 0,
    ensures
        gcd_spec(k * x, k * y) == k * gcd_spec(x, y),
    decreases y,
{
    if y == 0 {
        assert(k * y == 0) by (nonlinear_arith)
            requires
                y == 0,
        ;
    } else {
        assert(k * y > 0) by (nonlinear_arith)
            requires
                k > 0,
                y > 0,
        ;
        vstd::arithmetic::div_mod::lemma_fundamental_div_mod(x as int, y as int);
        let q = x / y;
        let r = x % y;
        assert(k * x == q * (k * y) + k * r) by (nonlinear_arith)
            requires
                x == y * q + r,
        ;
        assert(0 <= k * r < k * y) by (nonlinear_arith)
            requires
                0 <= r < y,
                k > 0,
        ;
        vstd::arithmetic::div_mod::lemma_fundamental_div_mod_converse(
            (k * x) as int,
            (k * y) as int,
            q as int,
            (k * r) as int,
        );
        assert((k * x) % (k * y) == k * r);
        lemma_gcd_scale(k, y, r);
    }
}

/// `normalize` keeps the value of the fraction: the result, cross-multiplied
/// with the input, agrees.
pub proof fn lemma_normalize_keeps_ratio(num: i64, den: i64)
    requires
        num != 0,
        den != 0,
    ensures
        normalize_spec(num as int, den as int).0 * den == normalize_spec(
            num as int,
            den as int,
        ).1 * num,
        normalize_spec(num as int, den as int).1 != 0,
        (normalize_spec(num as int, den as int).1 > 0) == (den > 0),
{
    let an = abs(num as int) as nat;
    let ad = abs(den as int) as nat;
    lemma_gcd_divides(an, ad);
    let g = gcd_spec(an, ad);
    let d = normalize_divisor(num as int, den as int);
    vstd::arithmetic::div_mod::lemma_fundamental_div_mod(an as int, g as int);
    vstd::arithmetic::div_mod::lemma_fundamental_div_mod(ad as int, g as int);
    let a1 = an / g;
    let d1 = ad / g;
    if d == 1 {
        vstd::arithmetic::div_mod::lemma_div_basics_2(abs(num as int));
        vstd::arithmetic::div_mod::lemma_div_basics_2(abs(den as int));
        assert(tdiv(num as int, 1) == num as int);
        assert(tdiv(den as int, 1) == den as int);
        assert((num as int) * (den as int) == (den as int) * (num as int)) by (nonlinear_arith);
    } else {
        assert(d == g);
        assert(an == g * a1);
        assert(ad == g * d1);
        assert(d1 > 0) by (nonlinear_arith)
            requires
                ad == g * d1,
                ad > 0,
                g > 0,
        ;
        let sn: int = if num > 0 { 1 } else { -1 };
        let sd: int = if den > 0 { 1 } else { -1 };
        assert(num == sn * an) by {
            if num > 0 {
                assert(sn * an == an) by (nonlinear_arith)
                    requires
                        sn == 1,
                ;
            } else {
                assert(sn * an == -an) by (nonlinear_arith)
                    requires
                        sn == -1,
                ;
            }
        }
        assert(den == sd * ad) by {
            if den > 0 {
                assert(sd * ad == ad) by (nonlinear_arith)
                    requires
                        sd == 1,
                ;
            } else {
                assert(sd * ad == -ad) by (nonlinear_arith)
                    requires
                        sd == -1,
                ;
            }
        }
        assert(tdiv(num as int, d) == sn * a1) by {
            if num > 0 {
                assert(sn * a1 == a1) by (nonlinear_arith)
                    requires
                        sn == 1,
                ;
            } else {
                assert(sn * a1 == -a1) by (nonlinear_arith)
                    requires
                        sn == -1,
                ;
            }
        }
        assert(tdiv(den as int, d) == sd * d1) by {
            if den > 0 {
                assert(sd * d1 == d1) by (nonlinear_arith)
                    requires
                        sd == 1,
                ;
            } else {
                assert(sd * d1 == -d1) by (nonlinear_arith)
                    requires
                        sd == -1,
                ;
            }
        }
        assert((sn * a1) * den == (sd * d1) * num) by (nonlinear_arith)
            requires
                num == sn * an,
                den == sd * ad,
                an == g * a1,
                ad == g * d1,
        ;
    }
}

/// Away from the one input whose gcd does not fit in an `i64`
/// (`i64::MIN` over `i64::MIN`), `normalize` returns a fraction in lowest
/// terms.
pub proof fn lemma_normalize_reduced(num: i64, den: i64)
    requires
        num != 0,
        den != 0,
        !(num == i64::MIN && den == i64::MIN),
    ensures
        gcd_spec(
            abs(normalize_spec(num as int, den as int).0) as nat,
            abs(normalize_spec(num as int, den as int).1) as nat,
        ) == 1,
{
    let an = abs(num as int) as nat;
    let ad = abs(den as int) as nat;
    lemma_gcd_divides(an, ad);
    let g = gcd_spec(an, ad);
    vstd::arithmetic::div_mod::lemma_fundamental_div_mod(an as int, g as int);
    vstd::arithmetic::div_mod::lemma_fundamental_div_mod(ad as int, g as int);
    let a1 = an / g;
    let d1 = ad / g;
    assert(g <= an || g <= ad) by {
        if an > 0 {
            assert(g <= an) by (nonlinear_arith)
                requires
                    an == g * a1,
                    an > 0,
                    g > 0,
            ;
        }
    }
    assert(g <= i64::MAX) by {
        assert(g <= an) by (nonlinear_arith)
            requires
                an == g * a1,
                an > 0,
                g > 0,
        ;
        assert(g <= ad) by (nonlinear_arith)
            requires
                ad == g * d1,
                ad > 0,
                g > 0,
        ;
        if g > i64::MAX {
            assert(an == 0x8000_0000_0000_0000);
            assert(ad == 0x8000_0000_0000_0000);
        }
    }
    assert(a1 >= 0 && d1 >= 0) by {
        vstd::arithmetic::div_mod::lemma_div_pos_is_pos(an as int, g as int);
        vstd::arithmetic::div_mod::lemma_div_pos_is_pos(ad as int, g as int);
    }
    assert(an == g * (a1 as nat));
    assert(ad == g * (d1 as nat));
    lemma_gcd_scale(g, a1 as nat, d1 as nat);
    assert(g * gcd_spec(a1 as nat, d1 as nat) == g * 1);
    assert(gcd_spec(a1 as nat, d1 as nat) == 1) by (nonlinear_arith)
        requires
            g * gcd_spec(a1 as nat, d1 as nat) == g * 1,
            g > 0,
    ;
    assert(abs(normalize_spec(num as int, den as int).0) == a1);
    assert(abs(normalize_spec(num as int, den as int).1) == d1);
}


/// For positive rates whose products do not saturate, `Timing::new` gives
/// the output rate and the output-to-source frame ratio in lowest terms,
/// with positive denominators: the output rate is the requested rate
/// (absolute) or the source rate times it (relative), and the frame ratio
/// is the output rate over the source rate.
pub proof fn lemma_timing_lowest_terms(
    source_fps_num: i64,
    source_fps_den: i64,
    absolute: bool,
    rate_num: i64,
    rate_den: i64,
)
    requires
        source_fps_num > 0 && source_fps_den > 0 && rate_num > 0 && rate_den > 0,
        !absolute ==> source_fps_num * rate_num <= i64::MAX && source_fps_den * rate_den <= i64::MAX,
        source_fps_den * timing_spec(source_fps_num as int, source_fps_den as int, absolute, rate_num as int, rate_den as int).0 <= i64::MAX,
        source_fps_num * timing_spec(source_fps_num as int, source_fps_den as int, absolute, rate_num as int, rate_den as int).1 <= i64::MAX,
    ensures
        ({
            let t = timing_spec(source_fps_num as int, source_fps_den as int, absolute, rate_num as int, rate_den as int);
            let (n, d) = if absolute { (rate_num as int, rate_den as int) } else { (source_fps_num * rate_num, source_fps_den * rate_den) };
            &&& t.0 > 0 && t.1 > 0 && t.2 > 0 && t.3 > 0
            &&& gcd_spec(t.0 as nat, t.1 as nat) == 1
            &&& gcd_spec(t.2 as nat, t.3 as nat) == 1
            &&& t.0 * d == t.1 * n
            &&& t.2 * source_fps_num * t.1 == t.3 * source_fps_den * t.0
        }),
{
    let sn = source_fps_num as int;
    let sd = source_fps_den as int;
    let (n, d) = if absolute { (rate_num as int, rate_den as int) } else { (sn * rate_num, sd * rate_den) };
    assert(n > 0 && d > 0) by (nonlinear_arith)
        requires
            sn > 0 && sd > 0 && rate_num > 0 && rate_den > 0,
            absolute ==> n == rate_num && d == rate_den,
            !absolute ==> n == sn * rate_num && d == sd * rate_den,
    ;
    assert(n <= i64::MAX && d <= i64::MAX);
    let fps = normalize_spec(n, d);
    lemma_normalize_keeps_ratio(n as i64, d as i64);
    lemma_normalize_reduced(n as i64, d as i64);
    assert(fps.1 > 0);
    assert(fps.0 > 0) by (nonlinear_arith)
        requires
            fps.0 * d == fps.1 * n,
            fps.1 > 0,
            n > 0,
            d > 0,
    ;
    let t = timing_spec(sn, sd, absolute, rate_num as int, rate_den as int);
    assert(t.0 == fps.0 && t.1 == fps.1);
    let fn_ = sd * fps.0;
    let fd = sn * fps.1;
    assert(fn_ > 0 && fd > 0) by (nonlinear_arith)
        requires
            sn > 0 && sd > 0 && fps.0 > 0 && fps.1 > 0,
            fn_ == sd * fps.0,
            fd == sn * fps.1,
    ;
    let frame = normalize_spec(fn_, fd);
    lemma_normalize_keeps_ratio(fn_ as i64, fd as i64);
    lemma_normalize_reduced(fn_ as i64, fd as i64);
    assert(t.2 == frame.0 && t.3 == frame.1);
    assert(frame.1 > 0);
    assert(frame.0 > 0) by (nonlinear_arith)
        requires
            frame.0 * fd == frame.1 * fn_,
            frame.1 > 0,
            fn_ > 0,
            fd > 0,
    ;
    assert(t.2 * sn * t.1 == t.3 * sd * t.0) by (nonlinear_arith)
        requires
            frame.0 * fd == frame.1 * fn_,
            fn_ == sd * fps.0,
            fd == sn * fps.1,
            t.0 == fps.0 && t.1 == fps.1 && t.2 == frame.0 && t.3 == frame.1,
    ;
}

/// For a non-negative output frame whose scaled position does not
/// saturate, the blend position past the source frame it falls after is
/// the blend position past `source_frame(frame, false)`.
pub proof fn lemma_output_phase_agrees(t: Timing, frame: int)
    requires
        t.frame_den >= 0,
        frame >= 0,
        frame * t.frame_den <= i64::MAX,
        t.frame_num > 0 ==> (frame * t.frame_den) / (t.frame_num as int) <= i32::MAX,
    ensures
        t.output_phase_256_spec(frame) == t.phase_256_spec(frame, t.source_frame_spec(frame, false)),
{
    if t.frame_num > 0 {
        let x = frame * t.frame_den;
        let fnum = t.frame_num as int;
        assert(x >= 0) by (nonlinear_arith)
            requires
                frame >= 0,
                t.frame_den >= 0,
                x == frame * t.frame_den,
        ;
        assert(t.source_dividend(frame, false) == x);
        assert(tdiv(x, fnum) == x / fnum);
        vstd::arithmetic::div_mod::lemma_fundamental_div_mod(x, fnum);
        vstd::arithmetic::div_mod::lemma_div_pos_is_pos(x, fnum);
        let sf = t.source_frame_spec(frame, false);
        assert(sf == x / fnum);
        assert(x - sf * fnum == x % fnum) by (nonlinear_arith)
            requires
                x == fnum * (x / fnum) + x % fnum,
                sf == x / fnum,
        ;
        if x % fnum == 0 {
            assert((0 * 512 + fnum) / (2 * fnum) == 0) by (nonlinear_arith)
                requires
                    fnum > 0,
            ;
        }
    }
}

/// For a positive frame ratio, a non-negative output frame and no
/// saturation, `source_frame` rounding down gives the source frame the
/// output frame falls in, and rounding to the nearest gives a nearest
/// source frame: the output position `frame * frame_den / frame_num` lies
/// in `[r, r + 1)`, respectively within half a frame of `r`.
pub proof fn lemma_source_frame_rounding(t: Timing, frame: int)
    requires
        t.frame_num > 0,
        t.frame_den >= 0,
        frame >= 0,
        frame * t.frame_den + t.frame_num / 2 <= i64::MAX,
        (frame * t.frame_den + t.frame_num / 2) / (t.frame_num as int) <= i32::MAX,
    ensures
        ({
            let x = frame * t.frame_den;
            let n = t.frame_num as int;
            let down = t.source_frame_spec(frame, false);
            let near = t.source_frame_spec(frame, true);
            &&& down * n <= x < (down + 1) * n
            &&& 2 * (near * n - x) <= n && 2 * (x - near * n) <= n
        }),
{
    let x = frame * t.frame_den;
    let n = t.frame_num as int;
    let hf = n / 2;
    assert(x >= 0) by (nonlinear_arith)
        requires
            frame >= 0,
            t.frame_den >= 0,
            x == frame * t.frame_den,
    ;
    assert(hf >= 0 && 2 * hf <= n && n <= 2 * hf + 1) by {
        vstd::arithmetic::div_mod::lemma_fundamental_div_mod(n, 2);
    }
    assert(tdiv(n, 2) == hf);
    assert(t.source_dividend(frame, false) == x);
    assert(t.source_dividend(frame, true) == x + hf);
    vstd::arithmetic::div_mod::lemma_fundamental_div_mod(x, n);
    vstd::arithmetic::div_mod::lemma_fundamental_div_mod(x + hf, n);
    vstd::arithmetic::div_mod::lemma_div_pos_is_pos(x, n);
    vstd::arithmetic::div_mod::lemma_div_pos_is_pos(x + hf, n);
    vstd::arithmetic::div_mod::lemma_div_is_ordered(x, x + hf, n);
    assert(tdiv(x, n) == x / n);
    assert(tdiv(x + hf, n) == (x + hf) / n);
    let down = t.source_frame_spec(frame, false);
    let near = t.source_frame_spec(frame, true);
    assert(down == x / n);
    assert(near == (x + hf) / n);
    assert(down * n <= x < (down + 1) * n) by (nonlinear_arith)
        requires
            x == n * (x / n) + x % n,
            0 <= x % n < n,
            down == x / n,
    ;
    assert(near * n <= x + hf < (near + 1) * n) by (nonlinear_arith)
        requires
            x + hf == n * ((x + hf) / n) + (x + hf) % n,
            0 <= (x + hf) % n < n,
            near == (x + hf) / n,
    ;
}

/// The blend phase is the output frame's distance past `source_frame`,
/// in 256ths of a source frame, rounded to the nearest (halves up): 0 at
/// or before it, and at most 256 within the following source frame.
pub proof fn lemma_phase_rounding(t: Timing, frame: int, source_frame: int)
    requires
        t.frame_num > 0,
        frame * t.frame_den - source_frame * t.frame_num < t.frame_num,
    ensures
        ({
            let n = t.frame_num as int;
            let rem = frame * t.frame_den - source_frame * n;
            let p = t.phase_256_spec(frame, source_frame);
            &&& rem <= 0 ==> p == 0
            &&& rem > 0 ==> 0 <= p <= 256 && 2 * n * p <= 512 * rem + n && 512 * rem + n < 2 * n * (p + 1)
        }),
{
    let n = t.frame_num as int;
    let rem = frame * t.frame_den - source_frame * n;
    if rem > 0 {
        let q = (rem * 512 + n) / (2 * n);
        vstd::arithmetic::div_mod::lemma_fundamental_div_mod(rem * 512 + n, 2 * n);
        vstd::arithmetic::div_mod::lemma_div_pos_is_pos(rem * 512 + n, 2 * n);
        assert(q <= 256) by (nonlinear_arith)
            requires
                rem * 512 + n == 2 * n * q + (rem * 512 + n) % (2 * n),
                0 <= (rem * 512 + n) % (2 * n),
                rem < n,
                n > 0,
        ;
        assert(2 * n * q <= 512 * rem + n && 512 * rem + n < 2 * n * (q + 1)) by (nonlinear_arith)
            requires
                rem * 512 + n == 2 * n * q + (rem * 512 + n) % (2 * n),
                0 <= (rem * 512 + n) % (2 * n) < 2 * n,
        ;
    }
}

/// For positive rates, the output frame count of `frames` source frames
/// (no saturation) is one more than the last output frame at or before
/// the last source frame: `(count - 1) * frame_den <= (frames - 1) *
/// frame_num < count * frame_den`.
pub proof fn lemma_frame_count(t: Timing, frames: int)
    requires
        frames >= 1,
        t.frame_num >= 0,
        t.frame_den > 0,
        (frames - 1) * t.frame_num <= i64::MAX,
        ((frames - 1) * t.frame_num) / (t.frame_den as int) + 1 <= i32::MAX,
    ensures
        ({
            let c = t.scale_frame_count_spec(frames);
            (c - 1) * t.frame_den <= (frames - 1) * t.frame_num && (frames - 1) * t.frame_num < c * t.frame_den
        }),
{
    let x = (frames - 1) * t.frame_num;
    let d = t.frame_den as int;
    assert(x >= 0) by (nonlinear_arith)
        requires
            frames >= 1,
            t.frame_num >= 0,
            x == (frames - 1) * t.frame_num,
    ;
    vstd::arithmetic::div_mod::lemma_fundamental_div_mod(x, d);
    vstd::arithmetic::div_mod::lemma_div_pos_is_pos(x, d);
    assert(tdiv(x, d) == x / d);
    let c = t.scale_frame_count_spec(frames);
    assert(c == x / d + 1);
    assert((c - 1) * d <= x && x < c * d) by (nonlinear_arith)
        requires
            x == d * (x / d) + x % d,
            0 <= x % d < d,
            c == x / d + 1,
    ;
}

} // verus!
