//! Shared renderer types and the per-pixel arithmetic of the blend modes:
//! weighted blends, clamps, motion-vector centring and plane addressing.
use vstd::prelude::*;
use crate::arith::{clamp, lemma_shr8_floor, sat_i32, sat_mul_i32, sat_sub_i32, tdiv, div_i32};

verus! {

/// Centre value of a motion plane sample: no motion.
pub const NEUTRAL: u16 = 1024;

/// Largest vector component that a motion plane can hold.
pub const MAX_VECTOR: i32 = 1023;

pub const LUT_CENTER: i32 = 1024;

pub const LUT_LEN: usize = 2048;

pub const MAX_BLOCK_SIZE: usize = 32;

/// A block's motion vector and its magnitude.
#[derive(Clone, Copy, Default)]
pub struct Vector {
    pub dx: i16,
    pub dy: i16,
    pub magnitude: u32,
}

/// The block layout and the two vector fields of a frame pair.
#[derive(Clone, Copy)]
pub struct VectorContext<'a> {
    pub block_w: i32,
    pub block_h: i32,
    pub scale_shift_base: i32,
    pub frame_w: i32,
    pub frame_h: i32,
    pub origin_x: i32,
    pub origin_y: i32,
    pub grid_w: usize,
    pub grid_h: usize,
    pub raw: bool,
    pub a: &'a [Vector],
    pub b: &'a [Vector],
}

/// Per-plane parameters handed to a GPU renderer.
#[derive(Clone, Copy)]
pub struct GpuPlaneParams {
    pub width: i32,
    pub height: i32,
    pub block_w: i32,
    pub block_h: i32,
    pub origin_x: i32,
    pub origin_y: i32,
    pub x_shift: i32,
    pub y_shift: i32,
    pub x_div: i32,
    pub y_div: i32,
    pub source_step: i32,
}

/// The samples that one pixel of the two-way blend mixes.
#[derive(Clone, Copy)]
pub struct Mode23Sample {
    pub a: u8,
    pub b: u8,
    pub c: u8,
    pub d: u8,
    pub base_a: u8,
    pub base_b: u8,
    pub t0: u8,
    pub t1: u8,
    pub mask: Option<u8>,
}

/// A read-only image plane: linear rows, or a super plane whose
/// sub-pixel copies are interleaved `super_span` bytes apart.
#[derive(Clone, Copy)]
pub struct Plane<'a> {
    pub data: &'a [u8],
    pub stride: usize,
    pub super_span: usize,
    pub super_shift: u32,
}

/// A writable image plane.
pub struct PlaneMut<'a> {
    pub data: &'a mut [u8],
    pub stride: usize,
}

#[derive(Clone, Copy)]
pub struct FramePlanes<'a> {
    pub y: Plane<'a>,
    pub u: Plane<'a>,
    pub v: Plane<'a>,
}

pub struct FramePlanesMut<'a> {
    pub y: PlaneMut<'a>,
    pub u: PlaneMut<'a>,
    pub v: PlaneMut<'a>,
}

/// Motion planes: vector components centred on `NEUTRAL`.
#[derive(Clone, Copy)]
pub struct MotionPlanes<'a> {
    pub x: &'a [u16],
    pub y: &'a [u16],
}

#[derive(Clone, Copy)]
pub struct MaskPlanes<'a> {
    pub a: &'a [u8],
    pub b: &'a [u8],
}

/// Everything one plane of a render reads.
#[derive(Clone, Copy)]
pub struct PlaneRenderInput<'a> {
    pub source0: Plane<'a>,
    pub source1: Plane<'a>,
    pub motion0: MotionPlanes<'a>,
    pub motion1: MotionPlanes<'a>,
    pub motion2: Option<MotionPlanes<'a>>,
    pub motion3: Option<MotionPlanes<'a>>,
    pub masks: Option<MaskPlanes<'a>>,
    pub final_mask: Option<&'a [u8]>,
}

#[derive(Clone, Copy, Debug, PartialEq, Eq, Structural)]
pub enum RenderError {
    UnsupportedMode,
    MissingMasks,
    MissingMotion,
}

/// The order in which the motion-compensated samples are blended.
#[derive(Clone, Copy)]
pub enum BlendOrder {
    Forward,
}

impl<'a> Plane<'a> {
    /// A plane of plain rows.
    pub fn linear(data: &'a [u8], stride: usize) -> (r: Self)
        ensures
            r.data@ == data@,
            r.stride == stride,
            r.super_span == 0,
            r.super_shift == 0,
    {
        Plane { data, stride, super_span: 0, super_shift: 0 }
    }

    pub fn layout(&self) -> (r: (usize, usize, u32))
        ensures
            r == (self.stride, self.super_span, self.super_shift),
    {
        (self.stride, self.super_span, self.super_shift)
    }

    /// A super plane with `2^shift` sub-pixel copies per axis; `None` when
    /// the shift is 0 or not below the width of `usize`.
    pub fn super_plane(data: &'a [u8], stride: usize, span: usize, shift: u32) -> (r: Option<Self>)
        ensures
            (shift == 0 || shift >= usize::BITS) <==> r is None,
            r matches Some(p) ==> p.data@ == data@ && p.stride == stride && p.super_span == span
                && p.super_shift == shift,
    {
        if shift == 0 || shift >= usize::BITS {
            return None;
        }
        Some(Plane { data, stride, super_span: span, super_shift: shift })
    }
}

impl<'a> VectorContext<'a> {
    pub open spec fn set_spec(&self, which: usize) -> &'a [Vector] {
        if which == 0 { self.a } else { self.b }
    }

    pub open spec fn area_spec(&self) -> int {
        let p = sat_i32(self.block_w * self.block_h);
        if p < 1 { 1 } else { p }
    }

    /// The vector field `which` (0: `a`, otherwise `b`).
    pub fn set(&self, which: usize) -> (r: &'a [Vector])
        ensures
            r == self.set_spec(which),
    {
        if which == 0 {
            self.a
        } else {
            self.b
        }
    }

    /// The field other than `which`.
    pub fn opposite_set(&self, which: usize) -> (r: &'a [Vector])
        ensures
            r == (if which == 0 { self.b } else { self.a }),
    {
        if which == 0 {
            self.b
        } else {
            self.a
        }
    }

    /// Block area, at least 1.
    pub fn area(&self) -> (r: i32)
        ensures
            r == self.area_spec(),
    {
        let p = sat_mul_i32(self.block_w, self.block_h);
        if p < 1 {
            1
        } else {
            p
        }
    }
}

/// `v` clamped into a byte.
pub open spec fn byte_spec(v: int) -> int {
    clamp(v, 0, 255)
}

/// Whether the intermediate values of `blend_255` fit in an `i32`.
pub open spec fn blend_255_fits(a: int, b: int, weight: int) -> bool {
    &&& i32::MIN <= 255 - weight <= i32::MAX
    &&& i32::MIN <= a * (255 - weight) <= i32::MAX
    &&& i32::MIN <= b * weight <= i32::MAX
    &&& i32::MIN <= a * (255 - weight) + b * weight <= i32::MAX
    &&& i32::MIN <= a * (255 - weight) + b * weight + 255 <= i32::MAX
}

/// Whether the intermediate values of `blend_256` fit in an `i32`.
pub open spec fn blend_256_fits(a: int, b: int, weight: int) -> bool {
    &&& i32::MIN <= 256 - weight <= i32::MAX
    &&& i32::MIN <= a * (256 - weight) <= i32::MAX
    &&& i32::MIN <= b * weight <= i32::MAX
    &&& i32::MIN <= a * (256 - weight) + b * weight <= i32::MAX
}

/// `a` and `b` mixed by `weight / 255`, rounded up, then clamped to a byte.
pub open spec fn blend_255_spec(a: int, b: int, weight: int) -> int {
    byte_spec((a * (255 - weight) + b * weight + 255) / 256)
}

/// `a` and `b` mixed by `weight / 256`, rounded down, then clamped to a
/// byte.
pub open spec fn blend_256_spec(a: int, b: int, weight: int) -> int {
    byte_spec((a * (256 - weight) + b * weight) / 256)
}

pub open spec fn min_spec(a: int, b: int) -> int {
    if a < b { a } else { b }
}

pub open spec fn max_spec(a: int, b: int) -> int {
    if a < b { b } else { a }
}

/// `value` clamped between `a` and `b`, whichever order they come in.
pub open spec fn clamp_between_spec(value: int, a: int, b: int) -> int {
    clamp(value, min_spec(a, b), max_spec(a, b))
}

/// A vector component as a motion plane sample: offset by `NEUTRAL`, or
/// `NEUTRAL` itself when it is longer than `MAX_VECTOR`.
pub open spec fn centered_spec(value: int) -> int {
    if value < -MAX_VECTOR || value > MAX_VECTOR {
        NEUTRAL as int
    } else {
        value + NEUTRAL
    }
}

/// `value` clamped into a byte.
pub fn byte_from_i32(value: i32) -> (r: u8)
    ensures
        r == byte_spec(value as int),
{
    if value < 0 {
        0
    } else if value > 255 {
        255
    } else {
        value as u8
    }
}

pub fn blend_255(a: u8, b: u8, weight: i32) -> (r: u8)
    requires
        blend_255_fits(a as int, b as int, weight as int),
    ensures
        r == blend_255_spec(a as int, b as int, weight as int),
{
    let x = (a as i32) * (255 - weight) + (b as i32) * weight + 255;
    proof {
        lemma_shr8_floor(x);
    }
    byte_from_i32(x >> 8u32)
}

pub fn blend_256(a: u8, b: u8, weight: i32) -> (r: u8)
    requires
        blend_256_fits(a as int, b as int, weight as int),
    ensures
        r == blend_256_spec(a as int, b as int, weight as int),
{
    let x = (a as i32) * (256 - weight) + (b as i32) * weight;
    proof {
        lemma_shr8_floor(x);
    }
    byte_from_i32(x >> 8u32)
}

pub fn clamp_between(value: u8, a: u8, b: u8) -> (r: u8)
    ensures
        r == clamp_between_spec(value as int, a as int, b as int),
{
    let lo = if a < b {
        a
    } else {
        b
    };
    let hi = if a < b {
        b
    } else {
        a
    };
    if value < lo {
        lo
    } else if value > hi {
        hi
    } else {
        value
    }
}

/// A vector component as a motion plane sample.
pub fn centered(value: i32) -> (r: u16)
    ensures
        r == centered_spec(value as int),
{
    if value < -MAX_VECTOR || value > MAX_VECTOR {
        NEUTRAL
    } else {
        (value + 1024) as u16
    }
}

/// Mode 1: the warped sample over the base, weighted by `alpha / 255`.
pub fn mode1_pixel(base: u8, warped: u8, alpha: u8) -> (r: u8)
    ensures
        r == blend_255_spec(warped as int, base as int, alpha as int),
{
    proof {
        lemma_blend_255_byte_fits(warped as int, base as int, alpha as int);
    }
    blend_255(warped, base, alpha as i32)
}

/// With a byte weight nothing in `blend_255` overflows.
pub proof fn lemma_blend_255_byte_fits(a: int, b: int, w: int)
    requires
        0 <= a <= 255,
        0 <= b <= 255,
        0 <= w <= 255,
    ensures
        blend_255_fits(a, b, w),
{
    assert(0 <= a * (255 - w) <= 255 * 255) by (nonlinear_arith)
        requires
            0 <= a <= 255,
            0 <= w <= 255,
    ;
    assert(0 <= b * w <= 255 * 255) by (nonlinear_arith)
        requires
            0 <= b <= 255,
            0 <= w <= 255,
    ;
}

/// Whether a weight keeps every blend of bytes within `i32`.
pub open spec fn weight_ok(w: int) -> bool {
    -0x40_0000 <= w <= 0x40_0000
}

/// With a weight within `weight_ok`, nothing in either blend overflows.
pub proof fn lemma_blend_fits(a: int, b: int, w: int)
    requires
        0 <= a <= 255,
        0 <= b <= 255,
        weight_ok(w),
    ensures
        blend_255_fits(a, b, w),
        blend_256_fits(a, b, w),
{
    assert(-255 * 0x40_0100 <= a * (255 - w) <= 255 * 0x40_0100) by (nonlinear_arith)
        requires
            0 <= a <= 255,
            -0x40_0000 <= w <= 0x40_0000,
    ;
    assert(-255 * 0x40_0100 <= a * (256 - w) <= 255 * 0x40_0100) by (nonlinear_arith)
        requires
            0 <= a <= 255,
            -0x40_0000 <= w <= 0x40_0000,
    ;
    assert(-255 * 0x40_0000 <= b * w <= 255 * 0x40_0000) by (nonlinear_arith)
        requires
            0 <= b <= 255,
            -0x40_0000 <= w <= 0x40_0000,
    ;
}

/// Mode 11: the two motion-compensated samples mixed by `weight / 256`.
pub fn mode11_pixel(mv0: u8, mv1: u8, weight: i32) -> (r: u8)
    requires
        blend_256_fits(mv0 as int, mv1 as int, weight as int),
    ensures
        r == blend_256_spec(mv0 as int, mv1 as int, weight as int),
{
    blend_256(mv0, mv1, weight)
}

/// Mode 13: the plain blend of the source frames, kept between the two
/// motion-compensated samples.
pub fn mode13_pixel(cur0: u8, cur1: u8, mv0: u8, mv1: u8, weight: i32) -> (r: u8)
    requires
        blend_256_fits(cur0 as int, cur1 as int, weight as int),
    ensures
        r == clamp_between_spec(
            blend_256_spec(cur0 as int, cur1 as int, weight as int),
            mv0 as int,
            mv1 as int,
        ),
{
    clamp_between(blend_256(cur0, cur1, weight), mv0, mv1)
}

/// Mode 21: each motion-compensated sample pulled toward the other by its
/// alpha, then the two mixed by `weight / 256`.
pub fn mode21_pixel(mv0: u8, mv1: u8, alpha0: u8, alpha1: u8, weight: i32) -> (r: u8)
    requires
        weight_ok(weight as int),
    ensures
        r == blend_256_spec(
            blend_255_spec(mv0 as int, mv1 as int, alpha0 as int),
            blend_255_spec(mv1 as int, mv0 as int, alpha1 as int),
            weight as int,
        ),
{
    proof {
        lemma_blend_255_byte_fits(mv0 as int, mv1 as int, alpha0 as int);
        lemma_blend_255_byte_fits(mv1 as int, mv0 as int, alpha1 as int);
    }
    let a = blend_255(mv0, mv1, alpha0 as i32);
    let b = blend_255(mv1, mv0, alpha1 as i32);
    proof {
        lemma_blend_fits(a as int, b as int, weight as int);
    }
    blend_256(a, b, weight)
}

/// Mode 22: the plain blend of the bases, kept between the two
/// alpha-pulled motion-compensated samples.
pub fn mode22_pixel(
    mv0: u8,
    mv1: u8,
    base0: u8,
    base1: u8,
    alpha0: u8,
    alpha1: u8,
    weight: i32,
) -> (r: u8)
    requires
        blend_256_fits(base0 as int, base1 as int, weight as int),
    ensures
        r == clamp_between_spec(
            blend_256_spec(base0 as int, base1 as int, weight as int),
            blend_255_spec(mv0 as int, mv1 as int, alpha0 as int),
            blend_255_spec(mv1 as int, mv0 as int, alpha1 as int),
        ),
{
    proof {
        lemma_blend_255_byte_fits(mv0 as int, mv1 as int, alpha0 as int);
        lemma_blend_255_byte_fits(mv1 as int, mv0 as int, alpha1 as int);
    }
    let a = blend_255(mv0, mv1, alpha0 as i32);
    let b = blend_255(mv1, mv0, alpha1 as i32);
    clamp_between(blend_256(base0, base1, weight), a, b)
}

/// The motion part of a mode 23 pixel: each sample pulled by its own
/// weight toward the other side's sample (kept between the two), then the
/// pair mixed by `q0 / 256`.
pub open spec fn mode23_motion_spec(s: Mode23Sample, q0: int) -> int {
    let i0 = blend_255_spec(
        s.a as int,
        clamp_between_spec(s.d as int, s.a as int, s.b as int),
        s.t0 as int,
    );
    let i1 = blend_255_spec(
        s.b as int,
        clamp_between_spec(s.c as int, s.a as int, s.b as int),
        s.t1 as int,
    );
    blend_256_spec(i0, i1, q0)
}

/// A mode 23 pixel: the motion part, laid over the blended bases by the
/// mask where there is one.
pub open spec fn mode23_pixel_spec(s: Mode23Sample, q0: int) -> int {
    let motion = mode23_motion_spec(s, q0);
    match s.mask {
        Some(m) => blend_255_spec(motion, blend_256_spec(s.base_a as int, s.base_b as int, q0), m as int),
        None => motion,
    }
}

pub fn mode23_pixel(sample: Mode23Sample, q0: i32, _q1: i32) -> (r: u8)
    requires
        weight_ok(q0 as int),
    ensures
        r == mode23_pixel_spec(sample, q0 as int),
{
    let cd = clamp_between(sample.d, sample.a, sample.b);
    let cc = clamp_between(sample.c, sample.a, sample.b);
    proof {
        lemma_blend_255_byte_fits(sample.a as int, cd as int, sample.t0 as int);
        lemma_blend_255_byte_fits(sample.b as int, cc as int, sample.t1 as int);
    }
    let i0 = blend_255(sample.a, cd, sample.t0 as i32);
    let i1 = blend_255(sample.b, cc, sample.t1 as i32);
    proof {
        lemma_blend_fits(i0 as int, i1 as int, q0 as int);
        lemma_blend_fits(sample.base_a as int, sample.base_b as int, q0 as int);
    }
    let motion = blend_256(i0, i1, q0);
    match sample.mask {
        Some(mask) => {
            let base = blend_256(sample.base_a, sample.base_b, q0);
            proof {
                lemma_blend_255_byte_fits(motion as int, base as int, mask as int);
            }
            blend_255(motion, base, mask as i32)
        },
        None => motion,
    }
}

/// A mode 11 or 13 pixel, laid over the plain blend of the sources by the
/// mask where there is one.
pub open spec fn mode11_or_13_pixel_spec(
    mode13: bool,
    cur0: int,
    cur1: int,
    mv0: int,
    mv1: int,
    q0: int,
    alpha: Option<u8>,
) -> int {
    let motion = if mode13 {
        clamp_between_spec(blend_256_spec(cur0, cur1, q0), mv0, mv1)
    } else {
        blend_256_spec(mv0, mv1, q0)
    };
    match alpha {
        Some(a) => blend_255_spec(motion, blend_256_spec(cur0, cur1, q0), a as int),
        None => motion,
    }
}

pub fn mode11_or_13_pixel(
    mode13: bool,
    cur0: u8,
    cur1: u8,
    mv0: u8,
    mv1: u8,
    q0: i32,
    _q1: i32,
    alpha: Option<u8>,
    blend_order: BlendOrder,
) -> (r: u8)
    requires
        weight_ok(q0 as int),
    ensures
        r == mode11_or_13_pixel_spec(
            mode13,
            cur0 as int,
            cur1 as int,
            mv0 as int,
            mv1 as int,
            q0 as int,
            alpha,
        ),
{
    proof {
        lemma_blend_fits(cur0 as int, cur1 as int, q0 as int);
        lemma_blend_fits(mv0 as int, mv1 as int, q0 as int);
    }
    let motion = if mode13 {
        mode13_pixel(cur0, cur1, mv0, mv1, q0)
    } else {
        match blend_order {
            BlendOrder::Forward => blend_256(mv0, mv1, q0),
        }
    };
    match alpha {
        Some(alpha) => {
            let base = blend_256(cur0, cur1, q0);
            proof {
                lemma_blend_255_byte_fits(motion as int, base as int, alpha as int);
            }
            blend_255(motion, base, alpha as i32)
        },
        None => motion,
    }
}

/// `value / 256` rounded toward zero, clamped into `i16`.
pub fn trunc_div_256(value: i32) -> (r: i16)
    ensures
        r == clamp(tdiv(value as int, 256), i16::MIN as int, i16::MAX as int),
{
    let q = div_i32(value, 256);
    if q > i16::MAX as i32 {
        i16::MAX
    } else if q < i16::MIN as i32 {
        i16::MIN
    } else {
        q as i16
    }
}

/// Entry `index` of a blend table for `weight`: the sample
/// `index - LUT_CENTER` times the weight (saturated), over 256 rounded
/// toward zero, clamped into `i16`.
pub open spec fn lut_entry(index: int, weight: int) -> int {
    clamp(tdiv(sat_i32((index - LUT_CENTER) * weight), 256), i16::MIN as int, i16::MAX as int)
}

/// The two blend tables of a threshold: the samples `-LUT_CENTER ..
/// LUT_CENTER` weighted by the threshold, and by its complement to 256
/// (saturated).
pub fn threshold_luts(threshold: i32) -> (r: (Vec<i16>, Vec<i16>))
    ensures
        r.0@.len() == LUT_LEN && r.1@.len() == LUT_LEN,
        forall|i: int| 0 <= i < LUT_LEN ==> #[trigger] r.0@[i] == lut_entry(i, threshold as int),
        forall|i: int| 0 <= i < LUT_LEN ==> #[trigger] r.1@[i] == lut_entry(i, sat_i32(256 - threshold)),
{
    let inverse = sat_sub_i32(256, threshold);
    let mut forward: Vec<i16> = Vec::new();
    let mut backward: Vec<i16> = Vec::new();
    let mut index: usize = 0;
    while index < LUT_LEN
        invariant
            0 <= index <= LUT_LEN,
            forward@.len() == index && backward@.len() == index,
            inverse == sat_i32(256 - threshold),
            forall|i: int| 0 <= i < index ==> #[trigger] forward@[i] == lut_entry(i, threshold as int),
            forall|i: int| 0 <= i < index ==> #[trigger] backward@[i] == lut_entry(i, inverse as int),
        decreases LUT_LEN - index,
    {
        let sample = index as i32 - LUT_CENTER;
        forward.push(trunc_div_256(sat_mul_i32(sample, threshold)));
        backward.push(trunc_div_256(sat_mul_i32(sample, inverse)));
        index = index + 1;
    }
    (forward, backward)
}

/// The interpolation shift for a block size, from a table indexed by
/// `size - 1`; -1 where the size has none.
pub open spec fn cpu_map_spec(value: int) -> int {
    if value == 1 {
        0
    } else if value == 2 {
        1
    } else if value == 3 || value == 4 {
        2
    } else if value == 6 || value == 7 || value == 8 {
        3
    } else if value == 12 || value == 14 || value == 16 {
        4
    } else if value == 25 || value == 29 || value == 32 {
        5
    } else {
        -1
    }
}

pub fn cpu_map(value: i32) -> (r: i32)
    ensures
        r == cpu_map_spec(value as int),
{
    match value {
        1 => 0,
        2 => 1,
        3 | 4 => 2,
        6 | 7 | 8 => 3,
        12 | 14 | 16 => 4,
        25 | 29 | 32 => 5,
        _ => -1,
    }
}

/// Sets the first `len` bytes of `dst` (or all of it, if shorter) to
/// `value`.
pub fn fill_prefix(dst: &mut [u8], len: usize, value: u8)
    ensures
        final(dst)@.len() == old(dst)@.len(),
        forall|i: int|
            0 <= i < final(dst)@.len() ==> #[trigger] final(dst)@[i] == (if i < len {
                value
            } else {
                old(dst)@[i]
            }),
{
    let n = if len < dst.len() {
        len
    } else {
        dst.len()
    };
    let mut i: usize = 0;
    while i < n
        invariant
            n <= dst@.len(),
            n <= len,
            dst@.len() == old(dst)@.len(),
            0 <= i <= n,
            forall|k: int|
                0 <= k < dst@.len() ==> #[trigger] dst@[k] == (if k < i {
                    value
                } else {
                    old(dst)@[k]
                }),
        decreases n - i,
    {
        dst[i] = value;
        i = i + 1;
    }
}

/// Sets every sample of a motion plane to `NEUTRAL`.
pub fn fill_u16(dst: &mut [u16], value: u16)
    ensures
        final(dst)@ == Seq::new(old(dst)@.len(), |i: int| value),
{
    let n = dst.len();
    let mut i: usize = 0;
    while i < n
        invariant
            n == dst@.len(),
            dst@.len() == old(dst)@.len(),
            0 <= i <= n,
            forall|k: int| 0 <= k < i ==> #[trigger] dst@[k] == value,
        decreases n - i,
    {
        dst[i] = value;
        i = i + 1;
    }
    assert(dst@ =~= Seq::new(old(dst)@.len(), |i: int| value));
}

/// Sets both motion planes (the second when given) to `NEUTRAL`.
pub fn fill_neutral(left: &mut [u16], right: Option<&mut [u16]>)
    ensures
        final(left)@ == Seq::new(old(left)@.len(), |i: int| NEUTRAL),
        match right {
            Some(r) => final(r)@ == Seq::new((*r)@.len(), |i: int| NEUTRAL),
            None => true,
        },
{
    fill_u16(left, NEUTRAL);
    match right {
        Some(r) => fill_u16(r, NEUTRAL),
        None => {},
    }
}

/// The byte of `mask` at column `x`, row `y`, or 0 outside it.
pub open spec fn mask_at_spec(mask: Seq<u8>, stride: int, x: int, y: int) -> int {
    if x < 0 || y < 0 {
        0
    } else {
        let index = crate::arith::sat_usize(crate::arith::sat_usize(y * stride) + x);
        if index < mask.len() { mask[index] as int } else { 0 }
    }
}

pub fn mask_at(mask: &[u8], stride: usize, x: i32, y: i32) -> (r: u8)
    ensures
        r == mask_at_spec(mask@, stride as int, x as int, y as int),
{
    if x < 0 || y < 0 {
        return 0;
    }
    let index = crate::arith::sat_add_usize(crate::arith::sat_mul_usize(y as usize, stride), x as usize);
    if index < mask.len() {
        mask[index]
    } else {
        0
    }
}

/// Index of the vector that covers grid cell `(x, y)`, clamped into the
/// grid.
pub open spec fn sample_index_spec(grid_w: int, grid_h: int, x: int, y: int) -> int {
    let sx = min_spec(x, crate::arith::sat_usize(grid_w - 1));
    let sy = min_spec(y, crate::arith::sat_usize(grid_h - 1));
    crate::arith::sat_usize(crate::arith::sat_usize(sy * grid_w) + sx)
}

pub fn sample_index(ctx: &VectorContext<'_>, x: usize, y: usize) -> (r: usize)
    ensures
        r == sample_index_spec(ctx.grid_w as int, ctx.grid_h as int, x as int, y as int),
{
    let gw1 = crate::arith::sat_sub_usize(ctx.grid_w, 1);
    let gh1 = crate::arith::sat_sub_usize(ctx.grid_h, 1);
    let sx = if x < gw1 {
        x
    } else {
        gw1
    };
    let sy = if y < gh1 {
        y
    } else {
        gh1
    };
    crate::arith::sat_add_usize(crate::arith::sat_mul_usize(sy, ctx.grid_w), sx)
}

/// Whether two planes address their samples alike.
pub fn layout_matches(a: Plane<'_>, b: Plane<'_>) -> (r: bool)
    ensures
        r == (a.stride == b.stride && a.super_span == b.super_span && a.super_shift
            == b.super_shift),
{
    a.stride == b.stride && a.super_span == b.super_span && a.super_shift == b.super_shift
}

/// The byte at `index` of a plane.
pub fn load_plane(plane: Plane<'_>, index: usize) -> (r: u8)
    requires
        index < plane.data@.len(),
    ensures
        r == plane.data@[index as int],
{
    plane.data[index]
}

/// The bytes at `index` of the first plane and, when `dual`, of the second
/// (else 0).
pub fn load2(planes: [Plane<'_>; 2], index: usize, dual: bool) -> (r: [u8; 2])
    requires
        index < planes[0].data@.len(),
        dual ==> index < planes[1].data@.len(),
    ensures
        r[0] == planes[0].data@[index as int],
        r[1] == (if dual { planes[1].data@[index as int] } else { 0u8 }),
{
    [load_plane(planes[0], index), if dual { load_plane(planes[1], index) } else { 0 }]
}

/// Elementwise maximum of the two masks, as long as the shorter.
pub fn max_mask(masks: MaskPlanes<'_>) -> (r: Vec<u8>)
    ensures
        r@.len() == min_spec(masks.a@.len() as int, masks.b@.len() as int),
        forall|i: int|
            0 <= i < r@.len() ==> #[trigger] r@[i] == max_spec(masks.a@[i] as int, masks.b@[i] as int),
{
    let n = if masks.a.len() < masks.b.len() {
        masks.a.len()
    } else {
        masks.b.len()
    };
    let mut out: Vec<u8> = Vec::new();
    let mut i: usize = 0;
    while i < n
        invariant
            n == min_spec(masks.a@.len() as int, masks.b@.len() as int),
            0 <= i <= n,
            out@.len() == i,
            forall|k: int| 0 <= k < i ==> #[trigger] out@[k] == max_spec(masks.a@[k] as int, masks.b@[k] as int),
        decreases n - i,
    {
        let a = masks.a[i];
        let b = masks.b[i];
        out.push(if a < b { b } else { a });
        i = i + 1;
    }
    out
}

/// Decoded payload vectors as the renderer holds them: the match score
/// becomes the magnitude.
pub fn renderer_vectors(vectors: &[crate::metadata::DecodedVector]) -> (r: Vec<Vector>)
    ensures
        r@.len() == vectors@.len(),
        forall|i: int| 0 <= i < vectors@.len() ==> #[trigger] r@[i] == (Vector {
            dx: vectors@[i].dx,
            dy: vectors@[i].dy,
            magnitude: vectors@[i].score,
        }),
{
    let mut out: Vec<Vector> = Vec::new();
    let n = vectors.len();
    let mut i: usize = 0;
    while i < n
        invariant
            0 <= i <= n,
            n == vectors@.len(),
            out@.len() == i,
            forall|k: int| 0 <= k < i ==> #[trigger] out@[k] == (Vector {
                dx: vectors@[k].dx,
                dy: vectors@[k].dy,
                magnitude: vectors@[k].score,
            }),
        decreases n - i,
    {
        let v = vectors[i];
        out.push(Vector { dx: v.dx, dy: v.dy, magnitude: v.score });
        i = i + 1;
    }
    out
}

/// Blending two bytes by a weight of 0 to 256 (in 256ths) gives the first
/// at weight 0, the second at 256, and always something between them.
pub proof fn lemma_blend_256_between(a: int, b: int, weight: int)
    requires
        0 <= a <= 255,
        0 <= b <= 255,
        0 <= weight <= 256,
    ensures
        weight == 0 ==> blend_256_spec(a, b, weight) == a,
        weight == 256 ==> blend_256_spec(a, b, weight) == b,
        min_spec(a, b) <= blend_256_spec(a, b, weight) <= max_spec(a, b),
{
    let lo = min_spec(a, b);
    let hi = max_spec(a, b);
    let t = a * (256 - weight) + b * weight;
    assert(256 * lo <= t <= 256 * hi) by (nonlinear_arith)
        requires
            t == a * (256 - weight) + b * weight,
            0 <= weight <= 256,
            lo <= a <= hi,
            lo <= b <= hi,
    ;
    vstd::arithmetic::div_mod::lemma_div_is_ordered(256 * lo, t, 256);
    vstd::arithmetic::div_mod::lemma_div_is_ordered(t, 256 * hi, 256);
    vstd::arithmetic::div_mod::lemma_div_multiples_vanish(lo, 256);
    vstd::arithmetic::div_mod::lemma_div_multiples_vanish(hi, 256);
    assert(256 * lo == lo * 256 && 256 * hi == hi * 256);
    if weight == 0 {
        assert(t == a * 256) by (nonlinear_arith)
            requires
                t == a * (256 - weight) + b * weight,
                weight == 0,
        ;
        vstd::arithmetic::div_mod::lemma_div_multiples_vanish(a, 256);
    }
    if weight == 256 {
        assert(t == b * 256) by (nonlinear_arith)
            requires
                t == a * (256 - weight) + b * weight,
                weight == 256,
        ;
        vstd::arithmetic::div_mod::lemma_div_multiples_vanish(b, 256);
    }
}

/// Blending two bytes by a weight of 0 to 255 (in 255ths, rounded up)
/// gives the first at weight 0, the second at 255, and always something
/// between them.
pub proof fn lemma_blend_255_between(a: int, b: int, weight: int)
    requires
        0 <= a <= 255,
        0 <= b <= 255,
        0 <= weight <= 255,
    ensures
        weight == 0 ==> blend_255_spec(a, b, weight) == a,
        weight == 255 ==> blend_255_spec(a, b, weight) == b,
        min_spec(a, b) <= blend_255_spec(a, b, weight) <= max_spec(a, b),
{
    let lo = min_spec(a, b);
    let hi = max_spec(a, b);
    let t = a * (255 - weight) + b * weight + 255;
    assert(256 * lo <= t && t < 256 * (hi + 1)) by (nonlinear_arith)
        requires
            t == a * (255 - weight) + b * weight + 255,
            0 <= weight <= 255,
            0 <= lo <= a <= hi <= 255,
            lo <= b <= hi,
    ;
    vstd::arithmetic::div_mod::lemma_fundamental_div_mod(t, 256);
    assert(lo <= t / 256 <= hi) by (nonlinear_arith)
        requires
            256 * lo <= t,
            t < 256 * (hi + 1),
            t == 256 * (t / 256) + t % 256,
            0 <= t % 256 < 256,
    ;
    if weight == 0 {
        assert(t == 256 * a + (255 - a));
        assert(t / 256 == a) by (nonlinear_arith)
            requires
                t == 256 * a + (255 - a),
                0 <= a <= 255,
                t == 256 * (t / 256) + t % 256,
                0 <= t % 256 < 256,
        ;
    }
    if weight == 255 {
        assert(t == 256 * b + (255 - b));
        assert(t / 256 == b) by (nonlinear_arith)
            requires
                t == 256 * b + (255 - b),
                0 <= b <= 255,
                t == 256 * (t / 256) + t % 256,
                0 <= t % 256 < 256,
        ;
    }
}

} // verus!
