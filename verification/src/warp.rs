//! Sampling helpers of the warp renderer: motion lookup through a LUT,
//! super-plane addressing, clamped sampling, vector clamping to the frame,
//! and bilinear interpolation of per-block values.
use vstd::prelude::*;
use crate::arith::{clamp, sat_i32, tdiv, trem, div_i32, rem_i32, sat_mul_i32, sat_usize};
use crate::renderer::{
    load_plane, Plane, Vector, VectorContext, MotionPlanes, NEUTRAL, LUT_LEN, MAX_VECTOR, byte_spec,
    byte_from_i32, mask_at, mask_at_spec, centered, centered_spec, sample_index,
    sample_index_spec, min_spec,
};

verus! {

/// The LUT entry for the motion sample at `index` (a missing sample counts
/// as `NEUTRAL`).
pub open spec fn motion_value_spec(lut: [i16; 2048], plane: Seq<u16>, index: int) -> int {
    let s: int = if 0 <= index < plane.len() { plane[index] as int } else { NEUTRAL as int };
    let i = min_spec(s, LUT_LEN - 1);
    lut@[i] as int
}

pub fn motion_value(lut: &[i16; 2048], plane: &[u16], index: usize) -> (r: i32)
    ensures
        r == motion_value_spec(*lut, plane@, index as int),
{
    let s: u16 = if index < plane.len() {
        plane[index]
    } else {
        NEUTRAL
    };
    let i: usize = if (s as usize) < LUT_LEN - 1 {
        s as usize
    } else {
        LUT_LEN - 1
    };
    lut[i] as i32
}

/// Index of sample `(x, y)` in a plane: `y * stride + x` for a linear
/// plane; for a super plane, the sub-pixel copy picked by the low bits,
/// then the coarse position.
pub open spec fn plane_index_spec(plane: Plane, x: usize, y: usize) -> int {
    if plane.super_shift == 0 {
        y * plane.stride + x
    } else {
        let shift = plane.super_shift;
        let mask = ((1usize << shift) - 1) as usize;
        let sub = (((y & mask) << shift) | (x & mask)) as usize;
        sub * plane.super_span + (y >> shift) * plane.stride + (x >> shift)
    }
}

/// Whether a super plane's shift is usable.
pub open spec fn shift_ok(plane: Plane) -> bool {
    plane.super_shift < usize::BITS
}

/// Whether `plane_index` can compute the index of `(x, y)` without
/// overflow.
pub open spec fn plane_index_ok(plane: Plane, x: usize, y: usize) -> bool {
    &&& shift_ok(plane)
    &&& 0 <= plane_index_spec(plane, x, y) <= usize::MAX
    &&& plane.super_shift != 0 ==> (((((y & ((1usize << plane.super_shift) - 1) as usize)
        << plane.super_shift) | (x & ((1usize << plane.super_shift) - 1) as usize)) as usize)
        * plane.super_span) <= usize::MAX
}

pub fn plane_index(plane: Plane<'_>, x: usize, y: usize) -> (r: usize)
    requires
        plane_index_ok(plane, x, y),
    ensures
        r == plane_index_spec(plane, x, y),
{
    if plane.super_shift == 0 {
        assert(y * plane.stride <= y * plane.stride + x);
        return y * plane.stride + x;
    }
    let shift = plane.super_shift;
    proof {
        lemma_shift_mask_ok(shift);
    }
    let mask = (1usize << shift) - 1;
    let sub = ((y & mask) << shift) | (x & mask);
    let a = sub * plane.super_span;
    let b = (y >> shift) * plane.stride;
    a + b + (x >> shift)
}

proof fn lemma_shift_mask_ok(shift: u32)
    requires
        0 < shift < usize::BITS,
    ensures
        (1usize << shift) >= 1,
{
    assert(0 < shift < usize::BITS ==> (1usize << shift) >= 1usize) by (bit_vector);
}

/// `plane_index`, or `None` where its arithmetic would overflow.
pub fn plane_index_checked(plane: Plane<'_>, x: usize, y: usize) -> (r: Option<usize>)
    requires
        shift_ok(plane),
    ensures
        r matches Some(i) ==> i == plane_index_spec(plane, x, y),
        r is None ==> plane_index_spec(plane, x, y) > usize::MAX || (plane.super_shift != 0 && (((((y & ((1usize << plane.super_shift) - 1) as usize)
            << plane.super_shift) | (x & ((1usize << plane.super_shift) - 1) as usize)) as usize)
            * plane.super_span) > usize::MAX) || (plane.super_shift != 0 && (y >> plane.super_shift) * plane.stride > usize::MAX)
            || (plane.super_shift != 0 && (((((y & ((1usize << plane.super_shift) - 1) as usize)
            << plane.super_shift) | (x & ((1usize << plane.super_shift) - 1) as usize)) as usize)
            * plane.super_span) + (y >> plane.super_shift) * plane.stride > usize::MAX),
{
    if plane.super_shift == 0 {
        let m = y.checked_mul(plane.stride)?;
        return m.checked_add(x);
    }
    let shift = plane.super_shift;
    proof {
        lemma_shift_mask_ok(shift);
    }
    let mask = (1usize << shift) - 1;
    let sub = ((y & mask) << shift) | (x & mask);
    let a = sub.checked_mul(plane.super_span)?;
    let b = (y >> shift).checked_mul(plane.stride)?;
    let ab = a.checked_add(b)?;
    ab.checked_add(x >> shift)
}

/// Moves a vector component so the block it moves stays inside the frame.
pub open spec fn clamp_to_frame_spec(value: int, pos: int, block: int, frame: int) -> int {
    if value + pos < 0 {
        -pos
    } else if value + block + pos > frame {
        let v = frame - block - pos;
        if v < 0 { 0 } else { v }
    } else {
        value
    }
}

/// Whether the arithmetic of `clamp_to_frame` stays within `i32`.
pub open spec fn clamp_to_frame_fits(value: int, pos: int, block: int, frame: int) -> bool {
    &&& i32::MIN <= value + pos <= i32::MAX
    &&& (value + pos >= 0 ==> {
        &&& i32::MIN <= value + block <= i32::MAX
        &&& i32::MIN <= value + block + pos <= i32::MAX
        &&& (value + block + pos > frame ==> {
            &&& i32::MIN <= frame - block <= i32::MAX
            &&& i32::MIN <= frame - block - pos <= i32::MAX
        })
    })
    &&& (value + pos < 0 ==> pos > i32::MIN)
}

pub fn clamp_to_frame(value: i32, pos: i32, block: i32, frame: i32) -> (r: i32)
    requires
        clamp_to_frame_fits(value as int, pos as int, block as int, frame as int),
    ensures
        r == clamp_to_frame_spec(value as int, pos as int, block as int, frame as int),
{
    if value + pos < 0 {
        -pos
    } else if value + block + pos > frame {
        let v = frame - block - pos;
        if v < 0 {
            0
        } else {
            v
        }
    } else {
        value
    }
}

/// The vector that `vector_planes` reads for cell `(x, y)`.
pub open spec fn planes_vector(ctx: VectorContext, which: usize, x: int, y: int) -> Vector {
    let vectors = ctx.set_spec(which)@;
    let i = sample_index_spec(ctx.grid_w as int, ctx.grid_h as int, x, y);
    if 0 <= i < vectors.len() {
        vectors[i]
    } else {
        Vector { dx: 0, dy: 0, magnitude: 0 }
    }
}

/// Top-left position of cell `x` along an axis with step `step`.
pub open spec fn cell_pos(x: int, step: int) -> int {
    if x <= i32::MAX { sat_i32(x * step) } else { 0 }
}

/// Whether a vector component is too long for a motion plane.
pub open spec fn too_long(v: int) -> bool {
    v < -MAX_VECTOR || v > MAX_VECTOR
}

/// The two motion plane samples for cell `(x, y)`.
pub open spec fn planes_sample(ctx: VectorContext, which: usize, x: int, y: int) -> (int, int) {
    let v = planes_vector(ctx, which, x, y);
    if too_long(v.dx as int) || too_long(v.dy as int) {
        (NEUTRAL as int, NEUTRAL as int)
    } else if ctx.raw {
        (centered_spec(v.dx as int), centered_spec(v.dy as int))
    } else {
        (
            centered_spec(clamp_to_frame_spec(
                v.dx as int,
                cell_pos(x, ctx.block_w - ctx.origin_x),
                ctx.block_w as int,
                ctx.frame_w as int,
            )),
            centered_spec(clamp_to_frame_spec(
                v.dy as int,
                cell_pos(y, ctx.block_h - ctx.origin_y),
                ctx.block_h as int,
                ctx.frame_h as int,
            )),
        )
    }
}

/// Whether every cell that `vector_planes` reaches stays within `i32`.
pub open spec fn vector_planes_fits(ctx: VectorContext, which: usize, width: int, height: int) -> bool {
    &&& i32::MIN <= ctx.block_w - ctx.origin_x <= i32::MAX
    &&& i32::MIN <= ctx.block_h - ctx.origin_y <= i32::MAX
    &&& forall|x: int, y: int|
        0 <= x < width && 0 <= y < height && !ctx.raw ==> {
            let v = #[trigger] planes_vector(ctx, which, x, y);
            !too_long(v.dx as int) && !too_long(v.dy as int) ==> {
                &&& clamp_to_frame_fits(
                    v.dx as int,
                    cell_pos(x, ctx.block_w - ctx.origin_x),
                    ctx.block_w as int,
                    ctx.frame_w as int,
                )
                &&& clamp_to_frame_fits(
                    v.dy as int,
                    cell_pos(y, ctx.block_h - ctx.origin_y),
                    ctx.block_h as int,
                    ctx.frame_h as int,
                )
            }
        }
}

/// Number of cells that `vector_planes` fills: all `width * height`, or
/// up to the end of the shorter output.
pub open spec fn planes_filled(width: int, height: int, len_x: int, len_y: int) -> int {
    min_spec(min_spec(width * height, len_x), len_y)
}

/// Writes the motion planes of vector field `which`, row-major over a
/// `width` x `height` grid, clamping each vector so its block stays in the
/// frame (unless `raw`) and stopping where either output ends.
pub fn vector_planes(
    ctx: &VectorContext<'_>,
    which: usize,
    dst_x: &mut [u16],
    dst_y: &mut [u16],
    width: usize,
    height: usize,
)
    requires
        vector_planes_fits(*ctx, which, width as int, height as int),
    ensures
        final(dst_x)@.len() == old(dst_x)@.len(),
        final(dst_y)@.len() == old(dst_y)@.len(),
        forall|k: int|
            0 <= k < old(dst_x)@.len() ==> #[trigger] final(dst_x)@[k] == (if k < planes_filled(
                width as int,
                height as int,
                old(dst_x)@.len() as int,
                old(dst_y)@.len() as int,
            ) {
                planes_sample(*ctx, which, k % (width as int), k / (width as int)).0 as u16
            } else {
                old(dst_x)@[k]
            }),
        forall|k: int|
            0 <= k < old(dst_y)@.len() ==> #[trigger] final(dst_y)@[k] == (if k < planes_filled(
                width as int,
                height as int,
                old(dst_x)@.len() as int,
                old(dst_y)@.len() as int,
            ) {
                planes_sample(*ctx, which, k % (width as int), k / (width as int)).1 as u16
            } else {
                old(dst_y)@[k]
            }),
{
    let vectors = ctx.set(which);
    let step_x = ctx.block_w - ctx.origin_x;
    let step_y = ctx.block_h - ctx.origin_y;
    let ghost lx = old(dst_x)@.len() as int;
    let ghost ly = old(dst_y)@.len() as int;
    let ghost filled = planes_filled(width as int, height as int, lx, ly);
    let mut y: usize = 0;
    while y < height
        invariant
            0 <= y <= height,
            vectors == ctx.set_spec(which),
            step_x == ctx.block_w - ctx.origin_x,
            step_y == ctx.block_h - ctx.origin_y,
            vector_planes_fits(*ctx, which, width as int, height as int),
            dst_x@.len() == lx,
            dst_y@.len() == ly,
            lx == old(dst_x)@.len(),
            ly == old(dst_y)@.len(),
            filled == planes_filled(width as int, height as int, lx, ly),
            y * width <= lx,
            y * width <= ly,
            forall|k: int|
                0 <= k < lx ==> #[trigger] dst_x@[k] == (if k < y * width {
                    planes_sample(*ctx, which, k % (width as int), k / (width as int)).0 as u16
                } else {
                    old(dst_x)@[k]
                }),
            forall|k: int|
                0 <= k < ly ==> #[trigger] dst_y@[k] == (if k < y * width {
                    planes_sample(*ctx, which, k % (width as int), k / (width as int)).1 as u16
                } else {
                    old(dst_y)@[k]
                }),
        decreases height - y,
    {
        let pos_y = if y <= i32::MAX as usize {
            sat_mul_i32(y as i32, step_y)
        } else {
            0
        };
        let mut x: usize = 0;
        while x < width
            invariant
                0 <= x <= width,
                0 <= y < height,
                vectors == ctx.set_spec(which),
                step_x == ctx.block_w - ctx.origin_x,
                step_y == ctx.block_h - ctx.origin_y,
                pos_y == cell_pos(y as int, step_y as int),
                vector_planes_fits(*ctx, which, width as int, height as int),
                dst_x@.len() == lx,
                dst_y@.len() == ly,
                lx == old(dst_x)@.len(),
                ly == old(dst_y)@.len(),
                filled == planes_filled(width as int, height as int, lx, ly),
                y * width + x <= lx,
                y * width + x <= ly,
                forall|k: int|
                    0 <= k < lx ==> #[trigger] dst_x@[k] == (if k < y * width + x {
                        planes_sample(*ctx, which, k % (width as int), k / (width as int)).0 as u16
                    } else {
                        old(dst_x)@[k]
                    }),
                forall|k: int|
                    0 <= k < ly ==> #[trigger] dst_y@[k] == (if k < y * width + x {
                        planes_sample(*ctx, which, k % (width as int), k / (width as int)).1 as u16
                    } else {
                        old(dst_y)@[k]
                    }),
            decreases width - x,
        {
            proof {
                lemma_row_major(y as int, x as int, width as int);
            }
            let out = crate::arith::sat_add_usize(crate::arith::sat_mul_usize(y, width), x);
            if out >= dst_x.len() || out >= dst_y.len() {
                assert(out == y * width + x || out == usize::MAX);
                proof {
                    lemma_stop_filled(y as int, x as int, width as int, height as int, lx, ly);
                }
                return;
            }
            assert(out == y * width + x);
            let si = sample_index(ctx, x, y);
            let vector = if si < vectors.len() {
                vectors[si]
            } else {
                Vector { dx: 0, dy: 0, magnitude: 0 }
            };
            let dx = vector.dx as i32;
            let dy = vector.dy as i32;
            let (sx, sy): (u16, u16) = if dx < -MAX_VECTOR || dx > MAX_VECTOR || dy < -MAX_VECTOR
                || dy > MAX_VECTOR {
                (NEUTRAL, NEUTRAL)
            } else if ctx.raw {
                (centered(dx), centered(dy))
            } else {
                let pos_x = if x <= i32::MAX as usize {
                    sat_mul_i32(x as i32, step_x)
                } else {
                    0
                };
                assert(planes_vector(*ctx, which, x as int, y as int) == vector);
                (
                    centered(clamp_to_frame(dx, pos_x, ctx.block_w, ctx.frame_w)),
                    centered(clamp_to_frame(dy, pos_y, ctx.block_h, ctx.frame_h)),
                )
            };
            assert(planes_sample(*ctx, which, x as int, y as int) == (sx as int, sy as int));
            dst_x[out] = sx;
            dst_y[out] = sy;
            x = x + 1;
        }
        assert((y + 1) * width == y * width + width) by (nonlinear_arith);
        y = y + 1;
    }
    proof {
        lemma_all_filled(height as int, width as int, lx, ly);
    }
}

/// Cell `k = y * width + x` (with `x < width`) lies in column `x`, row `y`.
proof fn lemma_row_major(y: int, x: int, width: int)
    requires
        0 <= y,
        0 <= x < width,
    ensures
        (y * width + x) % width == x,
        (y * width + x) / width == y,
{
    vstd::arithmetic::div_mod::lemma_fundamental_div_mod_converse(y * width + x, width, y, x);
}

proof fn lemma_stop_filled(y: int, x: int, width: int, height: int, lx: int, ly: int)
    requires
        0 <= y < height,
        0 <= x < width,
        y * width + x <= lx,
        y * width + x <= ly,
        y * width + x >= lx || y * width + x >= ly,
    ensures
        planes_filled(width, height, lx, ly) == y * width + x,
{
    assert(y * width + x <= width * height) by (nonlinear_arith)
        requires
            0 <= y < height,
            0 <= x < width,
    ;
}

proof fn lemma_all_filled(height: int, width: int, lx: int, ly: int)
    requires
        0 <= height,
        0 <= width,
        height * width <= lx,
        height * width <= ly,
    ensures
        planes_filled(width, height, lx, ly) == height * width,
{
    assert(width * height == height * width) by (nonlinear_arith);
}

pub open spec fn in_i32(v: int) -> bool {
    i32::MIN <= v <= i32::MAX
}

/// Bilinear interpolation, at offset `(fx, fy)` inside a `step_x` x
/// `step_y` cell, of the four corner values, each pass rounded toward zero.
pub open spec fn bilinear_spec(
    m00: int,
    m01: int,
    m10: int,
    m11: int,
    fx: int,
    fy: int,
    step_x: int,
    step_y: int,
) -> int {
    let top = tdiv((step_x - fx) * m00 + fx * m01, step_x);
    let bottom = tdiv((step_x - fx) * m10 + fx * m11, step_x);
    tdiv((step_y - fy) * top + fy * bottom, step_y)
}

/// Whether every step of `bilinear_spec` stays within `i32`.
pub open spec fn bilinear_fits(
    m00: int,
    m01: int,
    m10: int,
    m11: int,
    fx: int,
    fy: int,
    step_x: int,
    step_y: int,
) -> bool {
    let top = tdiv((step_x - fx) * m00 + fx * m01, step_x);
    let bottom = tdiv((step_x - fx) * m10 + fx * m11, step_x);
    &&& in_i32(step_x - fx)
    &&& in_i32((step_x - fx) * m00)
    &&& in_i32(fx * m01)
    &&& in_i32((step_x - fx) * m00 + fx * m01)
    &&& in_i32((step_x - fx) * m10)
    &&& in_i32(fx * m11)
    &&& in_i32((step_x - fx) * m10 + fx * m11)
    &&& in_i32(step_y - fy)
    &&& in_i32((step_y - fy) * top)
    &&& in_i32(fy * bottom)
    &&& in_i32((step_y - fy) * top + fy * bottom)
    &&& !((step_x - fx) * m00 + fx * m01 == i32::MIN && step_x == -1)
    &&& !((step_x - fx) * m10 + fx * m11 == i32::MIN && step_x == -1)
    &&& !((step_y - fy) * top + fy * bottom == i32::MIN && step_y == -1)
}

fn bilinear(m00: i32, m01: i32, m10: i32, m11: i32, fx: i32, fy: i32, step_x: i32, step_y: i32) -> (r: i32)
    requires
        step_x != 0,
        step_y != 0,
        bilinear_fits(m00 as int, m01 as int, m10 as int, m11 as int, fx as int, fy as int, step_x as int, step_y as int),
    ensures
        r == bilinear_spec(m00 as int, m01 as int, m10 as int, m11 as int, fx as int, fy as int, step_x as int, step_y as int),
{
    let top = div_i32((step_x - fx) * m00 + fx * m01, step_x);
    let bottom = div_i32((step_x - fx) * m10 + fx * m11, step_x);
    div_i32((step_y - fy) * top + fy * bottom, step_y)
}

/// Cell index and offset inside the cell of coordinate `x` on a grid
/// starting at `origin` with cells `step` wide: `(i0, i1, f)`, where `i1`
/// is the next cell; everything 0 left of the origin.
pub open spec fn cell_of(x: int, origin: int, step: int) -> (int, int, int) {
    let i0 = if x >= origin { tdiv(x - origin, step) } else { 0 };
    let i1 = if x >= origin { i0 + 1 } else { 0 };
    let f = if x > origin { trem(x - origin, step) } else { 0 };
    (i0, i1, f)
}

pub open spec fn cell_fits(x: int, origin: int, step: int) -> bool {
    x >= origin ==> {
        &&& in_i32(x - origin)
        &&& !(x - origin == i32::MIN && step == -1)
        &&& tdiv(x - origin, step) < i32::MAX
    }
}

fn cell(x: i32, origin: i32, step: i32) -> (r: (i32, i32, i32))
    requires
        step != 0,
        cell_fits(x as int, origin as int, step as int),
    ensures
        (r.0 as int, r.1 as int, r.2 as int) == cell_of(x as int, origin as int, step as int),
{
    let i0 = if x >= origin {
        div_i32(x - origin, step)
    } else {
        0
    };
    let i1 = if x >= origin {
        i0 + 1
    } else {
        0
    };
    let f = if x > origin {
        rem_i32(x - origin, step)
    } else {
        0
    };
    (i0, i1, f)
}

/// The per-axis divisors of `sample_mask`: 2 and `chroma_y_div` for
/// chroma, 1 and 1 for luma.
pub open spec fn mask_divs(chroma_y_div: int, chroma: bool) -> (int, int) {
    if chroma { (2, chroma_y_div) } else { (1, 1) }
}

/// Origin and cell size of the block grid on the sampled plane.
pub open spec fn mask_grid(ctx: VectorContext, chroma_y_div: int, chroma: bool) -> (int, int, int, int) {
    let (x_div, y_div) = mask_divs(chroma_y_div, chroma);
    (
        tdiv(ctx.origin_x as int, x_div),
        tdiv(ctx.origin_y as int, y_div),
        tdiv(ctx.block_w as int, x_div),
        tdiv(ctx.block_h as int, y_div),
    )
}

/// The per-block mask value at pixel `(x, y)`, bilinearly interpolated
/// between the four surrounding blocks and cut to its low byte; 0 when the
/// grid is degenerate.
pub open spec fn sample_mask_spec(
    ctx: VectorContext,
    mask: Seq<u8>,
    x: int,
    y: int,
    chroma_y_div: int,
    chroma: bool,
) -> int {
    let (x_div, y_div) = mask_divs(chroma_y_div, chroma);
    if y_div == 0 {
        0
    } else {
        let (origin_x, origin_y, step_x, step_y) = mask_grid(ctx, chroma_y_div, chroma);
        if step_x == 0 || step_y == 0 || ctx.grid_w == 0 {
            0
        } else {
            let (ix0, ix1, fx) = cell_of(x, origin_x, step_x);
            let (iy0, iy1, fy) = cell_of(y, origin_y, step_y);
            let g = ctx.grid_w as int;
            let v = bilinear_spec(
                mask_at_spec(mask, g, ix0, iy0),
                mask_at_spec(mask, g, ix1, iy0),
                mask_at_spec(mask, g, ix0, iy1),
                mask_at_spec(mask, g, ix1, iy1),
                fx,
                fy,
                step_x,
                step_y,
            );
            ((v as i32) & 0xff) as int
        }
    }
}

/// Whether the arithmetic of `sample_mask` stays within `i32`.
pub open spec fn sample_mask_fits(
    ctx: VectorContext,
    mask: Seq<u8>,
    x: int,
    y: int,
    chroma_y_div: int,
    chroma: bool,
) -> bool {
    let (x_div, y_div) = mask_divs(chroma_y_div, chroma);
    y_div != 0 ==> {
        let (origin_x, origin_y, step_x, step_y) = mask_grid(ctx, chroma_y_div, chroma);
        &&& !(ctx.origin_y == i32::MIN && y_div == -1)
        &&& !(ctx.block_h == i32::MIN && y_div == -1)
        &&& (step_x != 0 && step_y != 0 && ctx.grid_w != 0) ==> {
            let (ix0, ix1, fx) = cell_of(x, origin_x, step_x);
            let (iy0, iy1, fy) = cell_of(y, origin_y, step_y);
            let g = ctx.grid_w as int;
            &&& cell_fits(x, origin_x, step_x)
            &&& cell_fits(y, origin_y, step_y)
            &&& bilinear_fits(
                mask_at_spec(mask, g, ix0, iy0),
                mask_at_spec(mask, g, ix1, iy0),
                mask_at_spec(mask, g, ix0, iy1),
                mask_at_spec(mask, g, ix1, iy1),
                fx,
                fy,
                step_x,
                step_y,
            )
        }
    }
}

/// The block mask value at pixel `(x, y)` of the luma or a chroma plane.
pub fn sample_mask(
    ctx: &VectorContext<'_>,
    mask: &[u8],
    x: i32,
    y: i32,
    chroma_y_div: i32,
    chroma: bool,
) -> (r: u8)
    requires
        sample_mask_fits(*ctx, mask@, x as int, y as int, chroma_y_div as int, chroma),
    ensures
        r == sample_mask_spec(*ctx, mask@, x as int, y as int, chroma_y_div as int, chroma),
{
    let x_div: i32 = if chroma {
        2
    } else {
        1
    };
    let y_div: i32 = if chroma {
        chroma_y_div
    } else {
        1
    };
    if y_div == 0 {
        return 0;
    }
    let origin_x = div_i32(ctx.origin_x, x_div);
    let origin_y = div_i32(ctx.origin_y, y_div);
    let step_x = div_i32(ctx.block_w, x_div);
    let step_y = div_i32(ctx.block_h, y_div);
    if step_x == 0 || step_y == 0 || ctx.grid_w == 0 {
        return 0;
    }
    let (ix0, ix1, fx) = cell(x, origin_x, step_x);
    let (iy0, iy1, fy) = cell(y, origin_y, step_y);
    let m00 = mask_at(mask, ctx.grid_w, ix0, iy0) as i32;
    let m01 = mask_at(mask, ctx.grid_w, ix1, iy0) as i32;
    let m10 = mask_at(mask, ctx.grid_w, ix0, iy1) as i32;
    let m11 = mask_at(mask, ctx.grid_w, ix1, iy1) as i32;
    let v = bilinear(m00, m01, m10, m11, fx, fy, step_x, step_y);
    let b = v & 0xff;
    assert(0 <= b <= 0xff) by (bit_vector)
        requires
            b == v & 0xff,
    ;
    b as u8
}

/// Geometry of one plane of a render: block grid, interpolation shifts and
/// weights, sampling step and the last valid sample position.
#[derive(Clone, Copy)]
pub struct PlaneParams {
    pub width: i32,
    pub height: i32,
    pub block_w: i32,
    pub block_h: i32,
    pub origin_x: i32,
    pub origin_y: i32,
    pub x_shift: i32,
    pub y_shift: i32,
    pub x_div: i32,
    pub y_div: i32,
    pub source_step: i32,
    pub max_x: i32,
    pub max_y: i32,
    pub x_weights: [(i32, i32); 32],
    pub y_weights: [(i32, i32); 32],
}

/// A rectangle of output pixels covered by one block, with the indices of
/// the four vectors around it.
#[derive(Clone, Copy)]
pub struct Tile {
    pub x: i32,
    pub y: i32,
    pub width: i32,
    pub height: i32,
    pub local_y: i32,
    pub i00: usize,
    pub i01: usize,
    pub i10: usize,
    pub i11: usize,
}

/// Motion at the four corners of a tile.
#[derive(Clone, Copy)]
pub struct MotionSamples {
    pub x: [i32; 4],
    pub y: [i32; 4],
}

/// Motion interpolated down to one row: left and right ends.
#[derive(Clone, Copy)]
pub struct MotionRow {
    pub x: [i32; 2],
    pub y: [i32; 2],
}

#[derive(Clone, Copy)]
pub struct AlphaPos {
    pub plane_x: i32,
    pub plane_y: i32,
}

/// `weights.0 * a + weights.1 * b`, scaled back by a shift, or by a
/// division by `total` when there is no shift.
pub open spec fn interp_pair_spec(shifted: bool, a: int, b: int, total: int, shift: int, weights: (i32, i32)) -> int {
    let v = weights.0 * a + weights.1 * b;
    if !shifted && shift < 0 {
        tdiv(v, total)
    } else {
        ((v as i32) >> (shift as u32)) as int
    }
}

pub open spec fn interp_pair_fits(shifted: bool, a: int, b: int, total: int, shift: int, weights: (i32, i32)) -> bool {
    let v = weights.0 * a + weights.1 * b;
    &&& in_i32(weights.0 * a)
    &&& in_i32(weights.1 * b)
    &&& in_i32(v)
    &&& if !shifted && shift < 0 {
        total != 0 && !(v == i32::MIN && total == -1)
    } else {
        0 <= shift < 32
    }
}

pub fn interp_pair<const SHIFTED: bool>(a: i32, b: i32, total: i32, shift: i32, weights: (i32, i32)) -> (r: i32)
    requires
        interp_pair_fits(SHIFTED, a as int, b as int, total as int, shift as int, weights),
    ensures
        r == interp_pair_spec(SHIFTED, a as int, b as int, total as int, shift as int, weights),
{
    let v = weights.0 * a + weights.1 * b;
    if SHIFTED {
        return v >> (shift as u32);
    }
    if shift < 0 {
        return div_i32(v, total);
    }
    v >> (shift as u32)
}

/// The vertical weights for row `y` of a block (clamped into the table).
pub open spec fn row_weights(params: PlaneParams, y: int) -> (i32, i32) {
    let i = if y < 0 { 0 } else if y > 31 { 31 } else { y };
    params.y_weights[i]
}

pub open spec fn interpolate_row_spec(shifted: bool, samples: [i32; 4], params: PlaneParams, y: int, interp: bool) -> (int, int) {
    if !interp {
        (samples[0] as int, samples[0] as int)
    } else {
        let w = row_weights(params, y);
        (
            interp_pair_spec(shifted, samples[0] as int, samples[2] as int, params.block_h as int, params.y_shift as int, w),
            interp_pair_spec(shifted, samples[1] as int, samples[3] as int, params.block_h as int, params.y_shift as int, w),
        )
    }
}

pub open spec fn interpolate_row_fits(shifted: bool, samples: [i32; 4], params: PlaneParams, y: int, interp: bool) -> bool {
    interp ==> {
        let w = row_weights(params, y);
        &&& interp_pair_fits(shifted, samples[0] as int, samples[2] as int, params.block_h as int, params.y_shift as int, w)
        &&& interp_pair_fits(shifted, samples[1] as int, samples[3] as int, params.block_h as int, params.y_shift as int, w)
    }
}

/// The four corner values interpolated down to row `y`: left and right
/// ends of the row.
pub fn interpolate_row<const SHIFTED: bool>(samples: [i32; 4], params: &PlaneParams, y: i32, interp: bool) -> (r: [i32; 2])
    requires
        interpolate_row_fits(SHIFTED, samples, *params, y as int, interp),
    ensures
        (r[0] as int, r[1] as int) == interpolate_row_spec(SHIFTED, samples, *params, y as int, interp),
{
    if !interp {
        return [samples[0], samples[0]];
    }
    let i: usize = if y < 0 {
        0
    } else if y > 31 {
        31
    } else {
        y as usize
    };
    let weights = params.y_weights[i];
    [
        interp_pair::<SHIFTED>(samples[0], samples[2], params.block_h, params.y_shift, weights),
        interp_pair::<SHIFTED>(samples[1], samples[3], params.block_h, params.y_shift, weights),
    ]
}

/// Both motion components interpolated down to row `y`.
pub fn interpolate_motion_row<const SHIFTED: bool>(samples: MotionSamples, params: &PlaneParams, y: i32, interp: bool) -> (r: MotionRow)
    requires
        interpolate_row_fits(SHIFTED, samples.x, *params, y as int, interp),
        interpolate_row_fits(SHIFTED, samples.y, *params, y as int, interp),
    ensures
        (r.x[0] as int, r.x[1] as int) == interpolate_row_spec(SHIFTED, samples.x, *params, y as int, interp),
        (r.y[0] as int, r.y[1] as int) == interpolate_row_spec(SHIFTED, samples.y, *params, y as int, interp),
{
    MotionRow {
        x: interpolate_row::<SHIFTED>(samples.x, params, y, interp),
        y: interpolate_row::<SHIFTED>(samples.y, params, y, interp),
    }
}

/// Motion at a pixel of a row: the two ends mixed by the horizontal
/// weights, or the left end when not interpolating.
pub fn interpolate_motion<const SHIFTED: bool>(row: MotionRow, params: &PlaneParams, weights: (i32, i32), interp: bool) -> (r: (i32, i32))
    requires
        interp ==> interp_pair_fits(SHIFTED, row.x[0] as int, row.x[1] as int, params.block_w as int, params.x_shift as int, weights),
        interp ==> interp_pair_fits(SHIFTED, row.y[0] as int, row.y[1] as int, params.block_w as int, params.x_shift as int, weights),
    ensures
        !interp ==> r == (row.x[0], row.y[0]),
        interp ==> r.0 == interp_pair_spec(SHIFTED, row.x[0] as int, row.x[1] as int, params.block_w as int, params.x_shift as int, weights),
        interp ==> r.1 == interp_pair_spec(SHIFTED, row.y[0] as int, row.y[1] as int, params.block_w as int, params.x_shift as int, weights),
{
    if !interp {
        return (row.x[0], row.y[0]);
    }
    (
        interp_pair::<SHIFTED>(row.x[0], row.x[1], params.block_w, params.x_shift, weights),
        interp_pair::<SHIFTED>(row.y[0], row.y[1], params.block_w, params.x_shift, weights),
    )
}

/// The mask byte at `index`, or 0.
pub open spec fn mask_byte(mask: Seq<u8>, index: int) -> int {
    if 0 <= index < mask.len() { mask[index] as int } else { 0 }
}

/// The tile's four corner mask values interpolated down to row `y`.
pub fn alpha_row<const SHIFTED: bool>(mask: &[u8], params: &PlaneParams, tile: &Tile, y: i32, interp: bool) -> (r: [i32; 2])
    requires
        interpolate_row_fits(SHIFTED, [mask_byte(mask@, tile.i00 as int) as i32, mask_byte(mask@, tile.i01 as int) as i32, mask_byte(mask@, tile.i10 as int) as i32, mask_byte(mask@, tile.i11 as int) as i32], *params, y as int, interp),
    ensures
        (r[0] as int, r[1] as int) == interpolate_row_spec(SHIFTED, [mask_byte(mask@, tile.i00 as int) as i32, mask_byte(mask@, tile.i01 as int) as i32, mask_byte(mask@, tile.i10 as int) as i32, mask_byte(mask@, tile.i11 as int) as i32], *params, y as int, interp),
{
    let a: i32 = if tile.i00 < mask.len() { mask[tile.i00] as i32 } else { 0 };
    let b: i32 = if tile.i01 < mask.len() { mask[tile.i01] as i32 } else { 0 };
    let c: i32 = if tile.i10 < mask.len() { mask[tile.i10] as i32 } else { 0 };
    let d: i32 = if tile.i11 < mask.len() { mask[tile.i11] as i32 } else { 0 };
    interpolate_row::<SHIFTED>([a, b, c, d], params, y, interp)
}

/// The mask at a pixel of a row, clamped into a byte.
pub fn alpha_at_row<const SHIFTED: bool>(row: [i32; 2], params: &PlaneParams, weights: (i32, i32), interp: bool) -> (r: u8)
    requires
        interp ==> interp_pair_fits(SHIFTED, row[0] as int, row[1] as int, params.block_w as int, params.x_shift as int, weights),
    ensures
        r == byte_spec(if interp {
            interp_pair_spec(SHIFTED, row[0] as int, row[1] as int, params.block_w as int, params.x_shift as int, weights)
        } else {
            row[0] as int
        }),
{
    if !interp {
        return byte_from_i32(row[0]);
    }
    byte_from_i32(interp_pair::<SHIFTED>(row[0], row[1], params.block_w, params.x_shift, weights))
}

/// The mask at an absolute plane position: bilinear between the four
/// surrounding blocks of the mask's own grid, clamped into a byte; 0 for a
/// degenerate grid.
pub open spec fn alpha_at_absolute_spec(mask: Seq<u8>, params: PlaneParams, stride: int, x: int, y: int) -> int {
    if params.block_w <= 0 || params.block_h <= 0 {
        0
    } else {
        let (ix0, ix1, fx) = cell_of(x, params.origin_x as int, params.block_w as int);
        let (iy0, iy1, fy) = cell_of(y, params.origin_y as int, params.block_h as int);
        byte_spec(bilinear_spec(
            mask_at_spec(mask, stride, ix0, iy0),
            mask_at_spec(mask, stride, ix1, iy0),
            mask_at_spec(mask, stride, ix0, iy1),
            mask_at_spec(mask, stride, ix1, iy1),
            fx,
            fy,
            params.block_w as int,
            params.block_h as int,
        ))
    }
}

pub open spec fn alpha_at_absolute_fits(mask: Seq<u8>, params: PlaneParams, stride: int, x: int, y: int) -> bool {
    params.block_w > 0 && params.block_h > 0 ==> {
        let (ix0, ix1, fx) = cell_of(x, params.origin_x as int, params.block_w as int);
        let (iy0, iy1, fy) = cell_of(y, params.origin_y as int, params.block_h as int);
        &&& cell_fits(x, params.origin_x as int, params.block_w as int)
        &&& cell_fits(y, params.origin_y as int, params.block_h as int)
        &&& bilinear_fits(
            mask_at_spec(mask, stride, ix0, iy0),
            mask_at_spec(mask, stride, ix1, iy0),
            mask_at_spec(mask, stride, ix0, iy1),
            mask_at_spec(mask, stride, ix1, iy1),
            fx,
            fy,
            params.block_w as int,
            params.block_h as int,
        )
    }
}

pub fn alpha_at_absolute(mask: &[u8], params: &PlaneParams, stride: usize, x: i32, y: i32) -> (r: u8)
    requires
        alpha_at_absolute_fits(mask@, *params, stride as int, x as int, y as int),
    ensures
        r == alpha_at_absolute_spec(mask@, *params, stride as int, x as int, y as int),
{
    if params.block_w <= 0 || params.block_h <= 0 {
        return 0;
    }
    let (ix0, ix1, fx) = cell(x, params.origin_x, params.block_w);
    let (iy0, iy1, fy) = cell(y, params.origin_y, params.block_h);
    let tl = mask_at(mask, stride, ix0, iy0) as i32;
    let tr = mask_at(mask, stride, ix1, iy0) as i32;
    let bl = mask_at(mask, stride, ix0, iy1) as i32;
    let br = mask_at(mask, stride, ix1, iy1) as i32;
    byte_from_i32(bilinear(tl, tr, bl, br, fx, fy, params.block_w, params.block_h))
}

/// The mask for a pixel: from the mask's own grid when it has one, else
/// from the row interpolation of the tile's corners.
pub fn alpha_for_origin<const SHIFTED: bool>(
    mask: &[u8],
    row: [i32; 2],
    params: &PlaneParams,
    mask_params: Option<&PlaneParams>,
    stride: usize,
    pos: AlphaPos,
    weights: (i32, i32),
) -> (r: u8)
    requires
        match mask_params {
            Some(mp) => alpha_at_absolute_fits(mask@, *mp, stride as int, pos.plane_x as int, pos.plane_y as int),
            None => interp_pair_fits(SHIFTED, row[0] as int, row[1] as int, params.block_w as int, params.x_shift as int, weights),
        },
    ensures
        r == match mask_params {
            Some(mp) => alpha_at_absolute_spec(mask@, *mp, stride as int, pos.plane_x as int, pos.plane_y as int),
            None => byte_spec(interp_pair_spec(SHIFTED, row[0] as int, row[1] as int, params.block_w as int, params.x_shift as int, weights)),
        },
{
    match mask_params {
        Some(mp) => alpha_at_absolute(mask, mp, stride, pos.plane_x, pos.plane_y),
        None => alpha_at_row::<SHIFTED>(row, params, weights, true),
    }
}

/// The sample of `plane` at `(source_x + dx, source_y + dy)`: read
/// directly, or with the position clamped into the plane and 0 past its
/// data.
pub open spec fn sample_plane_spec(plane: Plane, params: PlaneParams, source_x: int, source_y: int, dx: int, dy: int, direct: bool) -> int {
    let x = source_x + dx;
    let y = source_y + dy;
    if direct {
        plane.data@[plane_index_spec(plane, x as usize, y as usize)] as int
    } else {
        let cx = clamp(x, 0, params.max_x as int) as usize;
        let cy = clamp(y, 0, params.max_y as int) as usize;
        let i = plane_index_spec(plane, cx, cy);
        if i < plane.data@.len() { plane.data@[i] as int } else { 0 }
    }
}

pub open spec fn sample_plane_fits(plane: Plane, params: PlaneParams, source_x: int, source_y: int, dx: int, dy: int, direct: bool) -> bool {
    let x = source_x + dx;
    let y = source_y + dy;
    &&& in_i32(x)
    &&& in_i32(y)
    &&& if direct {
        &&& x >= 0
        &&& y >= 0
        &&& plane_index_ok(plane, x as usize, y as usize)
        &&& plane_index_spec(plane, x as usize, y as usize) < plane.data@.len()
    } else {
        &&& params.max_x >= 0
        &&& params.max_y >= 0
        &&& plane_index_ok(plane, clamp(x, 0, params.max_x as int) as usize, clamp(y, 0, params.max_y as int) as usize)
    }
}

pub fn sample_plane(plane: Plane<'_>, params: &PlaneParams, source_x: i32, source_y: i32, dx: i32, dy: i32, direct: bool) -> (r: u8)
    requires
        sample_plane_fits(plane, *params, source_x as int, source_y as int, dx as int, dy as int, direct),
    ensures
        r == sample_plane_spec(plane, *params, source_x as int, source_y as int, dx as int, dy as int, direct),
{
    let x = source_x + dx;
    let y = source_y + dy;
    if direct {
        let index = plane_index(plane, x as usize, y as usize);
        return load_plane(plane, index);
    }
    let cx: i32 = if x < 0 {
        0
    } else if x > params.max_x {
        params.max_x
    } else {
        x
    };
    let cy: i32 = if y < 0 {
        0
    } else if y > params.max_y {
        params.max_y
    } else {
        y
    };
    let i = plane_index(plane, cx as usize, cy as usize);
    if i < plane.data.len() {
        plane.data[i]
    } else {
        0
    }
}

/// The samples of both planes (the second only when `DUAL`, else 0) at the
/// displaced position.
pub fn sample_plane_pair<const DUAL: bool>(
    planes: [Plane<'_>; 2],
    params: &PlaneParams,
    source_x: i32,
    source_y: i32,
    dx: i32,
    dy: i32,
    direct: bool,
) -> (r: [u8; 2])
    requires
        sample_plane_fits(planes[0], *params, source_x as int, source_y as int, dx as int, dy as int, direct),
        DUAL ==> sample_plane_fits(planes[1], *params, source_x as int, source_y as int, dx as int, dy as int, direct),
        DUAL && direct && planes[0].stride == planes[1].stride && planes[0].super_span == planes[1].super_span
            && planes[0].super_shift == planes[1].super_shift ==> plane_index_spec(planes[0], (source_x + dx) as usize, (source_y + dy) as usize) < planes[1].data@.len(),
    ensures
        r[0] == sample_plane_spec(planes[0], *params, source_x as int, source_y as int, dx as int, dy as int, direct),
        r[1] == (if DUAL {
            sample_plane_spec(planes[1], *params, source_x as int, source_y as int, dx as int, dy as int, direct)
        } else {
            0
        }),
{
    if !DUAL {
        return [sample_plane(planes[0], params, source_x, source_y, dx, dy, direct), 0];
    }
    let x = source_x + dx;
    let y = source_y + dy;
    if direct && planes[0].stride == planes[1].stride && planes[0].super_span == planes[1].super_span
        && planes[0].super_shift == planes[1].super_shift {
        let index = plane_index(planes[0], x as usize, y as usize);
        return [load_plane(planes[0], index), load_plane(planes[1], index)];
    }
    [
        sample_plane(planes[0], params, source_x, source_y, dx, dy, direct),
        sample_plane(planes[1], params, source_x, source_y, dx, dy, direct),
    ]
}

/// The smallest of the first `n` motions' x (or y) components; `i32::MAX`
/// for none.
pub open spec fn motion_min(motions: Seq<MotionSamples>, n: int, use_x: bool) -> int
    decreases n,
{
    if n <= 0 {
        i32::MAX as int
    } else {
        let m = motions[n - 1];
        let c = if use_x { m.x } else { m.y };
        min_spec(
            min_spec(min_spec(motion_min(motions, n - 1, use_x), c[0] as int), min_spec(c[1] as int, c[2] as int)),
            c[3] as int,
        )
    }
}

/// The largest of the first `n` motions' x (or y) components; `i32::MIN`
/// for none.
pub open spec fn motion_max(motions: Seq<MotionSamples>, n: int, use_x: bool) -> int
    decreases n,
{
    if n <= 0 {
        i32::MIN as int
    } else {
        let m = motions[n - 1];
        let c = if use_x { m.x } else { m.y };
        crate::renderer::max_spec(
            crate::renderer::max_spec(crate::renderer::max_spec(motion_max(motions, n - 1, use_x), c[0] as int), crate::renderer::max_spec(c[1] as int, c[2] as int)),
            c[3] as int,
        )
    }
}

/// Whether every displaced sample of the tile stays inside the plane.
pub open spec fn tile_interior_spec(params: PlaneParams, tile: Tile, motions: Seq<MotionSamples>) -> bool {
    if params.source_step <= 0 {
        false
    } else {
        let n = motions.len() as int;
        let step = params.source_step as int;
        &&& tile.x * step + motion_min(motions, n, true) >= 0
        &&& tile.y * step + motion_min(motions, n, false) >= 0
        &&& (tile.x + tile.width - 1) * step + motion_max(motions, n, true) <= params.max_x
        &&& (tile.y + tile.height - 1) * step + motion_max(motions, n, false) <= params.max_y
    }
}

fn extend_min_max(lo: i32, hi: i32, c: [i32; 4]) -> (r: (i32, i32))
    ensures
        r.0 == min_spec(min_spec(min_spec(lo as int, c[0] as int), min_spec(c[1] as int, c[2] as int)), c[3] as int),
        r.1 == crate::renderer::max_spec(crate::renderer::max_spec(crate::renderer::max_spec(hi as int, c[0] as int), crate::renderer::max_spec(c[1] as int, c[2] as int)), c[3] as int),
{
    let a = if lo < c[0] { lo } else { c[0] };
    let b = if c[1] < c[2] { c[1] } else { c[2] };
    let m = if a < b { a } else { b };
    let lo2 = if m < c[3] { m } else { c[3] };
    let a2 = if hi < c[0] { c[0] } else { hi };
    let b2 = if c[1] < c[2] { c[2] } else { c[1] };
    let m2 = if a2 < b2 { b2 } else { a2 };
    let hi2 = if m2 < c[3] { c[3] } else { m2 };
    (lo2, hi2)
}

pub fn tile_interior(params: &PlaneParams, tile: &Tile, motions: &[MotionSamples]) -> (r: bool)
    requires
        params.source_step > 0 ==> in_i32(tile.x + tile.width) && in_i32(tile.x + tile.width - 1)
            && in_i32(tile.y + tile.height) && in_i32(tile.y + tile.height - 1),
    ensures
        r == tile_interior_spec(*params, *tile, motions@),
{
    if params.source_step <= 0 {
        return false;
    }
    let mut min_x = i32::MAX;
    let mut max_x = i32::MIN;
    let mut min_y = i32::MAX;
    let mut max_y = i32::MIN;
    let n = motions.len();
    let mut i: usize = 0;
    while i < n
        invariant
            n == motions@.len(),
            0 <= i <= n,
            min_x == motion_min(motions@, i as int, true),
            max_x == motion_max(motions@, i as int, true),
            min_y == motion_min(motions@, i as int, false),
            max_y == motion_max(motions@, i as int, false),
        decreases n - i,
    {
        let m = motions[i];
        let (a, b) = extend_min_max(min_x, max_x, m.x);
        let (c, d) = extend_min_max(min_y, max_y, m.y);
        min_x = a;
        max_x = b;
        min_y = c;
        max_y = d;
        i = i + 1;
    }
    let step = params.source_step as i64;
    proof {
        crate::frame_math::lemma_i32_times_i32_fits(tile.x as int, step as int);
        crate::frame_math::lemma_i32_times_i32_fits(tile.y as int, step as int);
        crate::frame_math::lemma_i32_times_i32_fits((tile.x + tile.width - 1) as int, step as int);
        crate::frame_math::lemma_i32_times_i32_fits((tile.y + tile.height - 1) as int, step as int);
    }
    let x0 = (tile.x as i64) * step;
    let y0 = (tile.y as i64) * step;
    let x1 = ((tile.x + tile.width - 1) as i64) * step;
    let y1 = ((tile.y + tile.height - 1) as i64) * step;
    x0 + (min_x as i64) >= 0 && y0 + (min_y as i64) >= 0 && x1 + (max_x as i64) <= (params.max_x as i64) && y1 + (max_y as i64) <= (params.max_y as i64)
}

} // verus!
