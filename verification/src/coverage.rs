//! Coverage masks: every block's vector splatted onto the block grid with
//! bilinear weights, summed over 3x3 windows; and fast division by a fixed
//! divisor.
use vstd::prelude::*;
use crate::arith::{abs, tdiv, div_i32, sat_i32, sat_usize};
use crate::renderer::{Vector, VectorContext};

verus! {

/// Division by a fixed divisor through a multiply and shift for small
/// dividends, falling back to `/` for the rest.
pub struct TruncDiv {
    pub divisor: i32,
    pub magic: u64,
    pub bound: u64,
}

pub open spec fn pow40() -> int {
    0x100_0000_0000
}

impl TruncDiv {
    /// The multiplier and dividend bound that `new` derives from the divisor.
    pub open spec fn wf(&self) -> bool {
        if self.divisor > 0 {
            let d = self.divisor as int;
            let magic = (pow40() + d - 1) / d;
            &&& self.magic == magic
            &&& self.bound <= pow40() / d
            &&& self.bound * magic <= u64::MAX
            &&& self.bound <= 0x8000_0000
        } else {
            self.magic == 0 && self.bound == 0
        }
    }

    /// A divider for `divisor`.
    pub fn new(divisor: i32) -> (r: Self)
        ensures
            r.divisor == divisor,
            r.wf(),
    {
        if divisor > 0 {
            let d = divisor as u64;
            let p: u64 = 0x100_0000_0000;
            let magic = (p + d - 1) / d;
            assert(magic >= 1) by (nonlinear_arith)
                requires
                    magic == (p + d - 1) as int / (d as int),
                    d >= 1,
                    p == 0x100_0000_0000,
            ;
            let b1 = p / d;
            let b2 = u64::MAX / magic;
            let mut bound = if b1 < b2 {
                b1
            } else {
                b2
            };
            if bound > 0x8000_0000 {
                bound = 0x8000_0000;
            }
            assert(bound * magic <= u64::MAX) by (nonlinear_arith)
                requires
                    bound <= b2,
                    b2 == u64::MAX / magic,
                    magic >= 1,
            ;
            TruncDiv { divisor, magic, bound }
        } else {
            TruncDiv { divisor, magic: 0, bound: 0 }
        }
    }

    /// `value / divisor` rounded toward zero; 0 when the divisor is 0.
    pub fn div(&self, value: i32) -> (r: i32)
        requires
            self.wf(),
            !(value == i32::MIN && self.divisor == -1),
        ensures
            r == (if self.divisor == 0 { 0 } else { tdiv(value as int, self.divisor as int) }),
    {
        let abs_v: u64 = if value < 0 {
            (-(value as i64)) as u64
        } else {
            value as u64
        };
        if abs_v < self.bound {
            proof {
                lemma_magic_div(abs_v as int, self.divisor as int, self.magic as int, self.bound as int);
            }
            let quotient = ((abs_v * self.magic) >> 40u64) as i32;
            if value < 0 {
                -quotient
            } else {
                quotient
            }
        } else if self.divisor == 0 {
            0
        } else {
            div_i32(value, self.divisor)
        }
    }
}

/// Multiplying by `ceil(2^40 / d)` and dropping 40 bits divides by `d` for
/// every dividend below `2^40 / d`.
pub proof fn lemma_magic_div(x: int, d: int, magic: int, bound: int)
    requires
        d > 0,
        magic == (pow40() + d - 1) / d,
        0 <= x < bound,
        bound <= pow40() / d,
        bound <= 0x8000_0000,
        bound * magic <= u64::MAX,
    ensures
        x * magic <= u64::MAX,
        ((x * magic) as u64 >> 40u64) as int == x / d,
        x / d < 0x8000_0000,
{
    let big: int = 0x100_0000_0000;
    assert(big == pow40());
    assert(x * magic <= bound * magic) by (nonlinear_arith)
        requires
            0 <= x < bound,
            magic >= 0,
    ;
    vstd::arithmetic::div_mod::lemma_fundamental_div_mod(big + d - 1, d);
    vstd::arithmetic::div_mod::lemma_fundamental_div_mod(big, d);
    vstd::arithmetic::div_mod::lemma_fundamental_div_mod(x, d);
    let r = (big + d - 1) % d;
    let e = d * magic - big;
    assert(big + d - 1 == d * magic + r);
    assert(0 <= e < d);
    let q = x / d;
    let xr = x % d;
    assert(x == d * q + xr);
    assert(0 <= xr < d);
    assert(q >= 0) by {
        vstd::arithmetic::div_mod::lemma_div_pos_is_pos(x, d);
    }
    assert(x * magic * d == x * big + x * e) by (nonlinear_arith)
        requires
            e == d * magic - big,
    ;
    let bd = big / d;
    assert(x * d <= big) by (nonlinear_arith)
        requires
            x < bound,
            bound <= bd,
            big == d * bd + big % d,
            0 <= big % d,
            d > 0,
    ;
    assert(x * e < big || x == 0) by (nonlinear_arith)
        requires
            0 <= e < d,
            x >= 0,
            x * d <= big,
    ;
    assert(x * e >= 0) by (nonlinear_arith)
        requires
            0 <= e,
            0 <= x,
    ;
    assert(x * big >= d * q * big) by (nonlinear_arith)
        requires
            x == d * q + xr,
            0 <= xr,
            big > 0,
    ;
    assert(q * big * d <= x * magic * d) by (nonlinear_arith)
        requires
            x * magic * d == x * big + x * e,
            x * e >= 0,
            x * big >= d * q * big,
    ;
    assert(q * big <= x * magic) by (nonlinear_arith)
        requires
            q * big * d <= x * magic * d,
            d > 0,
    ;
    assert(x * magic * d < (q + 1) * big * d) by (nonlinear_arith)
        requires
            x * magic * d == x * big + x * e,
            x == d * q + xr,
            0 <= xr,
            xr + 1 <= d,
            x * e < big || x == 0,
            e >= 0,
            d > 0,
            big > 0,
    ;
    assert(x * magic < (q + 1) * big) by (nonlinear_arith)
        requires
            x * magic * d < (q + 1) * big * d,
            d > 0,
    ;
    let p = (x * magic) as u64;
    assert(p as int == x * magic);
    vstd::arithmetic::div_mod::lemma_fundamental_div_mod_converse(
        x * magic,
        big,
        q,
        x * magic - q * big,
    );
    assert((p >> 40u64) == p / 0x100_0000_0000u64) by (bit_vector);
    assert(q <= x) by {
        crate::arith::lemma_div_shrinks(x, d);
    }
}


/// `v` within the `i32` range.
pub open spec fn fits_i32(v: int) -> bool {
    i32::MIN <= v <= i32::MAX
}

/// `v` capped at `i32::MAX` (a count taken as an `i32`).
pub open spec fn cap_i32(v: int) -> int {
    if v > i32::MAX { i32::MAX as int } else { v }
}

/// `accum` after `add_point`: the cell at column `x`, row `y` of a
/// `width + 2` wide accumulator raised by `weight` (saturating), when that
/// cell exists.
pub open spec fn add_point_spec(accum: Seq<i32>, width: int, x: int, y: int, weight: int) -> Seq<i32> {
    if x < 0 || y < 0 {
        accum
    } else {
        let index = sat_usize(sat_usize(y * sat_usize(width + 2)) + x);
        if index < accum.len() {
            accum.update(index, sat_i32(accum[index] + weight) as i32)
        } else {
            accum
        }
    }
}

/// Adds `weight` (saturating) to the cell at column `x`, row `y` of an
/// accumulator `width + 2` cells wide; outside it, nothing.
pub fn add_point(accum: &mut [i32], width: usize, x: i32, y: i32, weight: i32)
    ensures
        final(accum)@ == add_point_spec(old(accum)@, width as int, x as int, y as int, weight as int),
{
    let stride = crate::arith::sat_add_usize(width, 2);
    if x < 0 || y < 0 {
        return;
    }
    let index = crate::arith::sat_add_usize(crate::arith::sat_mul_usize(y as usize, stride), x as usize);
    if index < accum.len() {
        let v = crate::arith::sat_add_i32(accum[index], weight);
        accum[index] = v;
    }
}

/// The vector that lands on grid cell (`x`, `y`): row `y` starts at
/// `y * grid_w` (saturating); a missing one counts as zero motion.
pub open spec fn vector_at(vectors: Seq<Vector>, grid_w: int, x: int, y: int) -> (int, int) {
    let i = sat_usize(y * grid_w) + x;
    if 0 <= i < vectors.len() {
        (vectors[i].dx as int, vectors[i].dy as int)
    } else {
        (0, 0)
    }
}

/// Horizontal step between block origins.
pub open spec fn splat_x_step(ctx: VectorContext) -> int {
    sat_i32(ctx.block_w - ctx.origin_x)
}

/// Vertical step between block origins.
pub open spec fn splat_y_step(ctx: VectorContext) -> int {
    sat_i32(ctx.block_h - ctx.origin_y)
}

/// The fixed-point scale of the vectors, 256 times the scale base (as the
/// `i32` shift leaves it).
pub open spec fn splat_denom(ctx: VectorContext) -> int {
    ctx.scale_shift_base.wrapping_shl(8) as int
}

#[verifier::opaque]
/// Where grid cell (`x`, `y`) lands: the top-left output cell it covers
/// and the weights of its left, top, right and bottom parts; `None` where
/// a step of the computation leaves `i32` (or divides `i32::MIN` by -1).
pub open spec fn splat_cell(ctx: VectorContext, vectors: Seq<Vector>, threshold: int, x: int, y: int)
    -> Option<(int, int, int, int, int, int)>
{
    let x_step = splat_x_step(ctx);
    let y_step = splat_y_step(ctx);
    let denom = splat_denom(ctx);
    let x_bias = sat_i32(1 - x_step);
    let y_bias = sat_i32(1 - y_step);
    let (vdx, vdy) = vector_at(vectors, ctx.grid_w as int, x, y);
    let px = threshold * vdx;
    let py = threshold * vdy;
    if !fits_i32(px) || !fits_i32(py) || (denom == -1 && (px == i32::MIN || py == i32::MIN)) {
        None
    } else {
        let sx = sat_i32(sat_i32(x * x_step) + tdiv(px, denom));
        let sy = sat_i32(sat_i32(y_step * y) + tdiv(py, denom));
        let bx = sx + (if sx < 0 { x_bias } else { 0 });
        let by = sy + (if sy < 0 { y_bias } else { 0 });
        if !fits_i32(bx) || !fits_i32(by) || (x_step == -1 && bx == i32::MIN) || (y_step == -1 && by == i32::MIN) {
            None
        } else {
            let left = tdiv(bx, x_step);
            let top = tdiv(by, y_step);
            let next_x = sat_i32((left + 1) * x_step);
            let lw = next_x - sx;
            let tw = sat_i32(y_step * (top + 1)) - sy;
            let rw = sx + ctx.block_w - next_x;
            let bw = ctx.block_h - tw;
            if !fits_i32(left + 1) || !fits_i32(top + 1) || !fits_i32(lw) || !fits_i32(tw)
                || !fits_i32(sx + ctx.block_w) || !fits_i32(rw) || !fits_i32(bw) {
                None
            } else {
                Some((left, top, lw, tw, rw, bw))
            }
        }
    }
}

/// `acc` with `add` added at `index` (`None` if the sum leaves `i32`).
pub open spec fn add_at(acc: Option<Seq<i32>>, index: int, add: int) -> Option<Seq<i32>> {
    match acc {
        Some(a) => if fits_i32(a[index] + add) { Some(a.update(index, (a[index] + add) as i32)) } else { None },
        None => None,
    }
}

#[verifier::opaque]
/// `acc` after one grid cell is splatted: inside the output, its four
/// weight products are added to the 2 x 2 cells it covers (plain
/// additions, `None` on overflow); elsewhere each of the four cells that
/// lies inside gets its saturated product added, saturating.
pub open spec fn splat_apply(acc: Seq<i32>, width: int, height: int, cell: (int, int, int, int, int, int)) -> Option<Seq<i32>> {
    let (left, top, lw, tw, rw, bw) = cell;
    let ow = cap_i32(width);
    let oh = cap_i32(height);
    let stride = sat_usize(width + 2);
    let interior = left >= 0 && left + 1 < ow && top >= 0 && top + 1 < oh;
    let base = top * stride + left;
    if interior && base + stride + 2 <= acc.len() {
        if !fits_i32(lw * tw) || !fits_i32(tw * rw) || !fits_i32(lw * bw) || !fits_i32(rw * bw) {
            None
        } else {
            let a1 = add_at(Some(acc), base, lw * tw);
            let a2 = add_at(a1, base + 1, tw * rw);
            let a3 = add_at(a2, base + stride, lw * bw);
            add_at(a3, base + stride + 1, rw * bw)
        }
    } else {
        let a1 = if 0 <= top < oh && 0 <= left < ow { add_point_spec(acc, width, left, top, sat_i32(lw * tw)) } else { acc };
        let a2 = if left >= -1 && 0 <= top < oh && left + 1 < ow {
            add_point_spec(a1, width, left + 1, top, sat_i32(tw * rw))
        } else {
            a1
        };
        let a3 = if top >= -1 && top + 1 < oh && left >= -1 && left + 1 < ow {
            add_point_spec(a2, width, left + 1, top + 1, sat_i32(rw * bw))
        } else {
            a2
        };
        let a4 = if left >= 0 && top >= -1 && top + 1 < oh && left < ow {
            add_point_spec(a3, width, left, top + 1, sat_i32(lw * bw))
        } else {
            a3
        };
        Some(a4)
    }
}

/// The accumulator after the first `k` grid cells (row by row) are
/// splatted; `None` once a step overflows.
pub open spec fn splat_fold(
    acc: Seq<i32>,
    ctx: VectorContext,
    vectors: Seq<Vector>,
    width: int,
    height: int,
    threshold: int,
    k: int,
) -> Option<Seq<i32>>
    decreases k,
{
    if k <= 0 {
        Some(acc)
    } else {
        match splat_fold(acc, ctx, vectors, width, height, threshold, k - 1) {
            None => None,
            Some(a) => {
                let gw = cap_i32(ctx.grid_w as int);
                match splat_cell(ctx, vectors, threshold, (k - 1) % gw, (k - 1) / gw) {
                    None => None,
                    Some(c) => splat_apply(a, width, height, c),
                }
            },
        }
    }
}

/// Whether `splat_coverage` leaves the accumulator as it is: an empty
/// grid or output, or a zero step or scale.
pub open spec fn splat_skips(ctx: VectorContext, width: int, height: int) -> bool {
    ctx.grid_w == 0 || ctx.grid_h == 0 || width == 0 || height == 0 || splat_x_step(ctx) == 0
        || splat_y_step(ctx) == 0 || splat_denom(ctx) == 0
}

/// The number of grid cells that `splat_coverage` visits.
pub open spec fn splat_cells(ctx: VectorContext) -> int {
    cap_i32(ctx.grid_w as int) * cap_i32(ctx.grid_h as int)
}

/// Splatting keeps the accumulator's length.
pub proof fn lemma_splat_fold_len(
    acc: Seq<i32>,
    ctx: VectorContext,
    vectors: Seq<Vector>,
    width: int,
    height: int,
    threshold: int,
    k: int,
)
    requires
        splat_fold(acc, ctx, vectors, width, height, threshold, k) is Some,
    ensures
        splat_fold(acc, ctx, vectors, width, height, threshold, k)->0.len() == acc.len(),
    decreases k,
{
    reveal(splat_apply);
    if k > 0 {
        lemma_splat_fold_prefix(acc, ctx, vectors, width, height, threshold, k - 1, k);
        lemma_splat_fold_len(acc, ctx, vectors, width, height, threshold, k - 1);
    }
}

/// A failed fold stays failed.
pub proof fn lemma_splat_fold_prefix(
    acc: Seq<i32>,
    ctx: VectorContext,
    vectors: Seq<Vector>,
    width: int,
    height: int,
    threshold: int,
    k: int,
    n: int,
)
    requires
        0 <= k <= n,
        splat_fold(acc, ctx, vectors, width, height, threshold, n) is Some,
    ensures
        splat_fold(acc, ctx, vectors, width, height, threshold, k) is Some,
    decreases n - k,
{
    if k < n {
        lemma_splat_fold_prefix(acc, ctx, vectors, width, height, threshold, k + 1, n);
    }
}

/// Repeated saturating additions of a fixed step saturate the product.
proof fn lemma_sat_step(k: int, step: int)
    requires
        k >= 0,
        fits_i32(step),
    ensures
        sat_i32(sat_i32(k * step) + step) == sat_i32((k + 1) * step),
{
    assert((k + 1) * step == k * step + step) by (nonlinear_arith);
    if step >= 0 {
        assert(k * step >= 0) by (nonlinear_arith)
            requires
                k >= 0,
                step >= 0,
        ;
    } else {
        assert(k * step <= 0) by (nonlinear_arith)
            requires
                k >= 0,
                step < 0,
        ;
    }
}

/// Where grid cell (`x`, `y`) lands and the weights of its parts (see
/// `splat_cell`); `x_base` is the cell's unmoved left edge.
fn splat_geometry(
    ctx: &VectorContext<'_>,
    vectors: &[Vector],
    threshold: i32,
    x: i32,
    y: i32,
    x_base: i32,
    denom_div: &TruncDiv,
    x_div: &TruncDiv,
    y_div: &TruncDiv,
) -> (r: (i32, i32, i32, i32, i32, i32))
    requires
        x >= 0,
        y >= 0,
        splat_cell(*ctx, vectors@, threshold as int, x as int, y as int) is Some,
        x_base == sat_i32(x * splat_x_step(*ctx)),
        denom_div.divisor == splat_denom(*ctx) && denom_div.wf(),
        x_div.divisor == splat_x_step(*ctx) && x_div.wf(),
        y_div.divisor == splat_y_step(*ctx) && y_div.wf(),
        splat_x_step(*ctx) != 0,
        splat_y_step(*ctx) != 0,
        splat_denom(*ctx) != 0,
    ensures
        (r.0 as int, r.1 as int, r.2 as int, r.3 as int, r.4 as int, r.5 as int)
            == splat_cell(*ctx, vectors@, threshold as int, x as int, y as int)->0,
{
    proof {
        reveal(splat_cell);
    }
    let x_step = x_div.divisor;
    let y_step = y_div.divisor;
    let x_bias = crate::arith::sat_sub_i32(1, x_step);
    let y_bias = crate::arith::sat_sub_i32(1, y_step);
    let vlen = vectors.len();
    let row_start = crate::arith::sat_mul_usize(y as usize, ctx.grid_w);
    let (vdx, vdy): (i32, i32) = if row_start <= vlen && (x as usize) < vlen - row_start {
        (vectors[row_start + x as usize].dx as i32, vectors[row_start + x as usize].dy as i32)
    } else {
        (0, 0)
    };
    let dx = denom_div.div(threshold * vdx);
    let dy = denom_div.div(threshold * vdy);
    let shifted_x = crate::arith::sat_add_i32(x_base, dx);
    let shifted_y = crate::arith::sat_add_i32(crate::arith::sat_mul_i32(y_step, y), dy);
    let bx = shifted_x + (if shifted_x < 0 { x_bias } else { 0 });
    let by = shifted_y + (if shifted_y < 0 { y_bias } else { 0 });
    let left = x_div.div(bx);
    let top = y_div.div(by);
    let right = left + 1;
    let bottom = top + 1;
    let next_x = crate::arith::sat_mul_i32(right, x_step);
    let left_weight = next_x - shifted_x;
    let top_weight = crate::arith::sat_mul_i32(y_step, bottom) - shifted_y;
    let right_weight = shifted_x + ctx.block_w - next_x;
    let bottom_weight = ctx.block_h - top_weight;
    (left, top, left_weight, top_weight, right_weight, bottom_weight)
}

/// Adds one splatted cell to the accumulator (see `splat_apply`).
fn splat_cell_apply(
    accum: &mut [i32],
    width: usize,
    height: usize,
    left: i32,
    top: i32,
    left_weight: i32,
    top_weight: i32,
    right_weight: i32,
    bottom_weight: i32,
)
    requires
        old(accum)@.len() < usize::MAX,
        left < i32::MAX,
        top < i32::MAX,
        splat_apply(old(accum)@, width as int, height as int, (left as int, top as int, left_weight as int, top_weight as int, right_weight as int, bottom_weight as int)) is Some,
    ensures
        final(accum)@.len() == old(accum)@.len(),
        final(accum)@ == splat_apply(old(accum)@, width as int, height as int, (left as int, top as int, left_weight as int, top_weight as int, right_weight as int, bottom_weight as int))->0,
{
    proof {
        reveal(splat_apply);
    }
    let out_w: i32 = if width > 0x7fff_ffff { 0x7fff_ffff } else { width as i32 };
    let out_h: i32 = if height > 0x7fff_ffff { 0x7fff_ffff } else { height as i32 };
    let stride = crate::arith::sat_add_usize(width, 2);
    let len = accum.len();
    let right = left + 1;
    let bottom = top + 1;
    let interior = left >= 0 && right < out_w && top >= 0 && bottom < out_h;
    if interior {
        let tu = top as usize;
        let lu = left as usize;
        let fits = lu <= len && tu <= (len - lu) / stride;
        if !fits && lu <= len {
            proof {
                assert(tu * stride + lu > len) by (nonlinear_arith)
                    requires
                        tu > (len - lu) / (stride as int),
                        stride >= 1,
                        len >= lu,
                ;
            }
        }
        if fits {
            proof {
                assert(tu * stride + lu <= len) by (nonlinear_arith)
                    requires
                        tu <= (len - lu) / (stride as int),
                        stride >= 1,
                        len >= lu,
                ;
            }
        }
        if fits && len >= 2 && stride <= len - 2 && tu * stride + lu <= len - 2 - stride {
            let base = tu * stride + lu;
            accum[base] = accum[base] + left_weight * top_weight;
            accum[base + 1] = accum[base + 1] + top_weight * right_weight;
            accum[base + stride] = accum[base + stride] + left_weight * bottom_weight;
            accum[base + stride + 1] = accum[base + stride + 1] + right_weight * bottom_weight;
            return;
        }
    }
    if top >= 0 && top < out_h && left >= 0 && left < out_w {
        add_point(accum, width, left, top, crate::arith::sat_mul_i32(left_weight, top_weight));
    }
    if left >= -1 && top >= 0 && top < out_h && right < out_w {
        add_point(accum, width, right, top, crate::arith::sat_mul_i32(top_weight, right_weight));
    }
    if top >= -1 && bottom < out_h && left >= -1 && right < out_w {
        add_point(accum, width, right, bottom, crate::arith::sat_mul_i32(right_weight, bottom_weight));
    }
    if left >= 0 && top >= -1 && bottom < out_h && left < out_w {
        add_point(accum, width, left, bottom, crate::arith::sat_mul_i32(left_weight, bottom_weight));
    }
}

/// Splats every vector of `vectors` (scaled by `threshold`) as a block
/// moved by it onto an accumulator of the output (`width` x `height`,
/// with a border of one cell): each block adds its overlap with the four
/// output cells it covers.
pub fn splat_coverage(
    ctx: &VectorContext<'_>,
    vectors: &[Vector],
    accum: &mut [i32],
    width: usize,
    height: usize,
    threshold: i32,
)
    requires
        old(accum)@.len() < usize::MAX,
        !splat_skips(*ctx, width as int, height as int) ==> splat_fold(
            old(accum)@, *ctx, vectors@, width as int, height as int, threshold as int, splat_cells(*ctx),
        ) is Some,
    ensures
        final(accum)@ == (if splat_skips(*ctx, width as int, height as int) {
            old(accum)@
        } else {
            splat_fold(old(accum)@, *ctx, vectors@, width as int, height as int, threshold as int, splat_cells(*ctx))->0
        }),
{
    let grid_w: i32 = if ctx.grid_w > 0x7fff_ffff { 0x7fff_ffff } else { ctx.grid_w as i32 };
    let grid_h: i32 = if ctx.grid_h > 0x7fff_ffff { 0x7fff_ffff } else { ctx.grid_h as i32 };
    let out_w: i32 = if width > 0x7fff_ffff { 0x7fff_ffff } else { width as i32 };
    let out_h: i32 = if height > 0x7fff_ffff { 0x7fff_ffff } else { height as i32 };
    if grid_w <= 0 || grid_h <= 0 || out_w <= 0 || out_h <= 0 {
        return;
    }
    let x_step = crate::arith::sat_sub_i32(ctx.block_w, ctx.origin_x);
    let y_step = crate::arith::sat_sub_i32(ctx.block_h, ctx.origin_y);
    let denom = ctx.scale_shift_base.wrapping_shl(8);
    if x_step == 0 || y_step == 0 || denom == 0 {
        return;
    }
    let denom_div = TruncDiv::new(denom);
    let x_div = TruncDiv::new(x_step);
    let y_div = TruncDiv::new(y_step);
    let ghost orig = accum@;
    let ghost total = splat_cells(*ctx);
    let ghost gw = grid_w as int;
    let len = accum.len();
    let vlen = vectors.len();
    let mut y: i32 = 0;
    while y < grid_h
        invariant
            0 <= y <= grid_h,
            gw == grid_w,
            gw == cap_i32(ctx.grid_w as int),
            grid_h == cap_i32(ctx.grid_h as int),
            grid_w > 0,
            total == gw * grid_h,
            len == orig.len(),
            len < usize::MAX,
            vlen == vectors@.len(),
            accum@.len() == len,
            x_step == splat_x_step(*ctx),
            y_step == splat_y_step(*ctx),
            denom == splat_denom(*ctx),
            x_step != 0 && y_step != 0 && denom != 0,
            denom_div.divisor == denom && denom_div.wf(),
            x_div.divisor == x_step && x_div.wf(),
            y_div.divisor == y_step && y_div.wf(),
            splat_fold(orig, *ctx, vectors@, width as int, height as int, threshold as int, total) is Some,
            accum@ == splat_fold(orig, *ctx, vectors@, width as int, height as int, threshold as int, y * gw)->0,
        decreases grid_h - y,
    {
        let mut x: i32 = 0;
        let mut x_base: i32 = 0;
        while x < grid_w
            invariant
                0 <= x <= grid_w,
                0 <= y < grid_h,
                gw == grid_w,
                gw == cap_i32(ctx.grid_w as int),
                grid_h == cap_i32(ctx.grid_h as int),
                grid_w > 0,
                total == gw * grid_h,
                len == orig.len(),
                len < usize::MAX,
                vlen == vectors@.len(),
                accum@.len() == len,
                    x_step == splat_x_step(*ctx),
                y_step == splat_y_step(*ctx),
                denom == splat_denom(*ctx),
                x_step != 0 && y_step != 0 && denom != 0,
                denom_div.divisor == denom && denom_div.wf(),
                x_div.divisor == x_step && x_div.wf(),
                y_div.divisor == y_step && y_div.wf(),
                x_base == sat_i32(x * x_step),
                splat_fold(orig, *ctx, vectors@, width as int, height as int, threshold as int, total) is Some,
                accum@ == splat_fold(orig, *ctx, vectors@, width as int, height as int, threshold as int, y * gw + x)->0,
            decreases grid_w - x,
        {
            let ghost k = y * gw + x;
            proof {
                assert(k + 1 <= total) by (nonlinear_arith)
                    requires
                        k == y * gw + x,
                        0 <= x < gw,
                        0 <= y < grid_h,
                        total == gw * grid_h,
                ;
                assert(0 <= k) by (nonlinear_arith)
                    requires
                        k == y * gw + x,
                        0 <= x,
                        0 <= y,
                        gw > 0,
                ;
                lemma_splat_fold_prefix(orig, *ctx, vectors@, width as int, height as int, threshold as int, k + 1, total);
                vstd::arithmetic::div_mod::lemma_fundamental_div_mod_converse(k, gw, y as int, x as int);
            }
            proof {
                reveal(splat_cell);
            }
            let c = splat_geometry(ctx, vectors, threshold, x, y, x_base, &denom_div, &x_div, &y_div);
            splat_cell_apply(accum, width, height, c.0, c.1, c.2, c.3, c.4, c.5);
            proof {
                lemma_sat_step(x as int, x_step as int);
            }
            x = x + 1;
            x_base = crate::arith::sat_add_i32(x_base, x_step);
        }
        assert(y * gw + gw == (y + 1) * gw) by (nonlinear_arith);
        y = y + 1;
    }
    assert(grid_h * gw == total) by (nonlinear_arith)
        requires
            total == gw * grid_h,
    ;
}


/// Horizontal window sum at column `c` of row `y`: the sample and the (at
/// most) two before it in that row.
pub open spec fn hsum(points: Seq<i32>, stride: int, y: int, c: int) -> int {
    let b = y * stride;
    if c == 0 {
        points[b] as int
    } else if c == 1 {
        points[b + 1] + points[b]
    } else {
        points[b + c] + points[b + c - 1] + points[b + c - 2]
    }
}

/// The first partial sum of the horizontal window at column `c >= 1`.
pub open spec fn hpair(points: Seq<i32>, stride: int, y: int, c: int) -> int {
    points[y * stride + c] + points[y * stride + c - 1]
}

/// Whether the horizontal sums of row `y` stay within `i32`.
pub open spec fn hsum_fits(points: Seq<i32>, stride: int, y: int) -> bool {
    forall|c: int| 1 <= c < stride ==> fits_i32(#[trigger] hpair(points, stride, y, c)) && (c >= 2 ==> fits_i32(
        hsum(points, stride, y, c),
    ))
}

/// Index `i` of a row-major layout of `stride` columns lies in row `y`.
proof fn lemma_row_of(i: int, stride: int, y: int)
    requires
        stride > 0,
        y * stride <= i < y * stride + stride,
    ensures
        i / stride == y,
        i % stride == i - y * stride,
{
    vstd::arithmetic::div_mod::lemma_fundamental_div_mod_converse(i, stride, y, i - y * stride);
}

/// Indices from row `h` on lie in rows `h` and up.
proof fn lemma_row_at_least(i: int, stride: int, h: int)
    requires
        stride > 0,
        h >= 0,
        i >= h * stride,
    ensures
        i / stride >= h,
{
    vstd::arithmetic::div_mod::lemma_div_is_ordered(h * stride, i, stride);
    vstd::arithmetic::div_mod::lemma_fundamental_div_mod_converse(h * stride, stride, h, 0);
}

/// Number of whole rows that the horizontal pass writes.
pub open spec fn hrows(plen: int, slen: int, stride: int) -> int {
    let a = plen / stride;
    let b = slen / stride;
    if a < b { a } else { b }
}

/// The sums buffer after the horizontal pass.
pub open spec fn hpass(points: Seq<i32>, sums: Seq<i32>, stride: int, i: int) -> int {
    let y = i / stride;
    let c = i % stride;
    if y < hrows(points.len() as int, sums.len() as int, stride) { hsum(points, stride, y, c) } else { sums[i] as int }
}

/// The 3 x 3 window sum at `i`: the horizontal sums of its row and of the
/// (at most) two rows above.
pub open spec fn window_at(points: Seq<i32>, sums: Seq<i32>, stride: int, i: int) -> int {
    let y = i / stride;
    hpass(points, sums, stride, i) + (if y >= 1 {
        hpass(points, sums, stride, i - stride) + (if y >= 2 { hpass(points, sums, stride, i - 2 * stride) } else { 0 })
    } else {
        0
    })
}

/// Whether the vertical sums stay within `i32`.
pub open spec fn window_fits(points: Seq<i32>, sums: Seq<i32>, stride: int) -> bool {
    let rows = (sums.len() as int) / stride;
    forall|i: int| stride <= i < rows * stride ==> {
        let y = i / stride;
        &&& (y >= 2 ==> fits_i32(hpass(points, sums, stride, i - stride) + hpass(points, sums, stride, i - 2 * stride)))
        &&& fits_i32(#[trigger] window_at(points, sums, stride, i))
    }
}

/// What `window_fits` says of one index.
proof fn lemma_window_fits_at(points: Seq<i32>, sums: Seq<i32>, stride: int, i: int)
    requires
        window_fits(points, sums, stride),
        stride <= i < ((sums.len() as int) / stride) * stride,
    ensures
        i / stride >= 2 ==> fits_i32(hpass(points, sums, stride, i - stride) + hpass(points, sums, stride, i - 2 * stride)),
        fits_i32(window_at(points, sums, stride, i)),
{
    assert(fits_i32(window_at(points, sums, stride, i)));
}

/// Sums every sample of `points` (rows of `stride`) with its neighbours
/// up to two columns to the left and two rows up, into `sums`; a stride
/// below 2 copies.
pub fn window_3x3(points: &[i32], sums: &mut [i32], stride: usize)
    requires
        stride < 2 ==> points@.len() == old(sums)@.len(),
        stride >= 2 ==> forall|y: int| 0 <= y < hrows(points@.len() as int, old(sums)@.len() as int, stride as int)
            ==> #[trigger] hsum_fits(points@, stride as int, y),
        stride >= 2 ==> window_fits(points@, old(sums)@, stride as int),
    ensures
        stride < 2 ==> final(sums)@ == points@,
        stride >= 2 ==> final(sums)@.len() == old(sums)@.len() && forall|i: int| 0 <= i < old(sums)@.len() ==> #[trigger] final(sums)@[i]
            == (if i < ((old(sums)@.len() as int) / (stride as int)) * stride { window_at(points@, old(sums)@, stride as int, i) } else {
            old(sums)@[i] as int
        }),
{
    let plen = points.len();
    let slen = sums.len();
    if stride < 2 {
        let mut i: usize = 0;
        while i < slen
            invariant
                plen == points@.len(),
                slen == sums@.len(),
                plen == slen,
                0 <= i <= slen,
                forall|k: int| 0 <= k < i ==> #[trigger] sums@[k] == points@[k],
            decreases slen - i,
        {
            sums[i] = points[i];
            i = i + 1;
        }
        assert(sums@ =~= points@);
        return;
    }
    let ghost orig = sums@;
    let ghost st = stride as int;
    let hr = if plen / stride < slen / stride { plen / stride } else { slen / stride };
    let mut y: usize = 0;
    while y < hr
        invariant
            plen == points@.len(),
            slen == sums@.len(),
            slen == orig.len(),
            stride >= 2,
            st == stride as int,
            hr == hrows(plen as int, slen as int, stride as int),
            0 <= y <= hr,
            forall|r: int| 0 <= r < hr ==> #[trigger] hsum_fits(points@, stride as int, r),
            forall|i: int| 0 <= i < slen ==> #[trigger] sums@[i] == (if i < y * stride { hpass(points@, orig, stride as int, i) } else { orig[i] as int }),
        decreases hr - y,
    {
        proof {
            assert(hr * stride <= plen && hr * stride <= slen) by (nonlinear_arith)
                requires
                    hr <= (plen as int) / (stride as int),
                    hr <= (slen as int) / (stride as int),
                    stride >= 2,
            ;
            assert((y + 1) * stride <= hr * stride) by (nonlinear_arith)
                requires
                    y + 1 <= hr,
                    stride >= 2,
            ;
            assert((y + 1) * stride == y * stride + stride) by (nonlinear_arith);
            assert(hsum_fits(points@, stride as int, y as int));
        }
        let b = y * stride;
        let ghost prev = sums@;
        assert(fits_i32(hpair(points@, stride as int, y as int, 1)));
        sums[b] = points[b];
        sums[b + 1] = points[b + 1] + points[b];
        let mut c: usize = 2;
        while c < stride
            invariant
                plen == points@.len(),
                slen == sums@.len(),
                stride >= 2,
                2 <= c <= stride,
                b == y * stride,
                b + stride <= plen,
                b + stride <= slen,
                hsum_fits(points@, stride as int, y as int),
                sums@[b as int] == points@[b as int],
                sums@[b + 1] == points@[b + 1] + points@[b as int],
                forall|k: int| 2 <= k < c ==> #[trigger] sums@[b + k] == hsum(points@, stride as int, y as int, k),
                forall|i: int| 0 <= i < slen && !(b <= i < b + stride) ==> #[trigger] sums@[i] == prev[i],
                prev.len() == slen,
            decreases stride - c,
        {
            assert(fits_i32(hpair(points@, stride as int, y as int, c as int)));
            assert(fits_i32(hsum(points@, stride as int, y as int, c as int)));
            sums[b + c] = points[b + c] + points[b + c - 1] + points[b + c - 2];
            c = c + 1;
        }
        proof {
            assert forall|i: int| 0 <= i < slen implies #[trigger] sums@[i] == (if i < (y + 1) * stride { hpass(points@, orig, stride as int, i) } else { orig[i] as int }) by {
                if b <= i < b + stride {
                    assert(b == (y as int) * st);
                    lemma_row_of(i, st, y as int);
                }
            }
        }
        y = y + 1;
    }
    let rows = slen / stride;
    proof {
        assert(rows * stride <= slen) by (nonlinear_arith)
            requires
                rows == (slen as int) / (stride as int),
                stride >= 2,
        ;
        assert(hr * stride <= rows * stride) by (nonlinear_arith)
            requires
                hr <= rows,
                stride >= 2,
        ;
        assert forall|i: int| 0 <= i < slen implies #[trigger] sums@[i] == hpass(points@, orig, stride as int, i) || i >= rows * stride by {
            if i < rows * stride && i >= hr * stride {
                lemma_row_at_least(i, st, hr as int);
            }
        }
    }
    let mut yy: usize = rows;
    while yy > 1
        invariant
            plen == points@.len(),
            slen == sums@.len(),
            slen == orig.len(),
            stride >= 2,
            st == stride as int,
            rows == slen / stride,
            rows * stride <= slen,
            1 <= yy <= rows || (yy == rows && rows <= 1),
            window_fits(points@, orig, stride as int),
            forall|i: int| 0 <= i < slen ==> #[trigger] sums@[i] == (
                if i >= rows * stride { orig[i] as int }
                else if i >= yy * stride { window_at(points@, orig, stride as int, i) }
                else { hpass(points@, orig, stride as int, i) }),
        decreases yy,
    {
        let y = yy - 1;
        proof {
            assert(yy * stride <= rows * stride) by (nonlinear_arith)
                requires
                    yy <= rows,
                    stride >= 2,
            ;
            assert(yy * stride == y * stride + stride) by (nonlinear_arith)
                requires
                    y == yy - 1,
            ;
        }
        let b = y * stride;
        let mut c: usize = 0;
        while c < stride
            invariant
                plen == points@.len(),
                slen == sums@.len(),
                slen == orig.len(),
                stride >= 2,
                st == stride as int,
                rows == slen / stride,
                rows * stride <= slen,
                y >= 1,
                b == y * stride,
                b + stride <= rows * stride,
                0 <= c <= stride,
                window_fits(points@, orig, stride as int),
                forall|i: int| 0 <= i < slen ==> #[trigger] sums@[i] == (
                    if i >= rows * stride { orig[i] as int }
                    else if i >= b + stride { window_at(points@, orig, stride as int, i) }
                    else if b <= i < b + c { window_at(points@, orig, stride as int, i) }
                    else { hpass(points@, orig, stride as int, i) }),
            decreases stride - c,
        {
            let i = b + c;
            proof {
                let ii = i as int;
                assert(b == (y as int) * st);
                assert(st <= b) by (nonlinear_arith)
                    requires
                        b == (y as int) * st,
                        y >= 1,
                        st >= 2,
                ;
                lemma_row_of(ii, st, y as int);
                assert(ii < ((orig.len() as int) / st) * st);
                lemma_window_fits_at(points@, orig, st, ii);
                assert((y - 1) * st == b - st) by (nonlinear_arith)
                    requires
                        b == (y as int) * st,
                ;
                lemma_row_of(ii - st, st, y - 1);
                if y >= 2 {
                    assert((y - 2) * st == b - 2 * st) by (nonlinear_arith)
                        requires
                            b == (y as int) * st,
                    ;
                    lemma_row_of(ii - 2 * st, st, y - 2);
                }
            }
            if y >= 2 {
                let a = sums[i - stride];
                let d = sums[i - 2 * stride];
                sums[i] = sums[i] + (a + d);
            } else {
                let a = sums[i - stride];
                sums[i] = sums[i] + a;
            }
            c = c + 1;
        }
        yy = y;
    }
    proof {
        assert(yy * stride <= stride) by (nonlinear_arith)
            requires
                yy <= 1,
                stride >= 2,
        ;
        assert forall|i: int| 0 <= i < slen implies #[trigger] sums@[i] == (if i < rows * stride { window_at(points@, orig, stride as int, i) } else {
            orig[i] as int
        }) by {
            if i < stride && i < rows * stride {
                lemma_row_of(i, st, 0);
            }
        }
    }
}


/// How much of a block's area is left uncovered by an accumulated
/// coverage `value` (in eighths): the area less the covered part, never
/// negative.
pub open spec fn remaining_spec(area: int, value: int) -> int {
    let covered = value / 8;
    if area <= covered { 0 } else { area - covered }
}

/// Whether output row `y` and its accumulator row are both there.
pub open spec fn coverage_row_ok(out_len: int, accum_len: int, width: int, y: int) -> bool {
    let stride = sat_usize(width + 2);
    let out_start = sat_usize(y * width);
    let accum_start = sat_usize(sat_usize((y + 1) * stride) + 1);
    &&& sat_usize(out_start + width) <= out_len
    &&& sat_usize(accum_start + width) <= accum_len
}

/// Index in the accumulator of output cell (`c`, `y`).
pub open spec fn coverage_index(width: int, y: int, c: int) -> int {
    sat_usize(sat_usize((y + 1) * sat_usize(width + 2)) + 1) + c
}

/// The uncovered area of each output cell, row by row, for the rows that
/// an output of `out_len` cells and the accumulator both hold: stops at
/// the first row that either lacks.
pub fn coverage_remaining(ctx: &VectorContext<'_>, accum: &[i32], out_len: usize, width: usize, height: usize) -> (r: (Vec<i32>, usize))
    requires
        accum@.len() <= isize::MAX,
        out_len <= isize::MAX,
        forall|y: int, c: int| 0 <= y < height && 0 <= c < width && coverage_row_ok(out_len as int, accum@.len() as int, width as int, y)
            ==> #[trigger] fits_i32(remaining_spec(ctx.area_spec(), accum@[coverage_index(width as int, y, c)] as int)),
    ensures
        r.1 <= height,
        r.0@.len() == r.1 * width,
        forall|y: int| 0 <= y < r.1 ==> #[trigger] coverage_row_ok(out_len as int, accum@.len() as int, width as int, y),
        r.1 < height ==> !coverage_row_ok(out_len as int, accum@.len() as int, width as int, r.1 as int),
        forall|y: int, c: int| 0 <= y < r.1 && 0 <= c < width ==> #[trigger] r.0@[y * width + c] == remaining_spec(
            ctx.area_spec(),
            accum@[coverage_index(width as int, y, c)] as int,
        ),
{
    let stride = crate::arith::sat_add_usize(width, 2);
    let area = ctx.area();
    let alen = accum.len();
    let mut r: Vec<i32> = Vec::new();
    let mut y: usize = 0;
    let mut ok = true;
    while ok && y < height
        invariant
            alen == accum@.len(),
            alen <= isize::MAX,
            out_len <= isize::MAX,
            stride == sat_usize(width + 2),
            area == ctx.area_spec(),
            0 <= y <= height,
            forall|k: int| 0 <= k < y ==> #[trigger] coverage_row_ok(out_len as int, alen as int, width as int, k),
            !ok ==> y < height && !coverage_row_ok(out_len as int, alen as int, width as int, y as int),
            r@.len() == y * width,
            forall|yy: int, c: int| 0 <= yy < height && 0 <= c < width && coverage_row_ok(out_len as int, accum@.len() as int, width as int, yy)
                ==> #[trigger] fits_i32(remaining_spec(ctx.area_spec(), accum@[coverage_index(width as int, yy, c)] as int)),
            forall|yy: int, c: int| 0 <= yy < y && 0 <= c < width ==> #[trigger] r@[yy * width + c] == remaining_spec(
                ctx.area_spec(),
                accum@[coverage_index(width as int, yy, c)] as int,
            ),
        decreases height - y, if ok { 1int } else { 0int },
    {
        let out_start = crate::arith::sat_mul_usize(y, width);
        let accum_start = crate::arith::sat_add_usize(crate::arith::sat_mul_usize(y + 1, stride), 1);
        if crate::arith::sat_add_usize(out_start, width) > out_len || crate::arith::sat_add_usize(accum_start, width) > alen {
            ok = false;
        } else {
            let mut c: usize = 0;
            while c < width
                invariant
                    alen == accum@.len(),
                    y < height,
                    0 <= c <= width,
                    accum_start == sat_usize(sat_usize((y + 1) * sat_usize(width + 2)) + 1),
                    accum_start + width <= alen,
                    area == ctx.area_spec(),
                    coverage_row_ok(out_len as int, alen as int, width as int, y as int),
                    r@.len() == y * width + c,
                    forall|yy: int, cc: int| 0 <= yy < height && 0 <= cc < width && coverage_row_ok(out_len as int, accum@.len() as int, width as int, yy)
                        ==> #[trigger] fits_i32(remaining_spec(ctx.area_spec(), accum@[coverage_index(width as int, yy, cc)] as int)),
                    forall|yy: int, cc: int| 0 <= yy < y && 0 <= cc < width ==> #[trigger] r@[yy * width + cc] == remaining_spec(
                        ctx.area_spec(),
                        accum@[coverage_index(width as int, yy, cc)] as int,
                    ),
                    forall|cc: int| 0 <= cc < c ==> #[trigger] r@[y * width + cc] == remaining_spec(
                        ctx.area_spec(),
                        accum@[coverage_index(width as int, y as int, cc)] as int,
                    ),
                decreases width - c,
            {
                let value = accum[accum_start + c];
                let covered = value >> 3;
                proof {
                    assert(value >> 3 == (value as int) / 8) by (bit_vector);
                    assert(fits_i32(remaining_spec(ctx.area_spec(), accum@[coverage_index(width as int, y as int, c as int)] as int)));
                }
                let remaining = if area <= covered { 0 } else { area - covered };
                let ghost before = r@;
                r.push(remaining);
                proof {
                    assert forall|yy: int, cc: int| 0 <= yy < y && 0 <= cc < width implies #[trigger] r@[yy * width + cc] == remaining_spec(
                        ctx.area_spec(),
                        accum@[coverage_index(width as int, yy, cc)] as int,
                    ) by {
                        assert(yy * width + cc < y * width) by (nonlinear_arith)
                            requires
                                yy < y,
                                cc < width,
                        ;
                        assert(r@[yy * width + cc] == before[yy * width + cc]);
                    }
                }
                c = c + 1;
            }
            proof {
                assert((y + 1) * width == y * width + width) by (nonlinear_arith);
            }
            y = y + 1;
        }
    }
    (r, y)
}


/// An accumulator of `len` zeros.
pub open spec fn zero_acc(len: int) -> Seq<i32> {
    Seq::new(len as nat, |i: int| 0i32)
}

/// The accumulator of `coverage_mask` after splatting: the blocks of the
/// field opposite to `which` splatted onto zeros.
pub open spec fn coverage_points(ctx: VectorContext, which: usize, width: int, height: int, threshold: int) -> Seq<i32> {
    let len = (width + 2) * (height + 2);
    let vectors = if which == 0 { ctx.b@ } else { ctx.a@ };
    let zeros = zero_acc(len);
    if splat_skips(ctx, width, height) {
        zeros
    } else {
        splat_fold(zeros, ctx, vectors, width, height, threshold, splat_cells(ctx))->0
    }
}

/// The 3 x 3 window sum of `coverage_mask` at accumulator index `i`.
pub open spec fn coverage_window(ctx: VectorContext, which: usize, width: int, height: int, threshold: int, i: int) -> int {
    let len = (width + 2) * (height + 2);
    window_at(coverage_points(ctx, which, width, height, threshold), zero_acc(len), width + 2, i)
}

/// Whether `coverage_mask` stays within `i32` and its buffers fit memory.
pub open spec fn coverage_fits(ctx: VectorContext, which: usize, width: int, height: int, threshold: int) -> bool {
    let stride = width + 2;
    let len = stride * (height + 2);
    let vectors = if which == 0 { ctx.b@ } else { ctx.a@ };
    let zeros = zero_acc(len);
    let points = coverage_points(ctx, which, width, height, threshold);
    &&& len * 4 <= isize::MAX
    &&& !splat_skips(ctx, width, height) ==> splat_fold(zeros, ctx, vectors, width, height, threshold, splat_cells(ctx)) is Some
    &&& forall|y: int| 0 <= y < height + 2 ==> #[trigger] hsum_fits(points, stride, y)
    &&& window_fits(points, zeros, stride)
    &&& forall|y: int, c: int| 0 <= y < height && 0 <= c < width ==> #[trigger] fits_i32(remaining_spec(
        ctx.area_spec(),
        coverage_window(ctx, which, width, height, threshold, coverage_index(width, y, c)),
    ))
}

/// Every output row of `coverage_mask` is there in both buffers, at an
/// exact (unsaturated) index.
proof fn lemma_coverage_rows(width: int, height: int, y: int, c: int)
    requires
        width >= 0,
        height >= 0,
        (width + 2) * (height + 2) * 4 <= isize::MAX,
        0 <= y < height,
        0 <= c < width,
    ensures
        coverage_row_ok(width * height, (width + 2) * (height + 2), width, y),
        coverage_index(width, y, c) == (y + 1) * (width + 2) + 1 + c,
        (width + 2) <= coverage_index(width, y, c) < (height + 1) * (width + 2),
{
    let stride = width + 2;
    let len = stride * (height + 2);
    assert(len <= usize::MAX);
    assert(y * width + width <= width * height) by (nonlinear_arith)
        requires
            y + 1 <= height,
            width >= 0,
    ;
    assert(0 <= y * width) by (nonlinear_arith)
        requires
            y >= 0,
            width >= 0,
    ;
    assert((y + 1) * stride <= height * stride) by (nonlinear_arith)
        requires
            y + 1 <= height,
            stride >= 0,
    ;
    assert((height + 1) * stride == height * stride + stride) by (nonlinear_arith);
    assert((height + 1) * stride + stride == len) by (nonlinear_arith)
        requires
            len == stride * (height + 2),
    ;
    assert(stride <= (y + 1) * stride) by (nonlinear_arith)
        requires
            y >= 0,
            stride >= 0,
    ;

    assert(width * height <= len) by (nonlinear_arith)
        requires
            len == (width + 2) * (height + 2),
            width >= 0,
            height >= 0,
    ;
}

/// The coverage of the output by the blocks of the field opposite to
/// `which` (field `b` for 0, else `a`), moved along their vectors scaled
/// by `threshold`: the splatted block overlaps, summed over each 3 x 3
/// neighbourhood, as the area each output cell leaves uncovered (row by
/// row, `width` x `height`). The byte mask is made of these by a float
/// strength curve.
pub fn coverage_mask(ctx: &VectorContext<'_>, which: usize, width: usize, height: usize, threshold: i32) -> (r: Vec<i32>)
    requires
        coverage_fits(*ctx, which, width as int, height as int, threshold as int),
    ensures
        r@.len() == width * height,
        forall|y: int, c: int| 0 <= y < height && 0 <= c < width ==> #[trigger] r@[y * width + c] == remaining_spec(
            ctx.area_spec(),
            coverage_window(*ctx, which, width as int, height as int, threshold as int, coverage_index(width as int, y, c)),
        ),
{
    proof {
        assert((width + 2) * (height + 2) * 4 >= 0) by (nonlinear_arith)
            requires
                width >= 0,
                height >= 0,
        ;
        assert(width * height <= (width + 2) * (height + 2)) by (nonlinear_arith)
            requires
                width >= 0,
                height >= 0,
        ;
        assert(width + 2 <= (width + 2) * (height + 2)) by (nonlinear_arith)
            requires
                width >= 0,
                height >= 0,
        ;
        assert(height + 2 <= (width + 2) * (height + 2)) by (nonlinear_arith)
            requires
                width >= 0,
                height >= 0,
        ;
    }
    let stride = width + 2;
    let len = stride * (height + 2);
    let ghost zeros = zero_acc(len as int);
    let mut points: Vec<i32> = vec![0; len];
    let mut sums: Vec<i32> = vec![0; len];
    assert(points@ =~= zeros);
    assert(sums@ =~= zeros);
    let vectors = ctx.opposite_set(which);
    splat_coverage(ctx, vectors, points.as_mut_slice(), width, height, threshold);
    let ghost pts = points@;
    assert(pts == coverage_points(*ctx, which, width as int, height as int, threshold as int));
    proof {
        assert(len as int == (height + 2) * (stride as int) + 0) by (nonlinear_arith)
            requires
                len == stride * (height + 2),
        ;
        assert(len / stride == height + 2) by {
            vstd::arithmetic::div_mod::lemma_fundamental_div_mod_converse(len as int, stride as int, height + 2, 0);
        }
        if !splat_skips(*ctx, width as int, height as int) {
            lemma_splat_fold_len(zeros, *ctx, vectors@, width as int, height as int, threshold as int, splat_cells(*ctx));
        }
        assert(pts.len() == len);
    }
    window_3x3(points.as_slice(), sums.as_mut_slice(), stride);
    let ghost win = sums@;
    proof {
        assert(((len as int) / (stride as int)) * stride == len);
    }
    let out_len = width * height;
    proof {
        assert forall|y: int, c: int| 0 <= y < height && 0 <= c < width implies
            coverage_row_ok(out_len as int, win.len() as int, width as int, y)
            && #[trigger] fits_i32(remaining_spec(ctx.area_spec(), win[coverage_index(width as int, y, c)] as int))
            && win[coverage_index(width as int, y, c)] == coverage_window(*ctx, which, width as int, height as int, threshold as int, coverage_index(width as int, y, c)) by {
            lemma_coverage_rows(width as int, height as int, y, c);
            let idx = coverage_index(width as int, y, c);
            assert(idx < len);
            assert(win[idx] == window_at(pts, zeros, stride as int, idx));
            assert(coverage_window(*ctx, which, width as int, height as int, threshold as int, idx) == window_at(pts, zeros, stride as int, idx));
            assert(fits_i32(remaining_spec(ctx.area_spec(), coverage_window(*ctx, which, width as int, height as int, threshold as int, idx))));
        }
    }
    let acc_slice = sums.as_slice();
    assert(acc_slice@ == win);
    let (r, n) = coverage_remaining(ctx, acc_slice, out_len, width, height);
    proof {
        if n < height {
            if width > 0 {
                lemma_coverage_rows(width as int, height as int, n as int, 0);
            } else {
                assert(coverage_row_ok(out_len as int, acc_slice@.len() as int, width as int, n as int)) by {
                    assert(width * height == 0);
                    assert((n + 1) * 2 + 1 <= len) by (nonlinear_arith)
                        requires
                            n + 1 <= height,
                            len == (width + 2) * (height + 2),
                            width == 0,
                    ;
                }
            }
        }
        assert(n == height);
        assert(r@.len() == width * height) by (nonlinear_arith)
            requires
                r@.len() == n * width,
                n == height,
        ;
        assert forall|y: int, c: int| 0 <= y < height && 0 <= c < width implies #[trigger] r@[y * width + c] == remaining_spec(
            ctx.area_spec(),
            coverage_window(*ctx, which, width as int, height as int, threshold as int, coverage_index(width as int, y, c)),
        ) by {
            assert(fits_i32(remaining_spec(ctx.area_spec(), win[coverage_index(width as int, y, c)] as int)));
        }
    }
    r
}

} // verus!
