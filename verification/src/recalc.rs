//! The refinement pass: the finest field is carried onto a grid of half
//! as large blocks by bilinear interpolation, and every block whose
//! interpolated cost is above a threshold is searched again around its
//! interpolated vector. Blocks on the frame border are costed on their
//! central half and their cost is tripled.
use vstd::prelude::*;
use crate::analyse_opts::AnalyseOpts;
use crate::analyse_search::{SuperPlanes, Vec8, mv_bounds, mv_bounds_spec, exact_clip};
use crate::arith::{clamp, tdiv};
use crate::block_cost::{exact_sad, luma_dc_spec, block_luma_dc, level_w, level_h};
use crate::block_search::{
    BlockSearch, SearchBest, search_ok, refine_spec, exact_refine_search, clip_spec, sad_of, mv_near, with_pnew,
};

verus! {

/// The smaller of `a` and `b`, and the larger.
pub open spec fn min_i(a: int, b: int) -> int {
    if a < b { a } else { b }
}

pub open spec fn max_i(a: int, b: int) -> int {
    if a < b { b } else { a }
}

impl AnalyseOpts {
    /// The grid of `bw` x `bh` blocks overlapping by `ox`, `oy` over the
    /// frame: at least one block each way.
    pub open spec fn grid_spec(&self, bw: int, bh: int, ox: int, oy: int) -> (int, int) {
        let sx = max_i(bw - ox, 1);
        let sy = max_i(bh - oy, 1);
        (max_i(tdiv(self.width - ox, sx), 1), max_i(tdiv(self.height - oy, sy), 1))
    }

    /// The grid of blocks over the frame (see `grid_spec`).
    pub fn grid(&self, bw: i32, bh: i32, ox: i32, oy: i32) -> (r: (i32, i32))
        requires
            -0x10000 <= bw <= 0x10000 && -0x10000 <= bh <= 0x10000,
            -0x10000 <= ox <= 0x10000 && -0x10000 <= oy <= 0x10000,
            -0x10000 <= self.width <= 0x10000 && -0x10000 <= self.height <= 0x10000,
        ensures
            (r.0 as int, r.1 as int) == self.grid_spec(bw as int, bh as int, ox as int, oy as int),
    {
        let sx = if bw - ox < 1 { 1 } else { bw - ox };
        let sy = if bh - oy < 1 { 1 } else { bh - oy };
        let gw = crate::arith::div_i32(self.width - ox, sx);
        let gh = crate::arith::div_i32(self.height - oy, sy);
        (if gw < 1 { 1 } else { gw }, if gh < 1 { 1 } else { gh })
    }
}

/// The entry of the coarse field at column `x`, row `y`, both clamped
/// into the grid.
pub open spec fn parent_at(field: Seq<Vec8>, gw: int, gh: int, x: int, y: int) -> Vec8 {
    field[clamp(y, 0, gh - 1) * gw + clamp(x, 0, gw - 1)]
}

/// Bilinear interpolation of `a` (top left), `b` (top right), `c`
/// (bottom left) and `d` (bottom right) at (`dx`, `dy`) within an
/// `sx` x `sy` cell, divisions rounding toward zero.
pub open spec fn bilerp(a: int, b: int, c: int, d: int, dx: int, dy: int, sx: int, sy: int) -> int {
    let top = a * sx + dx * (b - a);
    let bottom = c * sx + dx * (d - c);
    tdiv(top + tdiv(dy * (bottom - top), sy), sx)
}

/// The geometry of output block (`bx`, `by`): its corner, whether it
/// lies on the border (and its cost factor), and the part of it that is
/// costed.
pub open spec fn recalc_block(opts: AnalyseOpts, bx: int, by: int) -> (int, int, int, int, int, int, int) {
    let (bw, bh, ox, oy) = output_dims(opts);
    let (gw, gh) = opts.grid_spec(bw, bh, ox, oy);
    let sx = max_i(bw - ox, 1);
    let sy = max_i(bh - oy, 1);
    let px = bx * sx;
    let py = by * sy;
    let border = bx == 0 || by == 0 || bx == gw - 1 || by == gh - 1;
    let factor = if border && bw > 4 { 3int } else { 1int };
    let ebw = if factor == 3 { tdiv(bw, 2) } else { bw };
    let ebh = if factor == 3 { tdiv(bh, 2) } else { bh };
    let epx = px + if factor == 3 { tdiv(bw, 4) } else { 0 };
    let epy = py + if factor == 3 { tdiv(bh, 4) } else { 0 };
    (px, py, factor, epx, epy, ebw, ebh)
}

/// The output block size and overlap (see `AnalyseOpts::output_block`).
pub open spec fn output_dims(opts: AnalyseOpts) -> (int, int, int, int) {
    if opts.refine_thsad is Some {
        (
            max_i(tdiv(opts.block_w as int, 2), 4),
            max_i(tdiv(opts.block_h as int, 2), 4),
            max_i(tdiv(opts.overlap_x as int, 2), 0),
            max_i(tdiv(opts.overlap_y as int, 2), 0),
        )
    } else {
        (opts.block_w as int, opts.block_h as int, opts.overlap_x as int, opts.overlap_y as int)
    }
}

/// The interpolated vector and cost of output block (`bx`, `by`) from
/// the `ogw` x `ogh` field of the options' blocks.
pub open spec fn recalc_parent(opts: AnalyseOpts, field: Seq<Vec8>, ogw: int, ogh: int, bx: int, by: int) -> ((i32, i32), int) {
    let (bw, bh, ox, oy) = output_dims(opts);
    let obw = opts.block_w as int;
    let obh = opts.block_h as int;
    let osx = max_i(obw - opts.overlap_x, 1);
    let osy = max_i(obh - opts.overlap_y, 1);
    let sx = max_i(bw - ox, 1);
    let sy = max_i(bh - oy, 1);
    let cx = tdiv(bw, 2) + sx * bx;
    let cy = tdiv(bh, 2) + sy * by;
    let ox_ = tdiv(cx - tdiv(obw, 2), osx);
    let oy_ = tdiv(cy - tdiv(obh, 2), osy);
    let dx = max_i(cx - (tdiv(obw, 2) + osx * ox_), 0);
    let dy = max_i(cy - (tdiv(obh, 2) + osy * oy_), 0);
    let p00 = parent_at(field, ogw, ogh, ox_, oy_);
    let p10 = parent_at(field, ogw, ogh, ox_ + 1, oy_);
    let p01 = parent_at(field, ogw, ogh, ox_, oy_ + 1);
    let p11 = parent_at(field, ogw, ogh, ox_ + 1, oy_ + 1);
    let mvx = bilerp(p00.dx as int, p10.dx as int, p01.dx as int, p11.dx as int, dx, dy, osx, osy);
    let mvy = bilerp(p00.dy as int, p10.dy as int, p01.dy as int, p11.dy as int, dx, dy, osx, osy);
    let sad = tdiv(bilerp(p00.score as int, p10.score as int, p01.score as int, p11.score as int, dx, dy, osx, osy) * (bw * bh), obw * obh);
    ((mvx as i32, mvy as i32), sad)
}

/// The search context of output block (`bx`, `by`).
pub open spec fn recalc_search<'a>(src: &'a SuperPlanes<'a>, refp: &'a SuperPlanes<'a>, opts: AnalyseOpts, field: Seq<Vec8>, ogw: int, ogh: int, bx: int, by: int) -> BlockSearch<'a> {
    let (px, py, factor, epx, epy, ebw, ebh) = recalc_block(opts, bx, by);
    let pel = max_i(opts.pel as int, 1);
    let b = mv_bounds_spec(epx, epy, ebw, ebh, level_w(src, 0), level_h(src, 0), pel);
    let bounds = (b.0 as i32, b.1 as i32, b.2 as i32, b.3 as i32);
    let (mv, _) = recalc_parent(opts, field, ogw, ogh, bx, by);
    BlockSearch {
        src,
        refp,
        level: 0,
        px: epx as i32,
        py: epy as i32,
        bw: ebw as i32,
        bh: ebh as i32,
        pel: pel as i32,
        satd: opts.refine_satd,
        predictor: clip_spec(mv, bounds),
        bounds,
        lambda: (if by == 0 { 0 } else { tdiv((opts.lambda as int) / 4, factor) }) as i32,
        pnew: tdiv(opts.pnew as int, factor) as i32,
    }
}

/// Output block (`bx`, `by`) of the refinement pass: the interpolated
/// vector, clipped, with the interpolated cost; when that cost is above
/// the threshold (divided by the border factor), the block's cost at the
/// vector, refined by the refinement search. The cost is multiplied by
/// the border factor (saturated); the mean luma is that of the block.
pub open spec fn recalc_entry<'a>(src: &'a SuperPlanes<'a>, refp: &'a SuperPlanes<'a>, opts: AnalyseOpts, thsad: int, field: Seq<Vec8>, ogw: int, ogh: int, bx: int, by: int) -> Vec8 {
    let (px, py, factor, epx, epy, ebw, ebh) = recalc_block(opts, bx, by);
    let (bw, bh, ox, oy) = output_dims(opts);
    let s = recalc_search(src, refp, opts, field, ogw, ogh, bx, by);
    let (_, parent_sad) = recalc_parent(opts, field, ogw, ogh, bx, by);
    let start = SearchBest {
        mv: s.predictor,
        sad: clamp(parent_sad, 0, u32::MAX as int) as u32,
        cost: max_i(parent_sad, 0) as i64,
    };
    let best = if parent_sad > tdiv(thsad, factor) {
        let sad = sad_of(s, s.predictor);
        refine_spec(s, SearchBest { mv: s.predictor, sad: sad as u32, cost: sad as i64 }, opts.refine_search_type as int,
            if opts.refine_distance < 0 { -opts.refine_distance } else { opts.refine_distance as int })
    } else {
        start
    };
    Vec8 {
        dx: best.mv.0 as i16,
        dy: best.mv.1 as i16,
        score: min_i(best.sad * factor, u32::MAX as int) as u32,
        luma: luma_dc_spec(src, 0, px, py, bw, bh) as u8,
    }
}


/// What the refinement pass needs to stay in range: planes of a super
/// clip of at least 2 x 2 (at most `2^16` a side, as its handle holds
/// them), a frame of at most `0xFF00` a side (so that the costed part of
/// a border block keeps its corner within the clip's 16-bit coordinates),
/// blocks 4 to 32 wide and at most 1024 high with overlaps of at most
/// half a block, a pel of 1 to 4, bounded penalties and distance, a lambda
/// within `2^27` (its quarter then keeps the distance penalty over bounds
/// of up to `2^18` a side within `i64`), and a whole parent field of at
/// least one block whose indices `i32` holds.
pub open spec fn recalc_ok(src: &SuperPlanes, opts: AnalyseOpts, field_len: int, ogw: int, ogh: int) -> bool {
    &&& src.small() && 2 <= src.luma_w && 2 <= src.luma_h
    &&& 1 <= opts.width <= 0xFF00 && 1 <= opts.height <= 0xFF00
    &&& 4 <= opts.block_w <= 32 && 1 <= opts.block_h <= 0x400
    &&& 0 <= opts.overlap_x <= opts.block_w / 2 && 0 <= opts.overlap_y <= opts.block_h / 2
    &&& 1 <= opts.pel <= 4
    &&& -0x1000 <= opts.refine_distance <= 0x1000
    &&& -0x100000 <= opts.pnew <= 0x100000
    &&& -0x8000000 <= opts.lambda <= 0x8000000
    &&& 1 <= ogw && 1 <= ogh && ogw * ogh <= i32::MAX
    &&& field_len == ogw * ogh
}

/// The option part of `recalc_ok`.
pub open spec fn recalc_ok_opts(opts: AnalyseOpts, field_len: int, ogw: int, ogh: int) -> bool {
    &&& 1 <= opts.width <= 0xFF00 && 1 <= opts.height <= 0xFF00
    &&& 4 <= opts.block_w <= 32 && 1 <= opts.block_h <= 0x400
    &&& 0 <= opts.overlap_x <= opts.block_w / 2 && 0 <= opts.overlap_y <= opts.block_h / 2
    &&& 1 <= ogw && 1 <= ogh && ogw * ogh <= i32::MAX
    &&& field_len == ogw * ogh
}

/// A coordinate less its rounded-toward-zero cell start lies inside the
/// cell (or before it, where it counts as 0).
proof fn lemma_delta_small(c: int, s: int)
    requires
        s >= 1,
    ensures
        0 <= max_i(c - s * tdiv(c, s), 0) < s,
        c >= 0 ==> 0 <= tdiv(c, s) <= c,
        c < 0 ==> c <= tdiv(c, s) <= 0,
{
    if c >= 0 {
        assert(tdiv(c, s) == c / s);
        vstd::arithmetic::div_mod::lemma_fundamental_div_mod(c, s);
        assert(c / s <= c) by (nonlinear_arith)
            requires
                s >= 1,
                c >= 0,
                c == s * (c / s) + c % s,
                c % s >= 0,
        ;
    } else {
        assert(tdiv(c, s) == -((-c) / s));
        vstd::arithmetic::div_mod::lemma_fundamental_div_mod(-c, s);
        assert((-c) / s <= -c) by (nonlinear_arith)
            requires
                s >= 1,
                -c > 0,
                -c == s * ((-c) / s) + (-c) % s,
                (-c) % s >= 0,
        ;
        assert(c - s * tdiv(c, s) == -((-c) % s)) by (nonlinear_arith)
            requires
                tdiv(c, s) == -((-c) / s),
                -c == s * ((-c) / s) + (-c) % s,
        ;
    }
}

/// Division rounding toward zero never grows a value.
proof fn lemma_tdiv_shrinks(x: int, d: int)
    requires
        d >= 1,
    ensures
        x >= 0 ==> 0 <= tdiv(x, d) <= x,
        x < 0 ==> x <= tdiv(x, d) <= 0,
{
    if x >= 0 {
        crate::arith::lemma_div_shrinks(x, d);
    } else {
        crate::arith::lemma_div_shrinks(-x, d);
    }
}

/// A fraction `dy / sy` (at most 1) of `y`, rounded toward zero, is at
/// most `y` in size.
proof fn lemma_scaled_tdiv(y: int, dy: int, sy: int)
    requires
        0 <= dy <= sy,
        sy >= 1,
    ensures
        y >= 0 ==> 0 <= tdiv(dy * y, sy) <= y,
        y < 0 ==> y <= tdiv(dy * y, sy) <= 0,
{
    let m = if y >= 0 { y } else { -y };
    assert(0 <= dy * m <= sy * m) by (nonlinear_arith)
        requires
            0 <= dy <= sy,
            m >= 0,
    ;
    vstd::arithmetic::div_mod::lemma_div_is_ordered(dy * m, sy * m, sy);
    vstd::arithmetic::div_mod::lemma_div_multiples_vanish_fancy(m, 0, sy);
    assert(sy * m + 0 == sy * m);
    vstd::arithmetic::div_mod::lemma_div_pos_is_pos(dy * m, sy);
    if y < 0 {
        assert(dy * y == -(dy * m)) by (nonlinear_arith)
            requires
                m == -y,
        ;
    }
}

/// Bilinear interpolation in `i64` (see `bilerp`).
fn bilerp_exec(a: i64, b: i64, c: i64, d: i64, dx: i64, dy: i64, sx: i64, sy: i64) -> (r: i64)
    requires
        -0x100000000 <= a <= 0x100000000 && -0x100000000 <= b <= 0x100000000,
        -0x100000000 <= c <= 0x100000000 && -0x100000000 <= d <= 0x100000000,
        0 <= dx < sx <= 64,
        0 <= dy < sy <= 0x400,
    ensures
        r == bilerp(a as int, b as int, c as int, d as int, dx as int, dy as int, sx as int, sy as int),
        -0x100000000000 <= r <= 0x100000000000,
{
    proof {
        assert(forall|u: int, v: int| -0x200000000 <= u <= 0x200000000 && 0 <= v <= 64 ==> -0x8000000000 <= #[trigger] (u * v) <= 0x8000000000) by (nonlinear_arith);
        assert(-0x8000000000 <= a * sx <= 0x8000000000);
        assert(-0x8000000000 <= (b - a) * dx <= 0x8000000000);
        assert((b - a) * dx == dx * (b - a)) by (nonlinear_arith);
        assert(-0x8000000000 <= c * sx <= 0x8000000000);
        assert(-0x8000000000 <= (d - c) * dx <= 0x8000000000);
        assert((d - c) * dx == dx * (d - c)) by (nonlinear_arith);
    }
    let top = a * sx + dx * (b - a);
    let bottom = c * sx + dx * (d - c);
    proof {
        assert(-0x80000000000000 <= dy * (bottom - top) <= 0x80000000000000) by (nonlinear_arith)
            requires
                0 <= dy <= 0x400,
                -0x20000000000 <= bottom - top <= 0x20000000000,
        ;
    }
    let u = crate::arith::div_i64(dy * (bottom - top), sy);
    proof {
        lemma_scaled_tdiv(bottom - top, dy as int, sy as int);
    }
    let r = crate::arith::div_i64(top + u, sx);
    proof {
        lemma_tdiv_shrinks(top + u, sx as int);
    }
    r
}


/// The grid of the output blocks stays inside the frame.
proof fn lemma_grid_span(opts: AnalyseOpts, bw: int, bh: int, ox: int, oy: int, bx: int, by: int)
    requires
        1 <= opts.width <= 0xFF00 && 1 <= opts.height <= 0xFF00,
        4 <= bw <= 16 && 4 <= bh <= 0x200,
        0 <= ox <= 8 && 0 <= oy <= 0x100,
        0 <= bx < opts.grid_spec(bw, bh, ox, oy).0,
        0 <= by < opts.grid_spec(bw, bh, ox, oy).1,
    ensures
        0 <= bx * max_i(bw - ox, 1) <= 0xFF00,
        0 <= by * max_i(bh - oy, 1) <= 0xFF00,
        1 <= opts.grid_spec(bw, bh, ox, oy).0 <= 0xFF00,
        1 <= opts.grid_spec(bw, bh, ox, oy).1 <= 0xFF00,
{
    let sx = max_i(bw - ox, 1);
    let sy = max_i(bh - oy, 1);
    lemma_delta_small(opts.width - ox, sx);
    lemma_delta_small(opts.height - oy, sy);
    let qx = tdiv(opts.width - ox, sx);
    let qy = tdiv(opts.height - oy, sy);
    if opts.width - ox >= 0 {
        vstd::arithmetic::div_mod::lemma_fundamental_div_mod(opts.width - ox, sx);
        assert(qx == (opts.width - ox) / sx);
    }
    if opts.height - oy >= 0 {
        vstd::arithmetic::div_mod::lemma_fundamental_div_mod(opts.height - oy, sy);
        assert(qy == (opts.height - oy) / sy);
    }
    assert(0 <= bx * sx <= 0xFF00) by (nonlinear_arith)
        requires
            0 <= bx < max_i(qx, 1),
            sx >= 1,
            opts.width - ox >= 0 ==> sx * qx <= opts.width - ox,
            opts.width - ox < 0 ==> qx <= 0,
            opts.width <= 0xFF00,
            ox >= 0,
            sx <= 0xFF00,
    ;
    assert(0 <= by * sy <= 0xFF00) by (nonlinear_arith)
        requires
            0 <= by < max_i(qy, 1),
            sy >= 1,
            opts.height - oy >= 0 ==> sy * qy <= opts.height - oy,
            opts.height - oy < 0 ==> qy <= 0,
            opts.height <= 0xFF00,
            oy >= 0,
            sy <= 0xFF00,
    ;
}

/// The interpolated vector and cost of output block (`bx`, `by`) (see
/// `recalc_parent`).
#[verifier::rlimit(60)]
#[verifier::spinoff_prover]
fn recalc_parent_at(opts: &AnalyseOpts, field: &Vec<Vec8>, ogw: i32, ogh: i32, bx: i32, by: i32) -> (r: ((i32, i32), i64))
    requires
        recalc_ok_opts(*opts, field@.len() as int, ogw as int, ogh as int),
        opts.refine_thsad is Some,
        0 <= bx < opts.grid_spec(output_dims(*opts).0, output_dims(*opts).1, output_dims(*opts).2, output_dims(*opts).3).0,
        0 <= by < opts.grid_spec(output_dims(*opts).0, output_dims(*opts).1, output_dims(*opts).2, output_dims(*opts).3).1,
    ensures
        (r.0, r.1 as int) == recalc_parent(*opts, field@, ogw as int, ogh as int, bx as int, by as int),
{
    let (bw, bh, ox, oy) = opts.output_block();
    proof {
        lemma_grid_span(*opts, bw as int, bh as int, ox as int, oy as int, bx as int, by as int);
    }
    let (gw, gh) = opts.grid(bw, bh, ox, oy);
    let obw = opts.block_w;
    let obh = opts.block_h;
    let osx = if obw - opts.overlap_x < 1 { 1 } else { obw - opts.overlap_x };
    let osy = if obh - opts.overlap_y < 1 { 1 } else { obh - opts.overlap_y };
    let sx = if bw - ox < 1 { 1 } else { bw - ox };
    let sy = if bh - oy < 1 { 1 } else { bh - oy };
    proof {
        assert(sx * bx == bx * sx && sy * by == by * sy) by (nonlinear_arith);
    }
    let cx = bw / 2 + sx * bx;
    let cy = bh / 2 + sy * by;
    let old_x = crate::arith::div_i32(cx - obw / 2, osx);
    let old_y = crate::arith::div_i32(cy - obh / 2, osy);
    proof {
        lemma_delta_small(cx - obw / 2, osx as int);
        lemma_delta_small(cy - obh / 2, osy as int);
        assert(-0x10000 <= osx * old_x <= 0x10000) by (nonlinear_arith)
            requires
                1 <= osx <= 32,
                -0x10000 <= cx - obw / 2 <= 0x10000,
                cx - obw / 2 >= 0 ==> 0 <= old_x <= cx - obw / 2,
                cx - obw / 2 < 0 ==> cx - obw / 2 <= old_x <= 0,
                old_x == tdiv(cx - obw / 2, osx as int),
                -0x10000 <= osx * old_x + (cx - obw / 2 - osx * old_x) <= 0x10000,
        {
            vstd::arithmetic::div_mod::lemma_fundamental_div_mod(if cx - obw / 2 >= 0 { cx - obw / 2 } else { -(cx - obw / 2) }, osx as int);
        }
        assert(-0x10000 <= osy * old_y <= 0x10000) by (nonlinear_arith)
            requires
                1 <= osy <= 0x400,
                -0x10000 <= cy - obh / 2 <= 0x10000,
                cy - obh / 2 >= 0 ==> 0 <= old_y <= cy - obh / 2,
                cy - obh / 2 < 0 ==> cy - obh / 2 <= old_y <= 0,
                old_y == tdiv(cy - obh / 2, osy as int),
        {
            vstd::arithmetic::div_mod::lemma_fundamental_div_mod(if cy - obh / 2 >= 0 { cy - obh / 2 } else { -(cy - obh / 2) }, osy as int);
        }
    }
    let ddx = cx - (obw / 2 + osx * old_x);
    let ddy = cy - (obh / 2 + osy * old_y);
    let dx = if ddx < 0 { 0 } else { ddx };
    let dy = if ddy < 0 { 0 } else { ddy };
    let x0 = if old_x < 0 { 0 } else if old_x > ogw - 1 { ogw - 1 } else { old_x };
    let x1 = if old_x + 1 < 0 { 0 } else if old_x + 1 > ogw - 1 { ogw - 1 } else { old_x + 1 };
    let y0 = if old_y < 0 { 0 } else if old_y > ogh - 1 { ogh - 1 } else { old_y };
    let y1 = if old_y + 1 < 0 { 0 } else if old_y + 1 > ogh - 1 { ogh - 1 } else { old_y + 1 };
    proof {
        crate::order_refine::lemma_cell_fits(x0 as int, y0 as int, ogw as int, ogh as int);
        crate::order_refine::lemma_cell_fits(x1 as int, y0 as int, ogw as int, ogh as int);
        crate::order_refine::lemma_cell_fits(x0 as int, y1 as int, ogw as int, ogh as int);
        crate::order_refine::lemma_cell_fits(x1 as int, y1 as int, ogw as int, ogh as int);
    }
    let p00 = field[(y0 * ogw + x0) as usize];
    let p10 = field[(y0 * ogw + x1) as usize];
    let p01 = field[(y1 * ogw + x0) as usize];
    let p11 = field[(y1 * ogw + x1) as usize];
    let mvx = bilerp_exec(p00.dx as i64, p10.dx as i64, p01.dx as i64, p11.dx as i64, dx as i64, dy as i64, osx as i64, osy as i64);
    let mvy = bilerp_exec(p00.dy as i64, p10.dy as i64, p01.dy as i64, p11.dy as i64, dx as i64, dy as i64, osx as i64, osy as i64);
    let ssum = bilerp_exec(p00.score as i64, p10.score as i64, p01.score as i64, p11.score as i64, dx as i64, dy as i64, osx as i64, osy as i64);
    proof {
        assert(0 < bw * bh <= 0x2000) by (nonlinear_arith)
            requires
                4 <= bw <= 16,
                4 <= bh <= 0x200,
        ;
        assert(0 < obw * obh <= 0x8000) by (nonlinear_arith)
            requires
                4 <= obw <= 32,
                1 <= obh <= 0x400,
        ;
        assert(-0x100000000000 * 0x2000 <= ssum * (bw * bh) <= 0x100000000000 * 0x2000) by (nonlinear_arith)
            requires
                -0x100000000000 <= ssum <= 0x100000000000,
                0 < bw * bh <= 0x2000,
        ;
    }
    let parent_sad = crate::arith::div_i64(ssum * (bw * bh) as i64, (obw * obh) as i64);
    let ghost parent = recalc_parent(*opts, field@, ogw as int, ogh as int, bx as int, by as int);
    ((#[verifier::truncate] (mvx as i32), #[verifier::truncate] (mvy as i32)), parent_sad)
}

/// The geometry of output block (`bx`, `by`) (see `recalc_block`).
fn recalc_geometry(opts: &AnalyseOpts, bx: i32, by: i32) -> (r: (i32, i32, i32, i32, i32, i32, i32))
    requires
        recalc_ok_opts(*opts, 1, 1, 1),
        opts.refine_thsad is Some,
        0 <= bx < opts.grid_spec(output_dims(*opts).0, output_dims(*opts).1, output_dims(*opts).2, output_dims(*opts).3).0,
        0 <= by < opts.grid_spec(output_dims(*opts).0, output_dims(*opts).1, output_dims(*opts).2, output_dims(*opts).3).1,
    ensures
        (r.0 as int, r.1 as int, r.2 as int, r.3 as int, r.4 as int, r.5 as int, r.6 as int) == recalc_block(*opts, bx as int, by as int),
        0 <= r.0 <= 0xFF00 && 0 <= r.1 <= 0xFF00,
        r.2 == 1 || r.2 == 3,
        0 <= r.3 <= 0xFF04 && 0 <= r.4 <= 0xFF80,
        2 <= r.5 <= 16 && 2 <= r.6 <= 0x200,
        4 <= output_dims(*opts).0 <= 16 && 4 <= output_dims(*opts).1 <= 0x200,
{
    let (bw, bh, ox, oy) = opts.output_block();
    proof {
        lemma_grid_span(*opts, bw as int, bh as int, ox as int, oy as int, bx as int, by as int);
    }
    let (gw, gh) = opts.grid(bw, bh, ox, oy);
    let sx = if bw - ox < 1 { 1 } else { bw - ox };
    let sy = if bh - oy < 1 { 1 } else { bh - oy };
    let px = bx * sx;
    let py = by * sy;
    let border = bx == 0 || by == 0 || bx == gw - 1 || by == gh - 1;
    let factor: i32 = if border && bw > 4 { 3 } else { 1 };
    let ebw = if factor == 3 { bw / 2 } else { bw };
    let ebh = if factor == 3 { bh / 2 } else { bh };
    let epx = px + if factor == 3 { bw / 4 } else { 0 };
    let epy = py + if factor == 3 { bh / 4 } else { 0 };
    (px, py, factor, epx, epy, ebw, ebh)
}

/// A lambda of at most `2^25` either way leaves room for the distance
/// penalty over bounds of up to `2^18` a side.
proof fn lemma_recalc_room(lambda: int, b: (i32, i32, i32, i32))
    requires
        -0x2000000 <= lambda <= 0x2000000,
        0 <= b.2 - b.0 <= 0x40000 && 0 <= b.3 - b.1 <= 0x40000,
    ensures
        crate::block_search::penalty_room(lambda, b),
{
    let w = b.2 - b.0;
    let h = b.3 - b.1;
    assert(0 <= w * w + h * h <= 0x2000000000) by (nonlinear_arith)
        requires
            0 <= w <= 0x40000,
            0 <= h <= 0x40000,
    ;
    let big = w * w + h * h;
    assert(-0x4000000000000000 <= lambda * big <= 0x4000000000000000) by (nonlinear_arith)
        requires
            0 <= big <= 0x2000000000,
            -0x2000000 <= lambda <= 0x2000000,
    ;
}

/// The search context of output block (`bx`, `by`) around `mv` (see
/// `recalc_search`).
#[verifier::rlimit(40)]
fn recalc_context<'a>(
    src: &'a SuperPlanes<'a>,
    refp: &'a SuperPlanes<'a>,
    opts: &AnalyseOpts,
    field: &Vec<Vec8>,
    ogw: i32,
    ogh: i32,
    bx: i32,
    by: i32,
    mv: (i32, i32),
    g: (i32, i32, i32, i32, i32, i32, i32),
) -> (r: BlockSearch<'a>)
    requires
        recalc_ok(src, *opts, field@.len() as int, ogw as int, ogh as int),
        opts.refine_thsad is Some,
        (g.0 as int, g.1 as int, g.2 as int, g.3 as int, g.4 as int, g.5 as int, g.6 as int) == recalc_block(*opts, bx as int, by as int),
        g.2 == 1 || g.2 == 3,
        0 <= g.3 <= 0xFF04 && 0 <= g.4 <= 0xFF80,
        2 <= g.5 <= 16 && 2 <= g.6 <= 0x200,
        mv == recalc_parent(*opts, field@, ogw as int, ogh as int, bx as int, by as int).0,
    ensures
        r == recalc_search(src, refp, *opts, field@, ogw as int, ogh as int, bx as int, by as int),
        search_ok(r),
{
    let (_, _, factor, epx, epy, ebw, ebh) = g;
    let pel = if opts.pel < 1 { 1 } else { opts.pel };
    proof {
        crate::super_build::lemma_reduce_bounds(src.luma_w as int, 0);
        crate::super_build::lemma_reduce_bounds(src.luma_h as int, 0);
        crate::block_cost::lemma_edge_fits(epx as int, epy as int, 0, 0, ebw as int, ebh as int, src.luma_w as int, src.luma_h as int, pel as int);
    }
    let (lw, lh) = src.level_size(0);
    proof {
        assert(lw == src.luma_w && lh == src.luma_h);
        let rx = lw - epx - ebw;
        let ry = lh - epy - ebh;
        let rxp = if rx < 0 { 0 } else { rx };
        let ryp = if ry < 0 { 0 } else { ry };
        assert(0 <= pel * epx <= 0x40000 && 0 <= pel * epy <= 0x40000 && 0 <= pel * rxp <= 0x40000 && 0 <= pel * ryp <= 0x40000) by (nonlinear_arith)
            requires
                1 <= pel <= 4,
                0 <= epx <= 0x10000,
                0 <= epy <= 0x10000,
                0 <= rxp <= 0x10000,
                0 <= ryp <= 0x10000,
        ;
        assert(-pel * epx == -(pel * epx) && -pel * epy == -(pel * epy)) by (nonlinear_arith);
        assert(rxp + epx <= 0x10000 && ryp + epy <= 0x10000);
        assert(pel * rxp + pel * epx <= 0x40000 && pel * ryp + pel * epy <= 0x40000) by (nonlinear_arith)
            requires
                1 <= pel <= 4,
                0 <= rxp,
                0 <= epx,
                0 <= ryp,
                0 <= epy,
                rxp + epx <= 0x10000,
                ryp + epy <= 0x10000,
        ;
        lemma_tdiv_shrinks(opts.lambda as int / 4, factor as int);
        lemma_tdiv_shrinks(opts.pnew as int, factor as int);
        crate::arith::lemma_shr2_floor(opts.lambda);
    }
    let bounds = mv_bounds(epx, epy, ebw, ebh, lw as i32, lh as i32, pel);
    let predictor = exact_clip(mv, bounds);
    let lambda = if by == 0 { 0 } else { crate::arith::div_i32(opts.lambda >> 2u32, factor) };
    proof {
        lemma_recalc_room(lambda as int, bounds);
    }
    BlockSearch {
        src,
        refp,
        level: 0,
        px: epx,
        py: epy,
        bw: ebw,
        bh: ebh,
        pel,
        satd: opts.refine_satd,
        predictor,
        bounds,
        lambda,
        pnew: crate::arith::div_i32(opts.pnew, factor),
    }
}

/// Output block (`bx`, `by`) of the refinement pass (see `recalc_entry`).
fn recalc_at<'a>(
    src: &'a SuperPlanes<'a>,
    refp: &'a SuperPlanes<'a>,
    opts: &AnalyseOpts,
    thsad: i32,
    field: &Vec<Vec8>,
    ogw: i32,
    ogh: i32,
    bx: i32,
    by: i32,
) -> (r: Vec8)
    requires
        recalc_ok(src, *opts, field@.len() as int, ogw as int, ogh as int),
        opts.refine_thsad is Some,
        0 <= bx < opts.grid_spec(output_dims(*opts).0, output_dims(*opts).1, output_dims(*opts).2, output_dims(*opts).3).0,
        0 <= by < opts.grid_spec(output_dims(*opts).0, output_dims(*opts).1, output_dims(*opts).2, output_dims(*opts).3).1,
    ensures
        r == recalc_entry(src, refp, *opts, thsad as int, field@, ogw as int, ogh as int, bx as int, by as int),
{
    let (mv, parent_sad) = recalc_parent_at(opts, field, ogw, ogh, bx, by);
    let g = recalc_geometry(opts, bx, by);
    let (px, py, factor, epx, epy, ebw, ebh) = g;
    let s = recalc_context(src, refp, opts, field, ogw, ogh, bx, by, mv, g);
    let mut best = SearchBest {
        mv: s.predictor,
        sad: if parent_sad < 0 { 0 } else if parent_sad > u32::MAX as i64 { u32::MAX } else { parent_sad as u32 },
        cost: if parent_sad < 0 { 0 } else { parent_sad },
    };
    let threshold = crate::arith::div_i32(thsad, factor);
    if parent_sad > threshold as i64 {
        proof {
            reveal(sad_of);
            crate::block_search::lemma_clip_near(s, mv);
        }
        let sad = exact_sad(src, refp, 0, epx, epy, ebw, ebh, s.predictor, opts.refine_satd, s.pel);
        best.sad = sad;
        best.cost = sad as i64;
        let radius = if opts.refine_distance < 0 { -opts.refine_distance } else { opts.refine_distance };
        exact_refine_search(&s, opts.refine_search_type, radius, &mut best);
    }
    assert(factor == 1 || factor == 3);
    let f: u32 = if factor == 3 { 3 } else { 1 };
    let score = if best.sad as u64 * f as u64 > u32::MAX as u64 { u32::MAX } else { best.sad * f };
    let (bw, bh, _, _) = opts.output_block();
    proof {
        assert(bw * bh <= 0x1010101) by (nonlinear_arith)
            requires
                0 <= bw <= 32,
                0 <= bh <= 0x400,
        ;
    }
    let luma = block_luma_dc(src, 0, px, py, bw, bh);
    Vec8 { dx: best.mv.0 as i16, dy: best.mv.1 as i16, score, luma }
}

/// The refinement pass over the output grid (see `recalc_entry`); without
/// a refinement threshold the field is kept. Blocks do not depend on one
/// another, so they are taken row by row.
pub fn exact_recalculate<'a>(
    src: &'a SuperPlanes<'a>,
    refp: &'a SuperPlanes<'a>,
    opts: &AnalyseOpts,
    field: Vec<Vec8>,
    old_gw: i32,
    old_gh: i32,
) -> (r: Vec<Vec8>)
    requires
        recalc_ok(src, *opts, field@.len() as int, old_gw as int, old_gh as int),
    ensures
        opts.refine_thsad is None ==> r@ == field@,
        opts.refine_thsad matches Some(th) ==> ({
            let (gw, gh) = opts.grid_spec(output_dims(*opts).0, output_dims(*opts).1, output_dims(*opts).2, output_dims(*opts).3);
            &&& r@.len() == gw * gh
            &&& forall|y: int, x: int| 0 <= y < gh && 0 <= x < gw ==>
                #[trigger] r@[y * gw + x] == recalc_entry(src, refp, *opts, th as int, field@, old_gw as int, old_gh as int, x, y)
        }),
{
    let thsad = match opts.refine_thsad {
        Some(t) => t,
        None => return field,
    };
    let (bw, bh, ox, oy) = opts.output_block();
    proof {
        lemma_grid_span(*opts, bw as int, bh as int, ox as int, oy as int, 0, 0);
    }
    let (gw, gh) = opts.grid(bw, bh, ox, oy);
    let mut out: Vec<Vec8> = Vec::new();
    let mut by: i32 = 0;
    while by < gh
        invariant
            0 <= by <= gh,
            1 <= gw <= 0xFF00 && 1 <= gh <= 0xFF00,
            (gw as int, gh as int) == opts.grid_spec(output_dims(*opts).0, output_dims(*opts).1, output_dims(*opts).2, output_dims(*opts).3),
            opts.refine_thsad == Some(thsad),
            recalc_ok(src, *opts, field@.len() as int, old_gw as int, old_gh as int),
            out@.len() == by * gw,
            forall|y: int, x: int| 0 <= y < by && 0 <= x < gw ==>
                #[trigger] out@[y * gw + x] == recalc_entry(src, refp, *opts, thsad as int, field@, old_gw as int, old_gh as int, x, y),
        decreases gh - by,
    {
        let mut bx: i32 = 0;
        while bx < gw
            invariant
                0 <= bx <= gw,
                0 <= by < gh,
                1 <= gw <= 0xFF00 && 1 <= gh <= 0xFF00,
                (gw as int, gh as int) == opts.grid_spec(output_dims(*opts).0, output_dims(*opts).1, output_dims(*opts).2, output_dims(*opts).3),
                opts.refine_thsad == Some(thsad),
                recalc_ok(src, *opts, field@.len() as int, old_gw as int, old_gh as int),
                out@.len() == by * gw + bx,
                forall|y: int, x: int| 0 <= y < by && 0 <= x < gw ==>
                    #[trigger] out@[y * gw + x] == recalc_entry(src, refp, *opts, thsad as int, field@, old_gw as int, old_gh as int, x, y),
                forall|x: int| 0 <= x < bx ==>
                    #[trigger] out@[by * gw + x] == recalc_entry(src, refp, *opts, thsad as int, field@, old_gw as int, old_gh as int, x, by as int),
            decreases gw - bx,
        {
            let e = recalc_at(src, refp, opts, thsad, &field, old_gw, old_gh, bx, by);
            let ghost before = out@;
            out.push(e);
            proof {
                assert forall|y: int, x: int| 0 <= y < by && 0 <= x < gw implies
                    #[trigger] out@[y * gw + x] == recalc_entry(src, refp, *opts, thsad as int, field@, old_gw as int, old_gh as int, x, y) by {
                    assert(y * gw + x < by * gw) by (nonlinear_arith)
                        requires
                            0 <= y < by,
                            0 <= x < gw,
                    ;
                    assert(out@[y * gw + x] == before[y * gw + x]);
                }
            }
            bx = bx + 1;
        }
        proof {
            assert forall|y: int, x: int| 0 <= y < by + 1 && 0 <= x < gw implies
                #[trigger] out@[y * gw + x] == recalc_entry(src, refp, *opts, thsad as int, field@, old_gw as int, old_gh as int, x, y) by {
                if y == by {
                    assert(out@[by * gw + x] == recalc_entry(src, refp, *opts, thsad as int, field@, old_gw as int, old_gh as int, x, by as int));
                }
            }
            assert(out@.len() == (by + 1) * gw) by (nonlinear_arith)
                requires
                    out@.len() == by * gw + gw,
            ;
        }
        by = by + 1;
    }
    assert(gh * gw == gw * gh) by (nonlinear_arith);
    out
}

} // verus!
