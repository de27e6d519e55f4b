//! Operations on whole vector fields between the levels of the search:
//! carrying a coarse level's field down to the next finer grid.
use vstd::prelude::*;
use crate::analyse_search::{Vec8, lemma_shr1_floor};
use crate::arith::{clamp, tdiv, lemma_and1_mod2, lemma_shr2_floor};
use crate::analyse_opts::{AnalyseOpts, max0, max1, lemma_shr_range, lemma_span};

verus! {

/// The smaller of `a` and `b`.
pub open spec fn imin(a: int, b: int) -> int {
    if a < b { a } else { b }
}

/// The coarse entry at column `a`, row `b`.
pub open spec fn coarse_at(coarse: Seq<Vec8>, cgw: int, a: int, b: int) -> Vec8 {
    coarse[b * cgw + a]
}

/// The four coarse entries a fine block (`x`, `y`) is interpolated from
/// (its own parent `p`, the horizontal and the vertical neighbour on its
/// side, and the diagonal one; at an edge of the coarse grid they fall
/// back to nearer entries), with the side signs.
pub open spec fn interp_pick(coarse: Seq<Vec8>, cgw: int, cgh: int, x: int, y: int) -> (Vec8, Vec8, Vec8, Vec8, int, int) {
    let ix = imin(x, 2 * cgw - 1);
    let iy = imin(y, 2 * cgh - 1);
    let sx = if ix % 2 == 1 { 1int } else { -1int };
    let sy = if iy % 2 == 1 { 1int } else { -1int };
    let cx = ix / 2;
    let cy = iy / 2;
    let ex = ix == 0 || ix >= 2 * cgw - 1;
    let ey = iy == 0 || iy >= 2 * cgh - 1;
    let p = coarse_at(coarse, cgw, cx, cy);
    let qx0 = if ex { p } else { coarse_at(coarse, cgw, cx + sx, cy) };
    let qy0 = if ey { p } else { coarse_at(coarse, cgw, cx, cy + sy) };
    let qx = if ey && !ex { p } else { qx0 };
    let qy = if ey && !ex { qx0 } else { qy0 };
    let qxy = if ex && ey { p } else if ex || ey { qy } else { coarse_at(coarse, cgw, cx + sx, cy + sy) };
    (p, qx, qy, qxy, sx, sy)
}

/// The weights of the four entries without overlap: 9, 3, 3, 1.
pub open spec fn plain_mix(p: int, qx: int, qy: int, qxy: int) -> int {
    9 * p + 3 * qx + 3 * qy + qxy
}

/// The overlapped weights of the four entries, by the side signs: the
/// products of the horizontal and the vertical shares.
pub open spec fn overlap_weights(sx: int, sy: int, bw: int, bh: int, ox: int, oy: int) -> (int, int, int, int) {
    let ax1 = if sx > 0 { 3 * bw - 2 * ox } else { 3 * bw - 4 * ox };
    let ax2 = 4 * (bw - ox) - ax1;
    let ay1 = if sy > 0 { 3 * bh - 2 * oy } else { 3 * bh - 4 * oy };
    let ay2 = 4 * (bh - oy) - ay1;
    (ax1 * ay1, ax2 * ay1, ax1 * ay2, ax2 * ay2)
}

/// A weighted sum of the four entries' values.
pub open spec fn weighted(w: (int, int, int, int), p: int, qx: int, qy: int, qxy: int) -> int {
    w.0 * p + w.1 * qx + w.2 * qy + w.3 * qxy
}

/// The number of low zero bits of a pel of 1 to 4.
pub open spec fn log_pel(pel: int) -> int {
    if pel == 2 { 1 } else if pel == 4 { 2 } else { 0 }
}

/// `2^k` for `k` of 0 to 3.
pub open spec fn pow2_small(k: int) -> int {
    if k <= 0 { 1 } else if k == 1 { 2 } else if k == 2 { 4 } else { 8 }
}

/// The fine entry (`x`, `y`): the coarse vectors and costs mixed (9:3:3:1
/// without overlap, by the overlapped shares otherwise, divided by the
/// shares' total rounding toward zero), vectors scaled to the fine pel
/// (rounded down) and clamped into `i16`, the cost scaled by 1/16 and
/// saturated; the mean luma is the parent's.
pub open spec fn interp_entry(coarse: Seq<Vec8>, cgw: int, cgh: int, x: int, y: int, bw: int, bh: int, ox: int, oy: int, pel: int) -> Vec8 {
    let (p, qx, qy, qxy, sx, sy) = interp_pick(coarse, cgw, cgh, x, y);
    let normov = if (bw - ox) * (bh - oy) < 1 { 1 } else { (bw - ox) * (bh - oy) };
    let w = overlap_weights(sx, sy, bw, bh, ox, oy);
    let plain = ox == 0 && oy == 0;
    let vx = if plain {
        plain_mix(p.dx as int, qx.dx as int, qy.dx as int, qxy.dx as int)
    } else {
        tdiv(weighted(w, p.dx as int, qx.dx as int, qy.dx as int, qxy.dx as int), normov) as i32 as int
    };
    let vy = if plain {
        plain_mix(p.dy as int, qx.dy as int, qy.dy as int, qxy.dy as int)
    } else {
        tdiv(weighted(w, p.dy as int, qx.dy as int, qy.dy as int, qxy.dy as int), normov) as i32 as int
    };
    let sad = if plain {
        (plain_mix(p.score as int, qx.score as int, qy.score as int, qxy.score as int) + 8) / 16
    } else {
        let sc = tdiv(weighted(w, p.score as int, qx.score as int, qy.score as int, qxy.score as int), normov);
        (if sc < 0 { 0 } else { sc }) / 16
    };
    let scale = pow2_small(3 - log_pel(pel));
    Vec8 {
        dx: clamp(vx / scale, -32768, 32767) as i16,
        dy: clamp(vy / scale, -32768, 32767) as i16,
        score: (if sad > u32::MAX { u32::MAX as int } else { sad }) as u32,
        luma: p.luma,
    }
}

/// What the interpolation needs: a coarse grid of at least one block
/// with its whole field, whose doubled sides and cell indices `i32` holds,
/// a fine grid whose cell indices `i32` holds, block sizes and overlaps of
/// at most 1024, and a pel of 1 to 4.
pub open spec fn interp_ok(coarse_len: int, cgw: int, cgh: int, gw: int, gh: int, bw: int, bh: int, ox: int, oy: int, pel: int) -> bool {
    &&& 1 <= cgw <= 0x3fff_ffff && 1 <= cgh <= 0x3fff_ffff && cgw * cgh <= i32::MAX
    &&& coarse_len >= cgw * cgh
    &&& 0 <= gw && 0 <= gh && gw * gh <= i32::MAX
    &&& -0x400 <= bw <= 0x400 && -0x400 <= bh <= 0x400
    &&& -0x400 <= ox <= 0x400 && -0x400 <= oy <= 0x400
    &&& 1 <= pel <= 4
}

/// `v` shifted right by `norm` (0 to 3): rounded-down division by `2^norm`.
fn shift_down(v: i32, norm: i32) -> (r: i32)
    requires
        0 <= norm <= 3,
    ensures
        r == (v as int) / pow2_small(norm as int),
{
    proof {
        lemma_shr1_floor(v);
        lemma_shr2_floor(v);
        lemma_shr2_floor(v >> 1u32);
    }
    if norm == 1 {
        v >> 1u32
    } else if norm == 2 {
        v >> 2u32
    } else if norm == 3 {
        let h = v >> 1u32;
        proof {
            assert((v as int / 2) / 4 == v as int / 8) by (nonlinear_arith);
        }
        h >> 2u32
    } else {
        v
    }
}

/// The four coarse entries of fine block (`x`, `y`) and the side signs
/// (see `interp_pick`).
fn interp_pick_at(coarse: &[Vec8], cgw: i32, cgh: i32, x: i32, y: i32) -> (r: (Vec8, Vec8, Vec8, Vec8, i32, i32))
    requires
        1 <= cgw <= 0x3fff_ffff && 1 <= cgh <= 0x3fff_ffff && cgw * cgh <= i32::MAX,
        coarse@.len() >= cgw * cgh,
        0 <= x && 0 <= y,
    ensures
        (r.0, r.1, r.2, r.3, r.4 as int, r.5 as int) == interp_pick(coarse@, cgw as int, cgh as int, x as int, y as int),
        r.4 == 1 || r.4 == -1,
        r.5 == 1 || r.5 == -1,
{
    let ix = if x < 2 * cgw - 1 { x } else { 2 * cgw - 1 };
    let iy = if y < 2 * cgh - 1 { y } else { 2 * cgh - 1 };
    proof {
        lemma_and1_mod2(ix);
        lemma_and1_mod2(iy);
    }
    let sx = 2 * (ix & 1) - 1;
    let sy = 2 * (iy & 1) - 1;
    let cx = ix / 2;
    let cy = iy / 2;
    let edge_x = ix == 0 || ix >= 2 * cgw - 1;
    let edge_y = iy == 0 || iy >= 2 * cgh - 1;
    proof {
        crate::order_refine::lemma_cell_fits(cx as int, cy as int, cgw as int, cgh as int);
        if !edge_x {
            crate::order_refine::lemma_cell_fits(cx + sx, cy as int, cgw as int, cgh as int);
        }
        if !edge_y {
            crate::order_refine::lemma_cell_fits(cx as int, cy + sy, cgw as int, cgh as int);
        }
        if !edge_x && !edge_y {
            crate::order_refine::lemma_cell_fits(cx + sx, cy + sy, cgw as int, cgh as int);
        }
    }
    let p = coarse[(cy * cgw + cx) as usize];
    let mut qx = if edge_x { p } else { coarse[(cy * cgw + cx + sx) as usize] };
    let mut qy = if edge_y { p } else { coarse[((cy + sy) * cgw + cx) as usize] };
    if edge_y && !edge_x {
        qy = qx;
        qx = p;
    }
    let qxy = if edge_x && edge_y {
        p
    } else if edge_x {
        qy
    } else if edge_y {
        qy
    } else {
        coarse[((cy + sy) * cgw + cx + sx) as usize]
    };
    (p, qx, qy, qxy, sx, sy)
}

/// `weighted(w, a, b, c, d) / normov`, rounding toward zero, in `i64`.
fn overlap_mix(w: (i64, i64, i64, i64), a: i64, b: i64, c: i64, d: i64, normov: i64) -> (r: i64)
    requires
        -0x10000000 <= w.0 <= 0x10000000 && -0x10000000 <= w.1 <= 0x10000000,
        -0x10000000 <= w.2 <= 0x10000000 && -0x10000000 <= w.3 <= 0x10000000,
        -0x100000000 <= a <= 0x100000000 && -0x100000000 <= b <= 0x100000000,
        -0x100000000 <= c <= 0x100000000 && -0x100000000 <= d <= 0x100000000,
        normov >= 1,
    ensures
        r == tdiv(weighted((w.0 as int, w.1 as int, w.2 as int, w.3 as int), a as int, b as int, c as int, d as int), normov as int),
{
    proof {
        assert(-0x1000000000000000 <= w.0 * a <= 0x1000000000000000) by (nonlinear_arith)
            requires
                -0x10000000 <= w.0 <= 0x10000000,
                -0x100000000 <= a <= 0x100000000,
        ;
        assert(-0x1000000000000000 <= w.1 * b <= 0x1000000000000000) by (nonlinear_arith)
            requires
                -0x10000000 <= w.1 <= 0x10000000,
                -0x100000000 <= b <= 0x100000000,
        ;
        assert(-0x1000000000000000 <= w.2 * c <= 0x1000000000000000) by (nonlinear_arith)
            requires
                -0x10000000 <= w.2 <= 0x10000000,
                -0x100000000 <= c <= 0x100000000,
        ;
        assert(-0x1000000000000000 <= w.3 * d <= 0x1000000000000000) by (nonlinear_arith)
            requires
                -0x10000000 <= w.3 <= 0x10000000,
                -0x100000000 <= d <= 0x100000000,
        ;
    }
    crate::arith::div_i64(w.0 * a + w.1 * b + w.2 * c + w.3 * d, normov)
}

/// The overlapped weights, in `i64` (see `overlap_weights`).
fn weights_at(sx: i32, sy: i32, bw: i32, bh: i32, ox: i32, oy: i32) -> (r: (i64, i64, i64, i64))
    requires
        -0x400 <= bw <= 0x400 && -0x400 <= bh <= 0x400,
        -0x400 <= ox <= 0x400 && -0x400 <= oy <= 0x400,
    ensures
        (r.0 as int, r.1 as int, r.2 as int, r.3 as int) == overlap_weights(sx as int, sy as int, bw as int, bh as int, ox as int, oy as int),
        -0x10000000 <= r.0 <= 0x10000000 && -0x10000000 <= r.1 <= 0x10000000,
        -0x10000000 <= r.2 <= 0x10000000 && -0x10000000 <= r.3 <= 0x10000000,
{
    let ax1 = if sx > 0 { 3 * bw - 2 * ox } else { 3 * bw - 4 * ox };
    let ax2 = 4 * (bw - ox) - ax1;
    let ay1 = if sy > 0 { 3 * bh - 2 * oy } else { 3 * bh - 4 * oy };
    let ay2 = 4 * (bh - oy) - ay1;
    proof {
        assert(forall|u: int, v: int| -0x4000 <= u <= 0x4000 && -0x4000 <= v <= 0x4000 ==> -0x10000000 <= #[trigger] (u * v) <= 0x10000000) by (nonlinear_arith);
        assert(-0x10000000 <= ax1 * ay1 <= 0x10000000);
        assert(-0x10000000 <= ax2 * ay1 <= 0x10000000);
        assert(-0x10000000 <= ax1 * ay2 <= 0x10000000);
        assert(-0x10000000 <= ax2 * ay2 <= 0x10000000);
    }
    ((ax1 * ay1) as i64, (ax2 * ay1) as i64, (ax1 * ay2) as i64, (ax2 * ay2) as i64)
}

/// Entry (`x`, `y`) of the fine field (see `interp_entry`).
fn interp_at(coarse: &[Vec8], cgw: i32, cgh: i32, x: i32, y: i32, bw: i32, bh: i32, ox: i32, oy: i32, pel: i32) -> (r: Vec8)
    requires
        interp_ok(coarse@.len() as int, cgw as int, cgh as int, 0, 0, bw as int, bh as int, ox as int, oy as int, pel as int),
        0 <= x && 0 <= y,
    ensures
        r == interp_entry(coarse@, cgw as int, cgh as int, x as int, y as int, bw as int, bh as int, ox as int, oy as int, pel as int),
{
    let (p, qx, qy, qxy, sx, sy) = interp_pick_at(coarse, cgw, cgh, x, y);
    let log = if pel == 2 { 1 } else if pel == 4 { 2 } else { 0 };
    let norm = 3 - log;
    let (vx, vy, sad): (i32, i32, u64) = if ox == 0 && oy == 0 {
        (
            9 * p.dx as i32 + 3 * qx.dx as i32 + 3 * qy.dx as i32 + qxy.dx as i32,
            9 * p.dy as i32 + 3 * qx.dy as i32 + 3 * qy.dy as i32 + qxy.dy as i32,
            (9 * p.score as u64 + 3 * qx.score as u64 + 3 * qy.score as u64 + qxy.score as u64 + 8) / 16,
        )
    } else {
        let w = weights_at(sx, sy, bw, bh, ox, oy);
        proof {
            assert(-0x400000 <= (bw - ox) * (bh - oy) <= 0x400000) by (nonlinear_arith)
                requires
                    -0x800 <= bw - ox <= 0x800,
                    -0x800 <= bh - oy <= 0x800,
            ;
        }
        let nv = (bw - ox) * (bh - oy);
        let normov = (if nv < 1 { 1 } else { nv }) as i64;
        let dx = overlap_mix(w, p.dx as i64, qx.dx as i64, qy.dx as i64, qxy.dx as i64, normov);
        let dy = overlap_mix(w, p.dy as i64, qx.dy as i64, qy.dy as i64, qxy.dy as i64, normov);
        let score = overlap_mix(w, p.score as i64, qx.score as i64, qy.score as i64, qxy.score as i64, normov);
        proof {
            assert(score >= 0 ==> score / 16 >= 0);
        }
        (#[verifier::truncate] (dx as i32), #[verifier::truncate] (dy as i32), (if score < 0 { 0 } else { score }) as u64 / 16)
    };
    let vx = shift_down(vx, norm);
    let vy = shift_down(vy, norm);
    let dx = if vx < -32768 { -32768i16 } else if vx > 32767 { 32767i16 } else { vx as i16 };
    let dy = if vy < -32768 { -32768i16 } else if vy > 32767 { 32767i16 } else { vy as i16 };
    let score = if sad > u32::MAX as u64 { u32::MAX } else { sad as u32 };
    Vec8 { dx, dy, score, luma: p.luma }
}

/// The coarse field carried down to a `gw` x `gh` grid of blocks, entry
/// by entry as `interp_entry` says, row by row.
pub fn exact_interpolate_level(
    coarse: &[Vec8],
    cgw: i32,
    cgh: i32,
    gw: i32,
    gh: i32,
    bw: i32,
    bh: i32,
    ox: i32,
    oy: i32,
    pel: i32,
) -> (r: Vec<Vec8>)
    requires
        interp_ok(coarse@.len() as int, cgw as int, cgh as int, gw as int, gh as int, bw as int, bh as int, ox as int, oy as int, pel as int),
    ensures
        r@.len() == gw * gh,
        forall|y: int, x: int| 0 <= y < gh && 0 <= x < gw ==>
            #[trigger] r@[y * gw + x] == interp_entry(coarse@, cgw as int, cgh as int, x, y, bw as int, bh as int, ox as int, oy as int, pel as int),
{
    let mut out: Vec<Vec8> = Vec::new();
    let mut y: i32 = 0;
    while y < gh
        invariant
            0 <= y <= gh,
            interp_ok(coarse@.len() as int, cgw as int, cgh as int, gw as int, gh as int, bw as int, bh as int, ox as int, oy as int, pel as int),
            out@.len() == y * gw,
            forall|yy: int, x: int| 0 <= yy < y && 0 <= x < gw ==>
                #[trigger] out@[yy * gw + x] == interp_entry(coarse@, cgw as int, cgh as int, x, yy, bw as int, bh as int, ox as int, oy as int, pel as int),
        decreases gh - y,
    {
        let mut x: i32 = 0;
        while x < gw
            invariant
                0 <= x <= gw,
                0 <= y < gh,
                interp_ok(coarse@.len() as int, cgw as int, cgh as int, gw as int, gh as int, bw as int, bh as int, ox as int, oy as int, pel as int),
                out@.len() == y * gw + x,
                forall|yy: int, xx: int| 0 <= yy < y && 0 <= xx < gw ==>
                    #[trigger] out@[yy * gw + xx] == interp_entry(coarse@, cgw as int, cgh as int, xx, yy, bw as int, bh as int, ox as int, oy as int, pel as int),
                forall|xx: int| 0 <= xx < x ==>
                    #[trigger] out@[y * gw + xx] == interp_entry(coarse@, cgw as int, cgh as int, xx, y as int, bw as int, bh as int, ox as int, oy as int, pel as int),
            decreases gw - x,
        {
            let e = interp_at(coarse, cgw, cgh, x, y, bw, bh, ox, oy, pel);
            let ghost before = out@;
            out.push(e);
            proof {
                assert forall|yy: int, xx: int| 0 <= yy < y && 0 <= xx < gw implies
                    #[trigger] out@[yy * gw + xx] == interp_entry(coarse@, cgw as int, cgh as int, xx, yy, bw as int, bh as int, ox as int, oy as int, pel as int) by {
                    assert(yy * gw + xx < y * gw) by (nonlinear_arith)
                        requires
                            0 <= yy < y,
                            0 <= xx < gw,
                    ;
                    assert(out@[yy * gw + xx] == before[yy * gw + xx]);
                }
            }
            x = x + 1;
        }
        proof {
            assert forall|yy: int, xx: int| 0 <= yy < y + 1 && 0 <= xx < gw implies
                #[trigger] out@[yy * gw + xx] == interp_entry(coarse@, cgw as int, cgh as int, xx, yy, bw as int, bh as int, ox as int, oy as int, pel as int) by {
                if yy == y {
                    assert(out@[y * gw + xx] == interp_entry(coarse@, cgw as int, cgh as int, xx, y as int, bw as int, bh as int, ox as int, oy as int, pel as int));
                }
            }
            assert(out@.len() == (y + 1) * gw) by (nonlinear_arith)
                requires
                    out@.len() == y * gw + gw,
            ;
        }
        y = y + 1;
    }
    assert(gh * gw == gw * gh) by (nonlinear_arith);
    out
}


/// The grid of `bw` x `bh` blocks overlapping by `ox`, `oy` on pyramid
/// level `level`: the span the full-size grid covers, halved `level`
/// times (rounding down), in whole steps; at least one block each way.
pub open spec fn level_grid_spec(opts: AnalyseOpts, level: int, bw: int, bh: int, ox: int, oy: int) -> (int, int) {
    let sx = max1(bw - ox);
    let sy = max1(bh - oy);
    let end_x = ox + sx * max0(tdiv(opts.width - ox, sx));
    let end_y = oy + sy * max0(tdiv(opts.height - oy, sy));
    (
        max1(tdiv((((end_x as i32) >> (level as u32)) as int) - ox, sx)),
        max1(tdiv((((end_y as i32) >> (level as u32)) as int) - oy, sy)),
    )
}

/// The grid of a pyramid level (see `level_grid_spec`).
pub fn level_grid(opts: &AnalyseOpts, level: i32, bw: i32, bh: i32, ox: i32, oy: i32) -> (r: (i32, i32))
    requires
        0 <= level < 32,
        0 <= opts.width <= 0xffff && 0 <= opts.height <= 0xffff,
        -0x1000 <= bw <= 0x1000 && -0x1000 <= bh <= 0x1000,
        0 <= ox <= 0x1000 && 0 <= oy <= 0x1000,
    ensures
        (r.0 as int, r.1 as int) == level_grid_spec(*opts, level as int, bw as int, bh as int, ox as int, oy as int),
{
    let step_x = if bw - ox < 1 { 1 } else { bw - ox };
    let step_y = if bh - oy < 1 { 1 } else { bh - oy };
    let gx = crate::arith::div_i32(opts.width - ox, step_x);
    let gy = crate::arith::div_i32(opts.height - oy, step_y);
    let gw0 = if gx < 0 { 0 } else { gx };
    let gh0 = if gy < 0 { 0 } else { gy };
    proof {
        lemma_span(opts.width as int, ox as int, step_x as int);
        lemma_span(opts.height as int, oy as int, step_y as int);
    }
    let end_x = ox + step_x * gw0;
    let end_y = oy + step_y * gh0;
    proof {
        lemma_shr_range(end_x, level as u32);
        lemma_shr_range(end_y, level as u32);
    }
    let gw = crate::arith::div_i32((end_x >> (level as u32)) - ox, step_x);
    let gh = crate::arith::div_i32((end_y >> (level as u32)) - oy, step_y);
    (if gw < 1 { 1 } else { gw }, if gh < 1 { 1 } else { gh })
}

/// The score of `v` rescaled by the length of its vector against
/// `denom`: 20 times (saturated) at 51 % or more, raised by a fixed-point
/// step between 16 % and 50 %, kept below that; then cut to its low 24
/// bits.
pub open spec fn rescaled_score(v: Vec8, denom: int) -> u32 {
    let mag = (if v.dx < 0 { -v.dx } else { v.dx as int }) + (if v.dy < 0 { -v.dy } else { v.dy as int });
    let ratio = tdiv(100 * mag, denom);
    let score = v.score as i32;
    let raised = if ratio >= 51 {
        crate::arith::sat_i32(score * 20) as i32
    } else if ratio >= 16 {
        let v71 = (3926827243u64.wrapping_mul(score as u32 as u64).wrapping_mul((ratio - 15) as u32 as u64) >> 32u64) as i32;
        crate::arith::sat_i32(score + 9 * ((v71 >> 31u32) + (v71 >> 5u32))) as i32
    } else {
        score
    };
    (raised as u32) & 0x00ff_ffffu32
}

/// The divisor of the vector lengths: the frame diagonal times the block
/// size (saturated), at least 1.
pub open spec fn rescale_denom(diag: int, blk: int) -> int {
    max1(crate::arith::sat_i32(diag * max1(blk)))
}

/// Rescales the scores of `field` by the lengths of their vectors against
/// the frame diagonal `diag` (in samples, rounded down) times the block
/// size `blk` (see `rescaled_score`); vectors and lumas are kept.
pub fn rescale_scores(field: &mut Vec<Vec8>, diag: i32, blk: i32)
    ensures
        final(field)@.len() == old(field)@.len(),
        forall|i: int| 0 <= i < old(field)@.len() ==> #[trigger] final(field)@[i] == (Vec8 {
            score: rescaled_score(old(field)@[i], rescale_denom(diag as int, blk as int)),
            ..old(field)@[i]
        }),
{
    let b = if blk < 1 { 1 } else { blk };
    let d = crate::arith::sat_mul_i32(diag, b);
    let denom = if d < 1 { 1 } else { d };
    let n = field.len();
    let mut i: usize = 0;
    while i < n
        invariant
            0 <= i <= n,
            n == old(field)@.len(),
            field@.len() == n,
            denom as int == rescale_denom(diag as int, blk as int),
            forall|j: int| 0 <= j < i ==> #[trigger] field@[j] == (Vec8 {
                score: rescaled_score(old(field)@[j], rescale_denom(diag as int, blk as int)),
                ..old(field)@[j]
            }),
            forall|j: int| i <= j < n ==> #[trigger] field@[j] == old(field)@[j],
        decreases n - i,
    {
        let v = field[i];
        let ax: i32 = if v.dx < 0 { -(v.dx as i32) } else { v.dx as i32 };
        let ay: i32 = if v.dy < 0 { -(v.dy as i32) } else { v.dy as i32 };
        let mag = ax + ay;
        let ratio = crate::arith::div_i32(100 * mag, denom);
        let mut score = v.score as i32;
        if ratio >= 51 {
            score = crate::arith::sat_mul_i32(score, 20);
        } else if ratio >= 16 {
            let v71 = (3926827243u64.wrapping_mul(score as u32 as u64).wrapping_mul((ratio - 15) as u32 as u64) >> 32u64) as i32;
            let raised: i64 = score as i64 + 9 * ((v71 >> 31u32) as i64 + (v71 >> 5u32) as i64);
            score = crate::arith::clamp_i32(raised);
        }
        let nv = Vec8 { score: (score as u32) & 0x00ff_ffffu32, ..v };
        field.set(i, nv);
        i = i + 1;
    }
}

} // verus!
