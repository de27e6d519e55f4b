//! One level of the hierarchical motion search. The blocks of the level's
//! grid are searched in the given order; each starts from the vector the
//! field holds for it (the predictor), the zero and the global vector and
//! the vectors of its already searched neighbours. On coarse levels a
//! block whose cost stays high is searched again more widely.
use vstd::prelude::*;
use crate::analyse_search::{SuperPlanes, Vec8, mv_bounds, mv_bounds_spec, mv_bounds_fits, exact_clip};
use crate::analyse_opts::{AnalyseOpts, search_radius, search_radius_spec};
use crate::arith::{sat_i32, tdiv};
use crate::block_cost::{level_w, level_h, luma_dc_spec, block_luma_dc, cost_ok, block_small};
use crate::block_search::{
    BlockSearch, SearchBest, StartPenalties, search_ok, search_block_spec, exact_search_block, checks,
    expanding_candidates, exact_expanding, umh_spec, exact_umh, clip_spec, mv_near, lemma_checks_near,
    penalties_ok, penalty_room, in_box, lemma_checks_box, lemma_umh_box, lemma_search_block_box,
};

verus! {

/// The grid steps of the options' blocks: block size less overlap, at
/// least 1.
pub open spec fn grid_step(opts: AnalyseOpts) -> (int, int) {
    (
        if opts.block_w - opts.overlap_x < 1 { 1 } else { opts.block_w - opts.overlap_x },
        if opts.block_h - opts.overlap_y < 1 { 1 } else { opts.block_h - opts.overlap_y },
    )
}

/// The pel of the search on `level`: the options' pel (at least 1) on
/// the finest level, 1 above it.
pub open spec fn level_pel(opts: AnalyseOpts, level: int) -> int {
    if level == 0 { if opts.pel < 1 { 1 } else { opts.pel as int } } else { 1 }
}

/// The options of the search on `level`: its kind, radius, whether SATD
/// is used and whether every start is refined.
pub open spec fn level_kind(opts: AnalyseOpts, level: int) -> (int, int, bool, bool) {
    (
        if level == 0 { opts.search_type as int } else { opts.coarse_search_type as int },
        search_radius_spec(opts, level == 0, level, if opts.levels < 1 { 1 } else { opts.levels as int }),
        if level == 0 { opts.fine_satd } else { opts.coarse_satd },
        level > 0 && opts.coarse_trymany,
    )
}

/// The search of block (`bx`, `by`) of the grid, given the field and the
/// per-block lambdas.
pub open spec fn block_search_of<'a>(
    src: &'a SuperPlanes<'a>,
    refp: &'a SuperPlanes<'a>,
    opts: AnalyseOpts,
    level: int,
    field: Seq<Vec8>,
    lambdas: Seq<i32>,
    gw: int,
    bx: int,
    by: int,
) -> BlockSearch<'a> {
    let (sx, sy) = grid_step(opts);
    let px = bx * sx;
    let py = by * sy;
    let pel = level_pel(opts, level);
    let b = mv_bounds_spec(px, py, opts.block_w as int, opts.block_h as int, level_w(src, level), level_h(src, level), pel);
    let bounds = (b.0 as i32, b.1 as i32, b.2 as i32, b.3 as i32);
    let pred = field[by * gw + bx];
    BlockSearch {
        src,
        refp,
        level: level as i32,
        px: px as i32,
        py: py as i32,
        bw: opts.block_w,
        bh: opts.block_h,
        pel: pel as i32,
        satd: level_kind(opts, level).2,
        predictor: clip_spec((pred.dx as i32, pred.dy as i32), bounds),
        bounds,
        lambda: lambdas[by * gw + bx],
        pnew: opts.pnew,
    }
}

/// The vectors of the searched neighbours in row `ny` from column `nx`
/// to `last`.
pub open spec fn seed_row(field: Seq<Vec8>, processed: Seq<bool>, gw: int, ny: int, nx: int, last: int) -> Seq<(i32, i32)>
    decreases if nx > last { 0 } else { last - nx + 1 },
{
    if nx > last {
        Seq::empty()
    } else {
        let here = if processed[ny * (gw + 1) + nx] {
            seq![(field[ny * gw + nx].dx as i32, field[ny * gw + nx].dy as i32)]
        } else {
            Seq::empty()
        };
        here + seed_row(field, processed, gw, ny, nx + 1, last)
    }
}

/// The vectors of the searched blocks among the (up to) 3 x 3 around
/// (`bx`, `by`), by rows from row `ny` on.
pub open spec fn seeds_from(field: Seq<Vec8>, processed: Seq<bool>, gw: int, gh: int, bx: int, by: int, ny: int) -> Seq<(i32, i32)>
    decreases if ny > by + 1 { 0 } else { by + 2 - ny },
{
    let last_y = if by + 1 < gh - 1 { by + 1 } else { gh - 1 };
    if ny > last_y {
        Seq::empty()
    } else {
        let first_x = if bx - 1 < 0 { 0 } else { bx - 1 };
        let last_x = if bx + 1 < gw - 1 { bx + 1 } else { gw - 1 };
        seed_row(field, processed, gw, ny, first_x, last_x) + seeds_from(field, processed, gw, gh, bx, by, ny + 1)
    }
}

/// The seeds of block (`bx`, `by`).
pub open spec fn seeds(field: Seq<Vec8>, processed: Seq<bool>, gw: int, gh: int, bx: int, by: int) -> Seq<(i32, i32)> {
    seeds_from(field, processed, gw, gh, bx, by, if by - 1 < 0 { 0 } else { by - 1 })
}

/// The cost limit above which a coarse block is searched again, after
/// `bad` such blocks.
pub open spec fn bad_limit(bad_sad: int, bad: int) -> int {
    sat_i32(bad_sad + tdiv(sat_i32(bad_sad * bad), 16))
}

/// Expanding squares around the zero vector, half-widths from `r` in
/// steps of `step` below `max_r`, until the cost falls below a quarter of
/// `found`.
pub open spec fn bad_expand(s: BlockSearch, best: SearchBest, found: int, r: int, max_r: int, step: int) -> SearchBest
    decreases if r >= max_r { 0 } else { max_r - r },
{
    if step < 1 || r >= max_r {
        best
    } else {
        let b2 = checks(s, best, expanding_candidates((0i32, 0i32), r, step));
        if (b2.sad as int) < found / 4 { b2 } else { bad_expand(s, b2, found, r + step, max_r, step) }
    }
}

/// The wider search of a block whose cost stayed above the limit on a
/// coarse level: expanding squares (negative bad range) or the uneven
/// multi-hexagon search (positive bad range) around the zero vector, then
/// the square of half-width 1 around the best vector.
pub open spec fn bad_search(s: BlockSearch, opts: AnalyseOpts, best: SearchBest) -> SearchBest {
    let range = opts.coarse_bad_range as int;
    let pel = s.pel as int;
    let b1 = if range < 0 {
        bad_expand(s, best, best.sad as int, pel, -range * pel, pel)
    } else if range > 0 {
        umh_spec(s, best, (0i32, 0i32), range * pel)
    } else {
        best
    };
    checks(s, b1, expanding_candidates(b1.mv, 1, 1))
}

/// The state of a level's search: the field, which blocks are searched
/// (indexed on a grid one wider and higher), and how many blocks were
/// searched again.
pub struct LevelState {
    pub field: Seq<Vec8>,
    pub processed: Seq<bool>,
    pub bad: int,
}

/// The level's search after block (`bx`, `by`).
pub open spec fn level_cell<'a>(
    src: &'a SuperPlanes<'a>,
    refp: &'a SuperPlanes<'a>,
    opts: AnalyseOpts,
    level: int,
    global: (i32, i32),
    lambdas: Seq<i32>,
    gw: int,
    gh: int,
    st: LevelState,
    cell: (i32, i32),
) -> LevelState {
    let bx = cell.0 as int;
    let by = cell.1 as int;
    let idx = by * gw + bx;
    let s = block_search_of(src, refp, opts, level, st.field, lambdas, gw, bx, by);
    let (kind, radius, satd, try_many) = level_kind(opts, level);
    let pen = StartPenalties { pzero: opts.pzero, pglobal: opts.pglobal, pnbour: opts.pnbour };
    let best = search_block_spec(
        s,
        st.field[idx].score != u32::MAX,
        clip_spec((0i32, 0i32), s.bounds),
        clip_spec(global, s.bounds),
        seeds(st.field, st.processed, gw, gh, bx, by),
        pen,
        kind,
        radius,
        try_many,
    );
    let again = level > 0 && idx > 1 && opts.coarse_bad_sad > 0 && (best.sad as i32) > bad_limit(opts.coarse_bad_sad as int, st.bad);
    let fin = if again { bad_search(s, opts, best) } else { best };
    let entry = Vec8 {
        dx: fin.mv.0 as i16,
        dy: fin.mv.1 as i16,
        score: fin.sad,
        luma: luma_dc_spec(src, level, s.px as int, s.py as int, opts.block_w as int, opts.block_h as int) as u8,
    };
    LevelState {
        field: st.field.update(idx, entry),
        processed: st.processed.update(by * (gw + 1) + bx, true),
        bad: if again { st.bad + 1 } else { st.bad },
    }
}

/// The level's search over the blocks of `order`, in turn.
pub open spec fn level_fold<'a>(
    src: &'a SuperPlanes<'a>,
    refp: &'a SuperPlanes<'a>,
    opts: AnalyseOpts,
    level: int,
    global: (i32, i32),
    lambdas: Seq<i32>,
    gw: int,
    gh: int,
    st: LevelState,
    order: Seq<(i32, i32)>,
) -> LevelState
    decreases order.len(),
{
    if order.len() == 0 {
        st
    } else {
        level_fold(src, refp, opts, level, global, lambdas, gw, gh, level_cell(src, refp, opts, level, global, lambdas, gw, gh, st, order[0]), order.drop_first())
    }
}

/// What the level search needs to stay in range: planes of a super clip
/// (sides of at most `2^16`, as its handle holds them) with a level of at
/// least 2 x 2, block steps and marker indices that `i32` holds, block
/// corners within the clip's 16-bit coordinates, blocks of at most
/// `u32::MAX / 255` samples (their luma sum is a `u32`), search distances
/// whose offsets from a vector stay within `i32`, lambdas whose distance
/// penalties stay within `i64` over bounds of up to `2^18` a side (see
/// `penalty_room`; `2^25` lies above the cap of the adaptive lambda),
/// bounded penalties, and
/// every block of `order` on the grid.
pub open spec fn level_ok(
    src: &SuperPlanes,
    opts: AnalyseOpts,
    level: int,
    lambdas: Seq<i32>,
    field_len: int,
    gw: int,
    gh: int,
    order: Seq<(i32, i32)>,
) -> bool {
    let (sx, sy) = grid_step(opts);
    &&& src.small()
    &&& 0 <= level <= 16
    &&& level_w(src, level) >= 2 && level_h(src, level) >= 2
    &&& 1 <= opts.block_w <= 0x10000 && 1 <= opts.block_h <= 0x10000
    &&& opts.block_w * opts.block_h <= 0x1010101
    &&& i32::MIN <= opts.block_w - opts.overlap_x <= i32::MAX && i32::MIN <= opts.block_h - opts.overlap_y <= i32::MAX
    &&& opts.pel <= 4
    &&& -0x7ff0_0000 <= opts.distance <= 0x7ff0_0000 && -0x7ff0_0000 <= opts.coarse_distance <= 0x7ff0_0000
    &&& -0x1ffc_0000 <= opts.coarse_bad_range <= 0x1ffc_0000
    &&& -0x100000 <= opts.pnew <= 0x100000
    &&& penalties_ok(StartPenalties { pzero: opts.pzero, pglobal: opts.pglobal, pnbour: opts.pnbour })
    &&& 1 <= gw && 1 <= gh && (gw + 1) * (gh + 1) <= i32::MAX
    &&& (gw - 1) * sx <= 0x10000 && (gh - 1) * sy <= 0x10000
    &&& field_len == gw * gh
    &&& lambdas.len() >= gw * gh
    &&& forall|i: int| 0 <= i < lambdas.len() ==> -0x2000000 <= #[trigger] lambdas[i] <= 0x2000000
    &&& order.len() <= i32::MAX
    &&& forall|k: int| 0 <= k < order.len() ==> 0 <= (#[trigger] order[k]).0 < gw && 0 <= order[k].1 < gh
}


/// Cells of a grid whose marker indices fit in `i32` have their field
/// and marker indices in range.
proof fn lemma_cell_index(gw: int, gh: int, bx: int, by: int)
    requires
        1 <= gw && 1 <= gh && (gw + 1) * (gh + 1) <= i32::MAX,
        0 <= bx < gw && 0 <= by < gh,
    ensures
        0 <= by * gw <= by * gw + bx < gw * gh,
        0 <= by * (gw + 1) <= by * (gw + 1) + bx < (gw + 1) * (gh + 1),
        gw * gh <= (gw + 1) * (gh + 1) <= i32::MAX,
        gw + 1 <= i32::MAX && gh + 1 <= i32::MAX,
{
    assert(gw + 1 <= (gw + 1) * (gh + 1) && gh + 1 <= (gw + 1) * (gh + 1)) by (nonlinear_arith)
        requires
            1 <= gw && 1 <= gh,
    ;
    assert(0 <= by * gw && 0 <= by * (gw + 1)) by (nonlinear_arith)
        requires
            0 <= by,
            1 <= gw,
    ;
    assert(0 <= by * gw + bx < gw * gh) by (nonlinear_arith)
        requires
            0 <= bx < gw,
            0 <= by < gh,
    ;
    assert(0 <= by * (gw + 1) + bx < (gw + 1) * (gh + 1)) by (nonlinear_arith)
        requires
            0 <= bx < gw,
            0 <= by < gh,
    ;
    assert(gw * gh <= (gw + 1) * (gh + 1)) by (nonlinear_arith)
        requires
            1 <= gw && 1 <= gh,
    ;
}

/// The corners of a grid's blocks lie within its reach.
proof fn lemma_cell_ranges(gw: int, gh: int, sx: int, sy: int, bx: int, by: int)
    requires
        1 <= gw && 1 <= gh && (gw + 1) * (gh + 1) <= i32::MAX,
        1 <= sx && 1 <= sy,
        (gw - 1) * sx <= 0x10000 && (gh - 1) * sy <= 0x10000,
        0 <= bx < gw && 0 <= by < gh,
    ensures
        0 <= bx * sx <= 0x10000 && 0 <= by * sy <= 0x10000,
        0 <= by * gw + bx < gw * gh,
        0 <= by * (gw + 1) + bx < (gw + 1) * (gh + 1),
        gw * gh <= (gw + 1) * (gh + 1) <= i32::MAX,
{
    lemma_cell_index(gw, gh, bx, by);
    assert(0 <= bx * sx <= (gw - 1) * sx) by (nonlinear_arith)
        requires
            0 <= bx <= gw - 1,
            1 <= sx,
    ;
    assert(0 <= by * sy <= (gh - 1) * sy) by (nonlinear_arith)
        requires
            0 <= by <= gh - 1,
            1 <= sy,
    ;
}

/// The motion bounds of a block whose corner lies within the clip's
/// 16-bit coordinates, in a level of at most `2^16` a side: each within
/// `2^18`, and spans of at most `2^18`.
proof fn lemma_bounds_near(px: int, py: int, bw: int, bh: int, lw: int, lh: int, pel: int)
    requires
        0 <= px <= 0x10000 && 0 <= py <= 0x10000,
        1 <= bw <= 0x10000 && 1 <= bh <= 0x10000,
        0 <= lw <= 0x10000 && 0 <= lh <= 0x10000,
        1 <= pel <= 4,
    ensures
        mv_bounds_fits(px, py, bw, bh, lw, lh, pel),
        ({
            let b = mv_bounds_spec(px, py, bw, bh, lw, lh, pel);
            &&& -0x40000 <= b.0 <= 0 && -0x40000 <= b.1 <= 0
            &&& 0 <= b.2 <= 0x40000 && 0 <= b.3 <= 0x40000
            &&& b.2 - b.0 <= 0x40000 && b.3 - b.1 <= 0x40000
        }),
{
    let rx = lw - px - bw;
    let ry = lh - py - bh;
    let rxp = if rx < 0 { 0 } else { rx };
    let ryp = if ry < 0 { 0 } else { ry };
    assert(0 <= rxp + px <= 0x10000 && 0 <= ryp + py <= 0x10000);
    assert(0 <= pel * px <= 0x40000 && 0 <= pel * rxp <= 0x40000 && pel * rxp + pel * px <= 0x40000) by (nonlinear_arith)
        requires
            1 <= pel <= 4,
            0 <= px,
            0 <= rxp,
            rxp + px <= 0x10000,
    ;
    assert(0 <= pel * py <= 0x40000 && 0 <= pel * ryp <= 0x40000 && pel * ryp + pel * py <= 0x40000) by (nonlinear_arith)
        requires
            1 <= pel <= 4,
            0 <= py,
            0 <= ryp,
            ryp + py <= 0x10000,
    ;
    assert(-pel * px == -(pel * px) && -pel * py == -(pel * py)) by (nonlinear_arith);
}

/// A lambda within `2^25` leaves room for the distance penalty over
/// bounds of up to `2^18` a side.
proof fn lemma_room(lambda: int, b: (i32, i32, i32, i32))
    requires
        -0x2000000 <= lambda <= 0x2000000,
        0 <= b.2 - b.0 <= 0x40000 && 0 <= b.3 - b.1 <= 0x40000,
    ensures
        penalty_room(lambda, b),
{
    let w = b.2 - b.0;
    let h = b.3 - b.1;
    assert(0 <= w * w + h * h <= 0x2000000000) by (nonlinear_arith)
        requires
            0 <= w <= 0x40000,
            0 <= h <= 0x40000,
    ;
    let big = w * w + h * h;
    assert(-0x4000000000000000 <= lambda * big <= 0x4000000000000000) by (nonlinear_arith)
        requires
            0 <= big <= 0x2000000000,
            -0x2000000 <= lambda <= 0x2000000,
    ;
}

/// The search context of block (`bx`, `by`) (see `block_search_of`).
#[verifier::rlimit(50)]
#[verifier::spinoff_prover]
fn block_search_at<'a>(
    src: &'a SuperPlanes<'a>,
    refp: &'a SuperPlanes<'a>,
    opts: &AnalyseOpts,
    level: i32,
    field: &Vec<Vec8>,
    lambdas: &[i32],
    gw: i32,
    gh: i32,
    bx: i32,
    by: i32,
) -> (r: BlockSearch<'a>)
    requires
        level_ok(src, *opts, level as int, lambdas@, field@.len() as int, gw as int, gh as int, Seq::<(i32, i32)>::empty()),
        0 <= bx < gw && 0 <= by < gh,
    ensures
        r == block_search_of(src, refp, *opts, level as int, field@, lambdas@, gw as int, bx as int, by as int),
        search_ok(r),
        r.pel == level_pel(*opts, level as int),
{
    let sx = if opts.block_w - opts.overlap_x < 1 { 1 } else { opts.block_w - opts.overlap_x };
    let sy = if opts.block_h - opts.overlap_y < 1 { 1 } else { opts.block_h - opts.overlap_y };
    proof {
        lemma_cell_ranges(gw as int, gh as int, sx as int, sy as int, bx as int, by as int);
        crate::super_build::lemma_reduce_bounds(src.luma_w as int, level as int);
        crate::super_build::lemma_reduce_bounds(src.luma_h as int, level as int);
    }
    let px = bx * sx;
    let py = by * sy;
    let pel = if level == 0 { if opts.pel < 1 { 1 } else { opts.pel } } else { 1 };
    let (lw, lh) = src.level_size(level);
    proof {
        lemma_bounds_near(px as int, py as int, opts.block_w as int, opts.block_h as int, lw as int, lh as int, pel as int);
    }
    let bounds = mv_bounds(px, py, opts.block_w, opts.block_h, lw as i32, lh as i32, pel);
    let idx = (by * gw + bx) as usize;
    proof {
        lemma_room(lambdas@[idx as int] as int, bounds);
    }
    let pred = field[idx];
    let predictor = exact_clip((pred.dx as i32, pred.dy as i32), bounds);
    let satd = if level == 0 { opts.fine_satd } else { opts.coarse_satd };
    BlockSearch {
        src,
        refp,
        level,
        px,
        py,
        bw: opts.block_w,
        bh: opts.block_h,
        pel,
        satd,
        predictor,
        bounds,
        lambda: lambdas[idx],
        pnew: opts.pnew,
    }
}

/// The vectors of the searched neighbours of block (`bx`, `by`) (see
/// `seeds`).
fn seeds_at(field: &Vec<Vec8>, processed: &Vec<bool>, gw: i32, gh: i32, bx: i32, by: i32) -> (r: Vec<(i32, i32)>)
    requires
        1 <= gw && 1 <= gh && (gw + 1) * (gh + 1) <= i32::MAX,
        0 <= bx < gw && 0 <= by < gh,
        field@.len() == gw * gh,
        processed@.len() == (gw + 1) * (gh + 1),
    ensures
        r@ == seeds(field@, processed@, gw as int, gh as int, bx as int, by as int),
{
    let ghost target = seeds(field@, processed@, gw as int, gh as int, bx as int, by as int);
    let mut out: Vec<(i32, i32)> = Vec::new();
    let y0 = if by - 1 < 0 { 0 } else { by - 1 };
    let y1 = if by + 1 < gh - 1 { by + 1 } else { gh - 1 };
    let x0 = if bx - 1 < 0 { 0 } else { bx - 1 };
    let x1 = if bx + 1 < gw - 1 { bx + 1 } else { gw - 1 };
    proof {
        assert(out@ + seeds_from(field@, processed@, gw as int, gh as int, bx as int, by as int, y0 as int) =~= target);
    }
    let mut ny = y0;
    while ny <= y1
        invariant
            1 <= gw && 1 <= gh && (gw + 1) * (gh + 1) <= i32::MAX,
            0 <= bx < gw && 0 <= by < gh,
            field@.len() == gw * gh,
            processed@.len() == (gw + 1) * (gh + 1),
            y0 <= ny <= y1 + 1,
            y0 == (if by - 1 < 0 { 0 } else { by - 1 }),
            y1 == (if by + 1 < gh - 1 { by + 1 } else { gh - 1 }),
            x0 == (if bx - 1 < 0 { 0 } else { bx - 1 }),
            x1 == (if bx + 1 < gw - 1 { bx + 1 } else { gw - 1 }),
            out@ + seeds_from(field@, processed@, gw as int, gh as int, bx as int, by as int, ny as int) == target,
        decreases y1 + 1 - ny,
    {
        let ghost rest = seeds_from(field@, processed@, gw as int, gh as int, bx as int, by as int, ny + 1);
        proof {
            assert(seeds_from(field@, processed@, gw as int, gh as int, bx as int, by as int, ny as int)
                == seed_row(field@, processed@, gw as int, ny as int, x0 as int, x1 as int) + rest);
            assert(out@ + (seed_row(field@, processed@, gw as int, ny as int, x0 as int, x1 as int) + rest)
                =~= out@ + seed_row(field@, processed@, gw as int, ny as int, x0 as int, x1 as int) + rest);
        }
        let mut nx = x0;
        while nx <= x1
            invariant
                1 <= gw && 1 <= gh && (gw + 1) * (gh + 1) <= i32::MAX,
                0 <= ny < gh,
                field@.len() == gw * gh,
                processed@.len() == (gw + 1) * (gh + 1),
                x0 <= nx <= x1 + 1,
                0 <= x0 && x1 < gw,
                out@ + seed_row(field@, processed@, gw as int, ny as int, nx as int, x1 as int) + rest == target,
            decreases x1 + 1 - nx,
        {
            proof {
                lemma_cell_index(gw as int, gh as int, nx as int, ny as int);
            }
            let ghost before = out@;
            let ghost tail = seed_row(field@, processed@, gw as int, ny as int, nx + 1, x1 as int);
            if processed[(ny * (gw + 1) + nx) as usize] {
                let v = field[(ny * gw + nx) as usize];
                out.push((v.dx as i32, v.dy as i32));
                proof {
                    assert(before + (seq![(v.dx as i32, v.dy as i32)] + tail) + rest =~= out@ + tail + rest);
                }
            } else {
                proof {
                    assert(before + (Seq::<(i32, i32)>::empty() + tail) + rest =~= out@ + tail + rest);
                }
            }
            nx = nx + 1;
        }
        proof {
            assert(seed_row(field@, processed@, gw as int, ny as int, nx as int, x1 as int) =~= Seq::<(i32, i32)>::empty());
            assert(out@ + Seq::<(i32, i32)>::empty() + rest =~= out@ + rest);
        }
        ny = ny + 1;
    }
    proof {
        assert(seeds_from(field@, processed@, gw as int, gh as int, bx as int, by as int, ny as int) =~= Seq::<(i32, i32)>::empty());
        assert(out@ + Seq::<(i32, i32)>::empty() =~= out@);
    }
    out
}

/// The wider search of a coarse block (see `bad_search`).
fn exact_bad_search(s: &BlockSearch, opts: &AnalyseOpts, best: &mut SearchBest)
    requires
        search_ok(*s),
        s.pel == 1,
        mv_near(old(best).mv),
        -0x1ffc_0000 <= opts.coarse_bad_range <= 0x1ffc_0000,
    ensures
        *final(best) == bad_search(*s, *opts, *old(best)),
{
    let found = best.sad;
    let pel = s.pel;
    let range = opts.coarse_bad_range;
    let ghost b1 = if range < 0 {
        bad_expand(*s, *old(best), found as int, pel as int, -range * pel, pel as int)
    } else if range > 0 {
        umh_spec(*s, *old(best), (0i32, 0i32), range * pel)
    } else {
        *old(best)
    };
    if range < 0 {
        let max_r = -range * pel;
        let mut r = pel;
        while r < max_r
            invariant_except_break
                search_ok(*s),
                s.pel == 1,
                pel == 1,
                max_r == -range,
                1 <= r <= max_r + 1,
                max_r <= 0x1ffc_0000,
                mv_near(best.mv),
                bad_expand(*s, *best, found as int, r as int, max_r as int, pel as int) == b1,
            ensures
                search_ok(*s),
                mv_near(best.mv),
                *best == b1,
            decreases max_r - r,
        {
            let ghost b0 = *best;
            proof {
                lemma_checks_near(*s, b0, expanding_candidates((0i32, 0i32), r as int, pel as int));
            }
            exact_expanding(s, (0, 0), r, pel, best);
            if best.sad < found / 4 {
                break;
            }
            r = r + pel;
        }
    } else if range > 0 {
        proof {
            crate::block_search::lemma_umh_near(*s, *old(best), (0i32, 0i32), range * pel);
        }
        exact_umh(s, (0, 0), range * pel, best);
    }
    let center = best.mv;
    exact_expanding(s, center, 1, 1, best);
}


/// The search of one level: every block of `order` in turn, the field
/// entry of each replaced by its result (see `level_cell`); `lambdas`
/// holds each block's lambda by its index in the field. Entries of blocks
/// not in `order` stay as they were, and each searched block ends with a
/// vector inside its motion bounds.
pub fn exact_search_level<'a>(
    src: &'a SuperPlanes<'a>,
    refp: &'a SuperPlanes<'a>,
    opts: &AnalyseOpts,
    level: i32,
    global: (i32, i32),
    field: &mut Vec<Vec8>,
    gw: i32,
    gh: i32,
    order: &[(i32, i32)],
    lambdas: &[i32],
)
    requires
        level_ok(src, *opts, level as int, lambdas@, old(field)@.len() as int, gw as int, gh as int, order@),
    ensures
        final(field)@ == level_fold(src, refp, *opts, level as int, global, lambdas@, gw as int, gh as int,
            LevelState { field: old(field)@, processed: Seq::new(((gw + 1) * (gh + 1)) as nat, |i: int| false), bad: 0 }, order@).field,
        final(field)@.len() == old(field)@.len(),
        forall|i: int| 0 <= i < old(field)@.len() && unvisited(order@, gw as int, i) ==> #[trigger] final(field)@[i] == old(field)@[i],
        forall|k: int| 0 <= k < order@.len() && box_in_i16(#[trigger] cell_bounds(src, *opts, level as int, order@[k].0 as int, order@[k].1 as int))
            ==> in_box((final(field)@[order@[k].1 * gw + order@[k].0].dx as i32, final(field)@[order@[k].1 * gw + order@[k].0].dy as i32),
                cell_bounds(src, *opts, level as int, order@[k].0 as int, order@[k].1 as int)),
{
    proof {
        lemma_cell_index(gw as int, gh as int, 0, 0);
    }
    let kind = if level == 0 { opts.search_type } else { opts.coarse_search_type };
    let nlevels = if opts.levels < 1 { 1 } else { opts.levels };
    let radius = search_radius(opts, level == 0, level, nlevels);
    let try_many = level > 0 && opts.coarse_trymany;
    let pen = StartPenalties { pzero: opts.pzero, pglobal: opts.pglobal, pnbour: opts.pnbour };
    let np = ((gw + 1) * (gh + 1)) as usize;
    let mut processed: Vec<bool> = vec![false; np];
    let ghost st0 = LevelState { field: field@, processed: Seq::new(((gw + 1) * (gh + 1)) as nat, |i: int| false), bad: 0 };
    proof {
        assert(processed@ =~= st0.processed);
    }
    let ghost target = level_fold(src, refp, *opts, level as int, global, lambdas@, gw as int, gh as int, st0, order@);
    let mut bad_count: i32 = 0;
    let n = order.len();
    proof {
        assert(order@.subrange(0, n as int) =~= order@);
    }
    let mut k: usize = 0;
    while k < n
        invariant
            0 <= k <= n,
            n == order@.len(),
            level_ok(src, *opts, level as int, lambdas@, field@.len() as int, gw as int, gh as int, order@),
            processed@.len() == (gw + 1) * (gh + 1),
            0 <= bad_count <= k,
            kind == level_kind(*opts, level as int).0,
            radius == level_kind(*opts, level as int).1,
            try_many == level_kind(*opts, level as int).3,
            pen == (StartPenalties { pzero: opts.pzero, pglobal: opts.pglobal, pnbour: opts.pnbour }),
            level_fold(src, refp, *opts, level as int, global, lambdas@, gw as int, gh as int,
                LevelState { field: field@, processed: processed@, bad: bad_count as int }, order@.subrange(k as int, n as int)) == target,
        decreases n - k,
    {
        let (bx, by) = order[k];
        let ghost st = LevelState { field: field@, processed: processed@, bad: bad_count as int };
        proof {
            assert(0 <= order@[k as int].0 < gw && 0 <= order@[k as int].1 < gh);
            let rest = order@.subrange(k as int, n as int);
            assert(rest[0] == (bx, by));
            assert(rest.drop_first() =~= order@.subrange(k as int + 1, n as int));
        }
        let sx = if opts.block_w - opts.overlap_x < 1 { 1 } else { opts.block_w - opts.overlap_x };
        let sy = if opts.block_h - opts.overlap_y < 1 { 1 } else { opts.block_h - opts.overlap_y };
        proof {
            lemma_cell_ranges(gw as int, gh as int, sx as int, sy as int, bx as int, by as int);
            lemma_cell_index(gw as int, gh as int, bx as int, by as int);
        }
        let idx = (by * gw + bx) as usize;
        let s = block_search_at(src, refp, opts, level, field, lambdas, gw, gh, bx, by);
        let nb = seeds_at(field, &processed, gw, gh, bx, by);
        let zero = exact_clip((0, 0), s.bounds);
        let glob = exact_clip(global, s.bounds);
        let field_valid = field[idx].score != u32::MAX;
        let mut best = exact_search_block(&s, field_valid, zero, glob, nb.as_slice(), pen, kind, radius, try_many);
        let bad_limit = crate::arith::sat_add_i32(
            opts.coarse_bad_sad,
            crate::arith::div_i32(crate::arith::sat_mul_i32(opts.coarse_bad_sad, bad_count), 16),
        );
        let again = level > 0 && idx > 1 && opts.coarse_bad_sad > 0 && (best.sad as i32) > bad_limit;
        if again {
            bad_count = bad_count + 1;
            proof {
                crate::block_search::lemma_search_block_near(s, field_valid, zero, glob, nb@, pen, kind as int, radius as int, try_many);
            }
            exact_bad_search(&s, opts, &mut best);
        }
        let luma = block_luma_dc(src, level, s.px, s.py, opts.block_w, opts.block_h);
        let entry = Vec8 { dx: best.mv.0 as i16, dy: best.mv.1 as i16, score: best.sad, luma };
        field.set(idx, entry);
        processed.set((by * (gw + 1) + bx) as usize, true);
        proof {
            assert(LevelState { field: field@, processed: processed@, bad: bad_count as int }
                == level_cell(src, refp, *opts, level as int, global, lambdas@, gw as int, gh as int, st, (bx, by)));
        }
        k = k + 1;
    }
    proof {
        assert(order@.subrange(n as int, n as int) =~= Seq::<(i32, i32)>::empty());
        lemma_level_fold_frame(src, refp, *opts, level as int, global, lambdas@, gw as int, gh as int, st0, order@);
    }
}

/// The motion bounds of block (`bx`, `by`) of the level's grid.
pub open spec fn cell_bounds(src: &SuperPlanes, opts: AnalyseOpts, level: int, bx: int, by: int) -> (i32, i32, i32, i32) {
    let (sx, sy) = grid_step(opts);
    let b = mv_bounds_spec(bx * sx, by * sy, opts.block_w as int, opts.block_h as int, level_w(src, level), level_h(src, level), level_pel(opts, level));
    (b.0 as i32, b.1 as i32, b.2 as i32, b.3 as i32)
}

/// Whether the closed box of `b` lies within `i16`, so that a vector in
/// it is stored in the field unchanged.
pub open spec fn box_in_i16(b: (i32, i32, i32, i32)) -> bool {
    &&& -0x8000 <= b.0 <= 0x7fff && -0x8000 <= b.1 <= 0x7fff
    &&& b.2 <= 0x8000 && b.3 <= 0x8000
}

/// Whether no block of `order` has field index `i`.
pub open spec fn unvisited(order: Seq<(i32, i32)>, gw: int, i: int) -> bool {
    forall|k: int| 0 <= k < order.len() ==> (#[trigger] order[k]).1 * gw + order[k].0 != i
}

/// The wider search of a coarse block keeps the best vector inside the
/// bounds' closed box.
proof fn lemma_bad_expand_box(s: BlockSearch, best: SearchBest, found: int, r: int, max_r: int, step: int)
    requires
        in_box(best.mv, s.bounds),
    ensures
        in_box(bad_expand(s, best, found, r, max_r, step).mv, s.bounds),
    decreases if r >= max_r { 0 } else { max_r - r },
{
    if !(step < 1 || r >= max_r) {
        let b2 = checks(s, best, expanding_candidates((0i32, 0i32), r, step));
        lemma_checks_box(s, best, expanding_candidates((0i32, 0i32), r, step));
        if !((b2.sad as int) < found / 4) {
            lemma_bad_expand_box(s, b2, found, r + step, max_r, step);
        }
    }
}

proof fn lemma_bad_search_box(s: BlockSearch, opts: AnalyseOpts, best: SearchBest)
    requires
        in_box(best.mv, s.bounds),
    ensures
        in_box(bad_search(s, opts, best).mv, s.bounds),
{
    let range = opts.coarse_bad_range as int;
    let pel = s.pel as int;
    lemma_bad_expand_box(s, best, best.sad as int, pel, -range * pel, pel);
    lemma_umh_box(s, best, (0i32, 0i32), range * pel);
    let b1 = if range < 0 {
        bad_expand(s, best, best.sad as int, pel, -range * pel, pel)
    } else if range > 0 {
        umh_spec(s, best, (0i32, 0i32), range * pel)
    } else {
        best
    };
    lemma_checks_box(s, b1, expanding_candidates(b1.mv, 1, 1));
}

/// The entry that the search of one block writes holds a vector inside
/// the block's bounds, where those lie within `i16`.
proof fn lemma_cell_entry_box<'a>(
    src: &'a SuperPlanes<'a>,
    refp: &'a SuperPlanes<'a>,
    opts: AnalyseOpts,
    level: int,
    global: (i32, i32),
    lambdas: Seq<i32>,
    gw: int,
    gh: int,
    st: LevelState,
    cell: (i32, i32),
)
    requires
        1 <= gw && 1 <= gh,
        st.field.len() == gw * gh,
        0 <= cell.0 < gw && 0 <= cell.1 < gh,
    ensures
        ({
            let st1 = level_cell(src, refp, opts, level, global, lambdas, gw, gh, st, cell);
            let idx = cell.1 * gw + cell.0;
            let b = cell_bounds(src, opts, level, cell.0 as int, cell.1 as int);
            &&& st1.field.len() == st.field.len()
            &&& forall|i: int| 0 <= i < st.field.len() && i != idx ==> #[trigger] st1.field[i] == st.field[i]
            &&& box_in_i16(b) ==> in_box((st1.field[idx].dx as i32, st1.field[idx].dy as i32), b)
        }),
{
    let bx = cell.0 as int;
    let by = cell.1 as int;
    assert(0 <= by * gw + bx < gw * gh) by (nonlinear_arith)
        requires
            0 <= bx < gw,
            0 <= by < gh,
    ;
    let s = block_search_of(src, refp, opts, level, st.field, lambdas, gw, bx, by);
    let (kind, radius, satd, try_many) = level_kind(opts, level);
    let pen = StartPenalties { pzero: opts.pzero, pglobal: opts.pglobal, pnbour: opts.pnbour };
    let best = search_block_spec(
        s,
        st.field[by * gw + bx].score != u32::MAX,
        clip_spec((0i32, 0i32), s.bounds),
        clip_spec(global, s.bounds),
        seeds(st.field, st.processed, gw, gh, bx, by),
        pen,
        kind,
        radius,
        try_many,
    );
    lemma_search_block_box(s, st.field[by * gw + bx].score != u32::MAX, clip_spec((0i32, 0i32), s.bounds),
        clip_spec(global, s.bounds), seeds(st.field, st.processed, gw, gh, bx, by), pen, kind, radius, try_many);
    lemma_bad_search_box(s, opts, best);
    assert(s.bounds == cell_bounds(src, opts, level, bx, by));
}

/// The level's search writes only the entries of the blocks of `order`,
/// and leaves each of those with a vector inside the block's bounds
/// (where those lie within `i16`, so that the field holds the vector as
/// found).
pub proof fn lemma_level_fold_frame<'a>(
    src: &'a SuperPlanes<'a>,
    refp: &'a SuperPlanes<'a>,
    opts: AnalyseOpts,
    level: int,
    global: (i32, i32),
    lambdas: Seq<i32>,
    gw: int,
    gh: int,
    st: LevelState,
    order: Seq<(i32, i32)>,
)
    requires
        1 <= gw && 1 <= gh,
        st.field.len() == gw * gh,
        forall|k: int| 0 <= k < order.len() ==> 0 <= (#[trigger] order[k]).0 < gw && 0 <= order[k].1 < gh,
    ensures
        ({
            let f = level_fold(src, refp, opts, level, global, lambdas, gw, gh, st, order).field;
            &&& f.len() == st.field.len()
            &&& forall|i: int| 0 <= i < f.len() && unvisited(order, gw, i) ==> #[trigger] f[i] == st.field[i]
            &&& forall|k: int| 0 <= k < order.len() && box_in_i16(#[trigger] cell_bounds(src, opts, level, order[k].0 as int, order[k].1 as int))
                ==> in_box((f[order[k].1 * gw + order[k].0].dx as i32, f[order[k].1 * gw + order[k].0].dy as i32),
                    cell_bounds(src, opts, level, order[k].0 as int, order[k].1 as int))
        }),
    decreases order.len(),
{
    if order.len() > 0 {
        let c0 = order[0];
        let st1 = level_cell(src, refp, opts, level, global, lambdas, gw, gh, st, c0);
        let rest = order.drop_first();
        lemma_cell_entry_box(src, refp, opts, level, global, lambdas, gw, gh, st, c0);
        assert forall|k: int| 0 <= k < rest.len() implies 0 <= (#[trigger] rest[k]).0 < gw && 0 <= rest[k].1 < gh by {
            assert(rest[k] == order[k + 1]);
        }
        lemma_level_fold_frame(src, refp, opts, level, global, lambdas, gw, gh, st1, rest);
        let f = level_fold(src, refp, opts, level, global, lambdas, gw, gh, st, order).field;
        assert(f == level_fold(src, refp, opts, level, global, lambdas, gw, gh, st1, rest).field);
        let idx0 = c0.1 * gw + c0.0;
        assert forall|i: int| 0 <= i < f.len() && unvisited(order, gw, i) implies #[trigger] f[i] == st.field[i] by {
            assert(order[0] == c0);
            assert forall|k: int| 0 <= k < rest.len() implies (#[trigger] rest[k]).1 * gw + rest[k].0 != i by {
                assert(rest[k] == order[k + 1]);
            }
            assert(unvisited(rest, gw, i));
        }
        assert forall|k: int| 0 <= k < order.len() && box_in_i16(#[trigger] cell_bounds(src, opts, level, order[k].0 as int, order[k].1 as int))
            implies in_box((f[order[k].1 * gw + order[k].0].dx as i32, f[order[k].1 * gw + order[k].0].dy as i32),
                cell_bounds(src, opts, level, order[k].0 as int, order[k].1 as int)) by {
            if k > 0 {
                assert(rest[k - 1] == order[k]);
                assert(box_in_i16(cell_bounds(src, opts, level, rest[k - 1].0 as int, rest[k - 1].1 as int)));
            } else if unvisited(rest, gw, idx0) {
                assert(0 <= c0.1 * gw + c0.0 < gw * gh) by (nonlinear_arith)
                    requires
                        0 <= c0.0 < gw,
                        0 <= c0.1 < gh,
                ;
            } else {
                let k2 = choose|k2: int| 0 <= k2 < rest.len() && !((#[trigger] rest[k2]).1 * gw + rest[k2].0 != idx0);
                let c2 = rest[k2];
                assert(c2 == c0) by {
                    assert(c2.1 * gw + c2.0 == c0.1 * gw + c0.0);
                    if c2.1 < c0.1 {
                        assert(c2.1 * gw + c2.0 < c0.1 * gw + c0.0) by (nonlinear_arith)
                            requires
                                0 <= c2.0 < gw,
                                0 <= c0.0,
                                c2.1 < c0.1,
                        ;
                    } else if c0.1 < c2.1 {
                        assert(c0.1 * gw + c0.0 < c2.1 * gw + c2.0) by (nonlinear_arith)
                            requires
                                0 <= c0.0 < gw,
                                0 <= c2.0,
                                c0.1 < c2.1,
                        ;
                    }
                }
                assert(box_in_i16(cell_bounds(src, opts, level, rest[k2].0 as int, rest[k2].1 as int)));
            }
        }
    }
}

} // verus!
