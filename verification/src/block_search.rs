//! The search for one block's vector: candidate vectors are checked one by
//! one against the best so far, by a cost that adds a penalty for the
//! distance from the predictor to the matching cost (see `block_cost`).
//! The patterns (expanding squares, hexagons, the uneven multi-hexagon)
//! are sequences of such checks.
use vstd::prelude::*;
use crate::analyse_search::{SuperPlanes, motion_penalty_spec, exact_motion_penalty, exact_clip, exact_clip_spec};
use crate::block_cost::{
    cost_ok, mv_small, exact_sad_spec, exact_sad, lc_spec, edge_cost_spec, luma_interior_spec, chroma_spec,
    level_w, level_h, block_cost_luma_interior, chroma_sad_x4, lemma_edge_fits, sat_u32,
};
use crate::search_order::{edge_shift_origins, edge_shift_spec};

verus! {

/// The best vector found so far, its matching cost and its full cost.
#[derive(Clone, Copy, Debug)]
pub struct SearchBest {
    pub mv: (i32, i32),
    pub sad: u32,
    pub cost: i64,
}

/// One block's search: the current and the reference super clip, the
/// block's level, corner and size, how it is costed, and the penalty
/// terms (predictor, vector bounds, lambda and the new-vector penalty).
#[derive(Clone, Copy)]
pub struct BlockSearch<'a> {
    pub src: &'a SuperPlanes<'a>,
    pub refp: &'a SuperPlanes<'a>,
    pub level: i32,
    pub px: i32,
    pub py: i32,
    pub bw: i32,
    pub bh: i32,
    pub pel: i32,
    pub satd: bool,
    pub predictor: (i32, i32),
    pub bounds: (i32, i32, i32, i32),
    pub lambda: i32,
    pub pnew: i32,
}

/// A coordinate of at most `2^18` either way: four times a side of a
/// super clip's plane, which its handle holds in 16 bits.
pub open spec fn coord_near(v: int) -> bool {
    -0x40000 <= v <= 0x40000
}

/// Whether `lambda` times the largest squared distance of two vectors
/// in the closed box of `bounds` stays within `2^62`, so that a distance
/// penalty and a matching cost together stay within `i64`.
pub open spec fn penalty_room(lambda: int, bounds: (i32, i32, i32, i32)) -> bool {
    let w = bounds.2 - bounds.0;
    let h = bounds.3 - bounds.1;
    -0x4000000000000000 <= lambda * (w * w + h * h) <= 0x4000000000000000
}

/// Whether the search's arithmetic stays in range: small planes and
/// block (see `cost_ok`), bounds within `2^18`, the predictor inside the
/// bounds' closed box, room for the distance penalty (see
/// `penalty_room`) and a new-vector penalty within `2^20`.
pub open spec fn search_ok(s: BlockSearch) -> bool {
    &&& s.pel <= 4
    &&& cost_ok(s.src, s.level as int, s.px as int, s.py as int, s.bw as int, s.bh as int, if s.pel < 1 { 1 } else { s.pel as int })
    &&& coord_near(s.bounds.0 as int) && coord_near(s.bounds.1 as int) && coord_near(s.bounds.2 as int) && coord_near(s.bounds.3 as int)
    &&& s.bounds.0 <= s.predictor.0 <= (if s.bounds.2 - 1 < s.bounds.0 { s.bounds.0 as int } else { s.bounds.2 - 1 })
    &&& s.bounds.1 <= s.predictor.1 <= (if s.bounds.3 - 1 < s.bounds.1 { s.bounds.1 as int } else { s.bounds.3 - 1 })
    &&& penalty_room(s.lambda as int, s.bounds)
    &&& -0x100000 <= s.pnew <= 0x100000
}

/// Whether `mv` lies inside the half-open bounds.
pub open spec fn in_bounds(mv: (i32, i32), bounds: (i32, i32, i32, i32)) -> bool {
    mv.0 >= bounds.0 && mv.1 >= bounds.1 && mv.0 < bounds.2 && mv.1 < bounds.3
}

/// The matching cost of the block for `mv`.
#[verifier::opaque]
pub open spec fn sad_of(s: BlockSearch, mv: (i32, i32)) -> int {
    exact_sad_spec(s.src, s.refp, s.level as int, s.px as int, s.py as int, s.bw as int, s.bh as int, mv, s.satd, s.pel as int)
}

/// A matching cost plus its new-vector penalty (`pnew / 256` of it,
/// rounded down).
pub open spec fn with_pnew(pnew: int, sad: int) -> int {
    sad + (pnew * sad) / 256
}

/// The full cost of `mv`: the distance penalty plus the matching cost
/// with its new-vector penalty.
pub open spec fn cost_of(s: BlockSearch, mv: (i32, i32)) -> int {
    motion_penalty_spec(s.lambda as int, s.predictor, mv) + with_pnew(s.pnew as int, sad_of(s, mv))
}

/// What checking `mv` makes of `best`: `mv` takes its place when it lies
/// inside the bounds, its distance penalty alone is below the best cost,
/// and its full cost is below the best cost.
pub open spec fn check_spec(s: BlockSearch, best: SearchBest, mv: (i32, i32)) -> SearchBest {
    if in_bounds(mv, s.bounds) && motion_penalty_spec(s.lambda as int, s.predictor, mv) < best.cost && cost_of(s, mv) < best.cost {
        SearchBest { mv, sad: sad_of(s, mv) as u32, cost: cost_of(s, mv) as i64 }
    } else {
        best
    }
}

/// Vectors inside small bounds are small, and their penalties stay in
/// range.
proof fn lemma_in_bounds_small(s: BlockSearch, mv: (i32, i32))
    requires
        search_ok(s),
        in_bounds(mv, s.bounds),
    ensures
        mv_small(mv.0 as int, mv.1 as int),
        crate::analyse_search::motion_penalty_fits(s.lambda as int, s.predictor, mv),
        -0x80000000000000 <= motion_penalty_spec(s.lambda as int, s.predictor, mv) <= 0x80000000000000,
{
    let dx = s.predictor.0 - mv.0;
    let dy = s.predictor.1 - mv.1;
    let w = s.bounds.2 - s.bounds.0;
    let h = s.bounds.3 - s.bounds.1;
    assert(0 <= dx * dx <= w * w) by (nonlinear_arith)
        requires
            -w <= dx <= w,
    ;
    assert(0 <= dy * dy <= h * h) by (nonlinear_arith)
        requires
            -h <= dy <= h,
    ;
    let d = dx * dx + dy * dy;
    let big = w * w + h * h;
    assert(big <= 0x8000000000) by (nonlinear_arith)
        requires
            0 <= w <= 0x80000,
            0 <= h <= 0x80000,
            big == w * w + h * h,
    ;
    let lam = s.lambda as int;
    assert(-0x4000000000000000 <= lam * d <= 0x4000000000000000) by (nonlinear_arith)
        requires
            0 <= d <= big,
            -0x4000000000000000 <= lam * big <= 0x4000000000000000,
    ;
}

/// Matching costs and their penalties stay far inside `i64`.
proof fn lemma_with_pnew_range(pnew: int, sad: int)
    requires
        -0x100000 <= pnew <= 0x100000,
        0 <= sad <= u32::MAX,
    ensures
        -0x10000000000000 <= with_pnew(pnew, sad) <= 0x10000000000000,
{
    assert(-0x100000 * 0x100000000 <= pnew * sad <= 0x100000 * 0x100000000) by (nonlinear_arith)
        requires
            -0x100000 <= pnew <= 0x100000,
            0 <= sad <= 0x100000000,
    ;
}

/// With a non-negative new-vector penalty, a larger matching cost never
/// costs less.
proof fn lemma_with_pnew_mono(pnew: int, a: int, b: int)
    requires
        pnew >= 0,
        0 <= a <= b,
    ensures
        with_pnew(pnew, a) <= with_pnew(pnew, b),
{
    assert(pnew * a <= pnew * b) by (nonlinear_arith)
        requires
            pnew >= 0,
            a <= b,
    ;
    vstd::arithmetic::div_mod::lemma_div_is_ordered(pnew * a, pnew * b, 256);
}

/// `pnew * sad / 256` (rounded down) in `i64`.
fn pnew_term(pnew: i32, sad: u32) -> (r: i64)
    requires
        -0x100000 <= pnew <= 0x100000,
    ensures
        r == (pnew * sad) / 256,
{
    proof {
        assert(-0x100000 * 0x100000000 <= pnew * sad <= 0x100000 * 0x100000000) by (nonlinear_arith)
            requires
                -0x100000 <= pnew <= 0x100000,
                0 <= sad <= 0x100000000,
        ;
    }
    let v = (pnew as i64) * (sad as i64);
    if v >= 0 {
        v / 256
    } else {
        -((-v + 255) / 256)
    }
}

/// The matching cost of `mv`, unless its luma part alone already makes
/// the full cost (with `motion`, the distance penalty) reach `best_cost`:
/// then `None`, and the full cost is indeed at least `best_cost`. On the
/// full level with a sub-pixel pel, a vector that takes the block out
/// past the top or left edge is always costed in full, as is every
/// vector when the new-vector penalty is negative.
pub fn exact_sad_if_better(s: &BlockSearch, mv: (i32, i32), motion: i64, best_cost: i64) -> (r: Option<u32>)
    requires
        search_ok(*s),
        mv_small(mv.0 as int, mv.1 as int),
        -0x80000000000000 <= motion <= 0x80000000000000,
    ensures
        match r {
            Some(sad) => sad == sad_of(*s, mv),
            None => motion + with_pnew(s.pnew as int, sad_of(*s, mv)) >= best_cost && s.pnew >= 0,
        },
{
    let pel = if s.pel < 1 { 1 } else { s.pel };
    proof {
        reveal(sad_of);
        crate::super_build::lemma_reduce_bounds(s.src.luma_w as int, s.level as int);
        crate::super_build::lemma_reduce_bounds(s.src.luma_h as int, s.level as int);
    }
    let (lw, lh) = s.src.level_size(s.level);
    let ghost p = pel as int;
    let mut shifted_edge = false;
    if s.level == 0 && pel >= 2 {
        proof {
            assert(0 <= pel * s.px <= 0x40000 && 0 <= pel * s.py <= 0x40000) by (nonlinear_arith)
                requires
                    1 <= pel <= 4,
                    0 <= s.px <= 0x10000,
                    0 <= s.py <= 0x10000,
            ;
            assert(-pel * s.px == -(pel * s.px) && -pel * s.py == -(pel * s.py)) by (nonlinear_arith);
        }
        if mv.0 < -pel * s.px || mv.1 < -pel * s.py {
            proof {
                lemma_edge_fits(s.px as int, s.py as int, mv.0 as int, mv.1 as int, s.bw as int, s.bh as int, lw as int, lh as int, pel as int);
            }
            shifted_edge = edge_shift_origins(s.px, s.py, mv.0, mv.1, s.bw, s.bh, lw as i32, lh as i32, pel).is_some();
        }
    }
    let ghost edge = edge_cost_spec(s.src, s.refp, s.level as int, s.px as int, s.py as int, s.bw as int, s.bh as int, mv.0 as int, mv.1 as int, s.satd, p);
    assert(shifted_edge == (s.level == 0 && p >= 2 && (mv.0 < -p * s.px || mv.1 < -p * s.py) && edge is Some));
    if shifted_edge || s.pnew < 0 {
        return Some(exact_sad(s.src, s.refp, s.level, s.px, s.py, s.bw, s.bh, mv, s.satd, s.pel));
    }
    let luma = block_cost_luma_interior(s.src, s.refp, s.level, s.px, s.py, s.bw as usize, s.bh as usize, mv.0, mv.1, s.satd, pel);
    proof {
        lemma_with_pnew_range(s.pnew as int, luma as int);
    }
    let lower_bound = motion + luma as i64 + pnew_term(s.pnew, luma);
    let ghost lc = lc_spec(s.src, s.refp, s.level as int, s.px as int, s.py as int, s.bw as int, s.bh as int, mv.0 as int, mv.1 as int, s.satd, s.pel as int);
    assert(lc.0 == luma);
    if lower_bound >= best_cost {
        proof {
            crate::block_cost::lemma_lc_range(s.src, s.refp, s.level as int, s.px as int, s.py as int, s.bw as int, s.bh as int, mv.0 as int, mv.1 as int, s.satd, s.pel as int);
            assert(sad_of(*s, mv) == sat_u32(lc.0 + lc.1));
            lemma_with_pnew_mono(s.pnew as int, luma as int, sad_of(*s, mv));
        }
        return None;
    }
    let chroma = chroma_sad_x4(s.src, s.refp, s.level, pel, mv.0, mv.1, s.px as usize, s.py as usize, s.bw as usize, s.bh as usize, lw, lh);
    Some(luma.saturating_add(chroma))
}

/// Checks `mv` against `best` (see `check_spec`). When the luma part of
/// the matching cost already makes the full cost reach the best cost, the
/// chroma part is not taken; the outcome is the same as with the full
/// cost.
pub fn exact_check(s: &BlockSearch, mv: (i32, i32), best: &mut SearchBest)
    requires
        search_ok(*s),
    ensures
        *final(best) == check_spec(*s, *old(best), mv),
{
    if !(mv.0 >= s.bounds.0 && mv.1 >= s.bounds.1 && mv.0 < s.bounds.2 && mv.1 < s.bounds.3) {
        return;
    }
    proof {
        lemma_in_bounds_small(*s, mv);
    }
    let motion = exact_motion_penalty(s.lambda, s.predictor, mv);
    if motion >= best.cost {
        return;
    }
    let sad = match exact_sad_if_better(s, mv, motion, best.cost) {
        Some(v) => v,
        None => return,
    };
    proof {
        lemma_with_pnew_range(s.pnew as int, sad as int);
    }
    let cost = motion + sad as i64 + pnew_term(s.pnew, sad);
    if cost < best.cost {
        *best = SearchBest { mv, sad, cost };
    }
}


/// The best after checking each of `mvs` in turn.
pub open spec fn checks(s: BlockSearch, best: SearchBest, mvs: Seq<(i32, i32)>) -> SearchBest
    decreases mvs.len(),
{
    if mvs.len() == 0 {
        best
    } else {
        checks(s, check_spec(s, best, mvs[0]), mvs.drop_first())
    }
}

/// Checking two runs of vectors is checking the first, then the second.
pub proof fn lemma_checks_append(s: BlockSearch, best: SearchBest, a: Seq<(i32, i32)>, b: Seq<(i32, i32)>)
    ensures
        checks(s, best, a + b) == checks(s, checks(s, best, a), b),
    decreases a.len(),
{
    if a.len() == 0 {
        assert(a + b =~= b);
    } else {
        assert((a + b).drop_first() =~= a.drop_first() + b);
        assert((a + b)[0] == a[0]);
        lemma_checks_append(s, check_spec(s, best, a[0]), a.drop_first(), b);
    }
}

/// A vector within `2^18` either way.
pub open spec fn mv_near(mv: (i32, i32)) -> bool {
    -0x40000 <= mv.0 <= 0x40000 && -0x40000 <= mv.1 <= 0x40000
}

/// Checks keep the best vector near: a new best lies inside the bounds.
pub proof fn lemma_checks_near(s: BlockSearch, best: SearchBest, mvs: Seq<(i32, i32)>)
    requires
        search_ok(s),
        mv_near(best.mv),
    ensures
        mv_near(checks(s, best, mvs).mv),
    decreases mvs.len(),
{
    if mvs.len() > 0 {
        lemma_checks_near(s, check_spec(s, best, mvs[0]), mvs.drop_first());
    }
}

/// The vector `(x, y)`.
pub open spec fn at(x: int, y: int) -> (i32, i32) {
    (x as i32, y as i32)
}

/// The top and bottom sides of the square of half-width `r` around `c`,
/// from offset `i` on in steps of `step`, two vectors per offset.
pub open spec fn ring_rows(c: (i32, i32), r: int, step: int, i: int) -> Seq<(i32, i32)>
    decreases if i >= r { 0 } else { r - i },
{
    if step < 1 || i >= r {
        Seq::empty()
    } else {
        seq![at(c.0 + i, c.1 - r), at(c.0 + i, c.1 + r)] + ring_rows(c, r, step, i + step)
    }
}

/// The left and right sides of the square, likewise.
pub open spec fn ring_cols(c: (i32, i32), r: int, step: int, j: int) -> Seq<(i32, i32)>
    decreases if j >= r { 0 } else { r - j },
{
    if step < 1 || j >= r {
        Seq::empty()
    } else {
        seq![at(c.0 - r, c.1 + j), at(c.0 + r, c.1 + j)] + ring_cols(c, r, step, j + step)
    }
}

/// The corners of the square.
pub open spec fn ring_corners(c: (i32, i32), r: int) -> Seq<(i32, i32)> {
    seq![at(c.0 - r, c.1 - r), at(c.0 - r, c.1 + r), at(c.0 + r, c.1 - r), at(c.0 + r, c.1 + r)]
}

/// The vectors the expanding search checks, in order: the top and bottom
/// sides, the left and right sides, then the corners.
pub open spec fn expanding_candidates(c: (i32, i32), r: int, step: int) -> Seq<(i32, i32)> {
    ring_rows(c, r, step, -r + step) + ring_cols(c, r, step, -r + step) + ring_corners(c, r)
}

/// Unfolds a check of two leading vectors.
proof fn lemma_checks_two(s: BlockSearch, best: SearchBest, p: (i32, i32), q: (i32, i32), rest: Seq<(i32, i32)>)
    ensures
        checks(s, best, seq![p, q] + rest) == checks(s, check_spec(s, check_spec(s, best, p), q), rest),
{
    let t = seq![p, q] + rest;
    let u = seq![q] + rest;
    assert(t.len() > 0 && t[0] == p);
    assert(t.drop_first() =~= u);
    assert(checks(s, best, t) == checks(s, check_spec(s, best, p), u));
    assert(u.len() > 0 && u[0] == q);
    assert(u.drop_first() =~= rest);
    let b1 = check_spec(s, best, p);
    assert(checks(s, b1, u) == checks(s, check_spec(s, b1, q), rest));
}

/// Checks the square of half-width `radius` around `center`, sides in
/// steps of `step` (see `expanding_candidates`).
pub fn exact_expanding(s: &BlockSearch, center: (i32, i32), radius: i32, step: i32, best: &mut SearchBest)
    requires
        search_ok(*s),
        mv_near(center),
        0 <= radius <= 0x7ff0_0000,
        1 <= step <= 0x10000,
    ensures
        *final(best) == checks(*s, *old(best), expanding_candidates(center, radius as int, step as int)),
        s.pnew >= 0 && radius >= 1 ==> final(best).cost <= old(best).cost,
        s.pnew >= 0 && radius >= 1 ==> forall|dx: int, dy: int|
            #![trigger on_square_axis(dx, radius as int, step as int), on_square_axis(dy, radius as int, step as int)]
            on_square_axis(dx, radius as int, step as int) && on_square_axis(dy, radius as int, step as int)
            && (dx == -radius || dx == radius || dy == -radius || dy == radius)
            && in_bounds(at(center.0 + dx, center.1 + dy), s.bounds)
            ==> final(best).cost <= cost_of(*s, at(center.0 + dx, center.1 + dy)),
{
    let ghost target = checks(*s, *old(best), expanding_candidates(center, radius as int, step as int));
    let ghost start = *best;
    let ghost cols = ring_cols(center, radius as int, step as int, -radius + step);
    let ghost corners = ring_corners(center, radius as int);
    proof {
        assert(expanding_candidates(center, radius as int, step as int) =~= ring_rows(center, radius as int, step as int, -radius + step) + (cols + corners));
    }
    let mut i = -radius + step;
    while i < radius
        invariant
            search_ok(*s),
            mv_near(center),
            0 <= radius <= 0x7ff0_0000,
            1 <= step <= 0x10000,
            -radius + step <= i <= radius + step,
            cols == ring_cols(center, radius as int, step as int, -radius + step),
            corners == ring_corners(center, radius as int),
            checks(*s, *best, ring_rows(center, radius as int, step as int, i as int) + (cols + corners)) == target,
        decreases radius + step - i,
    {
        let ghost b0 = *best;
        let p = (center.0 + i, center.1 - radius);
        let q = (center.0 + i, center.1 + radius);
        proof {
            let rest = ring_rows(center, radius as int, step as int, i + step);
            assert(ring_rows(center, radius as int, step as int, i as int) == seq![p, q] + rest);
            assert(seq![p, q] + rest + (cols + corners) =~= seq![p, q] + (rest + (cols + corners)));
            lemma_checks_two(*s, b0, p, q, rest + (cols + corners));
        }
        exact_check(s, p, best);
        exact_check(s, q, best);
        i = i + step;
    }
    proof {
        assert(ring_rows(center, radius as int, step as int, i as int) =~= Seq::<(i32, i32)>::empty());
        assert(Seq::<(i32, i32)>::empty() + (cols + corners) =~= cols + corners);
    }
    let mut j = -radius + step;
    while j < radius
        invariant
            search_ok(*s),
            mv_near(center),
            0 <= radius <= 0x7ff0_0000,
            1 <= step <= 0x10000,
            -radius + step <= j <= radius + step,
            corners == ring_corners(center, radius as int),
            checks(*s, *best, ring_cols(center, radius as int, step as int, j as int) + corners) == target,
        decreases radius + step - j,
    {
        let ghost b0 = *best;
        let p = (center.0 - radius, center.1 + j);
        let q = (center.0 + radius, center.1 + j);
        proof {
            let rest = ring_cols(center, radius as int, step as int, j + step);
            assert(ring_cols(center, radius as int, step as int, j as int) == seq![p, q] + rest);
            assert(seq![p, q] + rest + corners =~= seq![p, q] + (rest + corners));
            lemma_checks_two(*s, b0, p, q, rest + corners);
        }
        exact_check(s, p, best);
        exact_check(s, q, best);
        j = j + step;
    }
    proof {
        assert(ring_cols(center, radius as int, step as int, j as int) =~= Seq::<(i32, i32)>::empty());
        assert(Seq::<(i32, i32)>::empty() + corners =~= corners);
    }
    let c0 = (center.0 - radius, center.1 - radius);
    let c1 = (center.0 - radius, center.1 + radius);
    let c2 = (center.0 + radius, center.1 - radius);
    let c3 = (center.0 + radius, center.1 + radius);
    let ghost b0 = *best;
    proof {
        assert(corners =~= seq![c0, c1] + seq![c2, c3]);
        lemma_checks_two(*s, b0, c0, c1, seq![c2, c3]);
        let b2 = check_spec(*s, check_spec(*s, b0, c0), c1);
        assert(seq![c2, c3] =~= seq![c2, c3] + Seq::<(i32, i32)>::empty());
        lemma_checks_two(*s, b2, c2, c3, Seq::<(i32, i32)>::empty());
    }
    exact_check(s, c0, best);
    exact_check(s, c1, best);
    exact_check(s, c2, best);
    exact_check(s, c3, best);
    proof {
        if s.pnew >= 0 && radius >= 1 {
            lemma_checks_le(*s, start, expanding_candidates(center, radius as int, step as int), center);
            assert forall|dx: int, dy: int|
                #![trigger on_square_axis(dx, radius as int, step as int), on_square_axis(dy, radius as int, step as int)]
                on_square_axis(dx, radius as int, step as int) && on_square_axis(dy, radius as int, step as int)
                && (dx == -radius || dx == radius || dy == -radius || dy == radius)
                && in_bounds(at(center.0 + dx, center.1 + dy), s.bounds)
                implies best.cost <= cost_of(*s, at(center.0 + dx, center.1 + dy)) by {
                lemma_square_search_covers(*s, start, center, radius as int, step as int, dx, dy);
            }
        }
    }
}


/// The six vectors of the small hexagon around `c`.
pub open spec fn hex_around(c: (i32, i32)) -> Seq<(i32, i32)> {
    seq![at(c.0 - 2, c.1 as int), at(c.0 - 1, c.1 + 2), at(c.0 + 1, c.1 + 2), at(c.0 + 2, c.1 as int), at(c.0 + 1, c.1 - 2), at(c.0 - 1, c.1 - 2)]
}

/// Up to `n` hexagon rounds, each around the best vector so far, stopping
/// after a round that keeps it.
pub open spec fn hex_steps(s: BlockSearch, best: SearchBest, n: int) -> SearchBest
    decreases if n <= 0 { 0 } else { n },
{
    if n <= 0 {
        best
    } else {
        let b2 = checks(s, best, hex_around(best.mv));
        if b2.mv == best.mv { b2 } else { hex_steps(s, b2, n - 1) }
    }
}

/// The hexagon search: for a radius above 1, up to `radius / 2` hexagon
/// rounds; then the square of half-width 1 around the best vector.
pub open spec fn hex2_spec(s: BlockSearch, best: SearchBest, radius: int) -> SearchBest {
    let b = if radius > 1 { hex_steps(s, best, if radius / 2 < 1 { 1 } else { radius / 2 }) } else { best };
    checks(s, b, expanding_candidates(b.mv, 1, 1))
}

/// Checks the six vectors of the hexagon around `center`.
fn hex_round(s: &BlockSearch, center: (i32, i32), best: &mut SearchBest)
    requires
        search_ok(*s),
        mv_near(center),
    ensures
        *final(best) == checks(*s, *old(best), hex_around(center)),
{
    let a = (center.0 - 2, center.1);
    let b = (center.0 - 1, center.1 + 2);
    let c = (center.0 + 1, center.1 + 2);
    let d = (center.0 + 2, center.1);
    let e = (center.0 + 1, center.1 - 2);
    let f = (center.0 - 1, center.1 - 2);
    let ghost b0 = *best;
    proof {
        let tail = seq![e, f] + Seq::<(i32, i32)>::empty();
        assert(hex_around(center) =~= seq![a, b] + (seq![c, d] + tail));
        lemma_checks_two(*s, b0, a, b, seq![c, d] + tail);
        let b2 = check_spec(*s, check_spec(*s, b0, a), b);
        lemma_checks_two(*s, b2, c, d, tail);
        let b4 = check_spec(*s, check_spec(*s, b2, c), d);
        lemma_checks_two(*s, b4, e, f, Seq::<(i32, i32)>::empty());
    }
    exact_check(s, a, best);
    exact_check(s, b, best);
    exact_check(s, c, best);
    exact_check(s, d, best);
    exact_check(s, e, best);
    exact_check(s, f, best);
}

/// The hexagon search (see `hex2_spec`).
pub fn exact_hex2(s: &BlockSearch, radius: i32, best: &mut SearchBest)
    requires
        search_ok(*s),
        mv_near(old(best).mv),
    ensures
        *final(best) == hex2_spec(*s, *old(best), radius as int),
{
    let ghost b_start = *best;
    let mut center = best.mv;
    if radius > 1 {
        let n = if radius / 2 < 1 { 1 } else { radius / 2 };
        let ghost target = hex_steps(*s, b_start, n as int);
        let mut k: i32 = 0;
        while k < n
            invariant_except_break
                0 <= k <= n,
                search_ok(*s),
                mv_near(best.mv),
                center == best.mv,
                hex_steps(*s, *best, (n - k) as int) == target,
            ensures
                search_ok(*s),
                mv_near(best.mv),
                center == best.mv,
                *best == target,
            decreases n - k,
        {
            let before = best.mv;
            let ghost b0 = *best;
            proof {
                lemma_checks_near(*s, b0, hex_around(center));
            }
            hex_round(s, center, best);
            if best.mv.0 == before.0 && best.mv.1 == before.1 {
                assert(best.mv == b0.mv);
                break;
            }
            center = best.mv;
            k = k + 1;
        }
        proof {
            assert(hex_steps(*s, *best, 0) == *best);
        }
    }
    exact_expanding(s, center, 1, 1, best);
}

/// The 16 offsets of the large hexagon of the uneven multi-hexagon search.
pub open spec fn hex4_deltas() -> Seq<(i32, i32)> {
    seq![(-4i32, 2i32), (-4i32, 1i32), (-4i32, 0i32), (-4i32, -1i32), (-4i32, -2i32), (4i32, -2i32), (4i32, -1i32), (4i32, 0i32),
        (4i32, 1i32), (4i32, 2i32), (2i32, 3i32), (0i32, 4i32), (-2i32, 3i32), (-2i32, -3i32), (0i32, -4i32), (2i32, -3i32)]
}

/// The large hexagon around `c`, its offsets times `scale`.
pub open spec fn hex4_ring(c: (i32, i32), scale: int) -> Seq<(i32, i32)> {
    Seq::new(16, |k: int| at(c.0 + hex4_deltas()[k].0 * scale, c.1 + hex4_deltas()[k].1 * scale))
}

/// The large hexagons for the scales from `scale` to `last`.
pub open spec fn umh_rings(c: (i32, i32), scale: int, last: int) -> Seq<(i32, i32)>
    decreases if scale > last { 0 } else { last - scale + 1 },
{
    if scale > last {
        Seq::empty()
    } else {
        hex4_ring(c, scale) + umh_rings(c, scale + 1, last)
    }
}

/// The cross around `c` at the odd distances from `d` up to (not
/// including) `radius`: left, right, up, down at each distance.
pub open spec fn umh_cross(c: (i32, i32), radius: int, d: int) -> Seq<(i32, i32)>
    decreases if d >= radius { 0 } else { radius - d },
{
    if d >= radius {
        Seq::empty()
    } else {
        seq![at(c.0 - d, c.1 as int), at(c.0 + d, c.1 as int), at(c.0 as int, c.1 - d), at(c.0 as int, c.1 + d)] + umh_cross(c, radius, d + 2)
    }
}

/// The uneven multi-hexagon search around `c`: the cross, the large
/// hexagons for the scales 1 to `radius / 4`, then the hexagon search.
pub open spec fn umh_spec(s: BlockSearch, best: SearchBest, c: (i32, i32), radius: int) -> SearchBest {
    hex2_spec(s, checks(s, best, umh_cross(c, radius, 1) + umh_rings(c, 1, radius / 4)), radius)
}

/// Checks the large hexagon around `center` at `scale`.
fn hex4_round(s: &BlockSearch, center: (i32, i32), scale: i32, best: &mut SearchBest)
    requires
        search_ok(*s),
        mv_near(center),
        1 <= scale <= 0x1ffc_0000,
    ensures
        *final(best) == checks(*s, *old(best), hex4_ring(center, scale as int)),
{
    let deltas: [(i32, i32); 16] = [(-4, 2), (-4, 1), (-4, 0), (-4, -1), (-4, -2), (4, -2), (4, -1), (4, 0),
        (4, 1), (4, 2), (2, 3), (0, 4), (-2, 3), (-2, -3), (0, -4), (2, -3)];
    assert(deltas@ =~= hex4_deltas());
    let ghost ring = hex4_ring(center, scale as int);
    let ghost target = checks(*s, *old(best), ring);
    proof {
        assert(ring.subrange(0, 16) =~= ring);
    }
    let mut k: usize = 0;
    while k < 16
        invariant
            0 <= k <= 16,
            search_ok(*s),
            mv_near(center),
            1 <= scale <= 0x1ffc_0000,
            deltas@ == hex4_deltas(),
            ring == hex4_ring(center, scale as int),
            checks(*s, *best, ring.subrange(k as int, 16)) == target,
        decreases 16 - k,
    {
        let (dx, dy) = deltas[k];
        proof {
            assert(-4 <= dx <= 4 && -4 <= dy <= 4);
            assert(-0x7ff0_0000 <= dx * scale <= 0x7ff0_0000 && -0x7ff0_0000 <= dy * scale <= 0x7ff0_0000) by (nonlinear_arith)
                requires
                    -4 <= dx <= 4,
                    -4 <= dy <= 4,
                    1 <= scale <= 0x1ffc_0000,
            ;
        }
        let mv = (center.0 + dx * scale, center.1 + dy * scale);
        proof {
            let rest = ring.subrange(k as int, 16);
            assert(rest[0] == mv);
            assert(rest.drop_first() =~= ring.subrange(k as int + 1, 16));
        }
        exact_check(s, mv, best);
        k = k + 1;
    }
    proof {
        assert(ring.subrange(16, 16) =~= Seq::<(i32, i32)>::empty());
    }
}

/// The uneven multi-hexagon search around `center` (see `umh_spec`).
pub fn exact_umh(s: &BlockSearch, center: (i32, i32), radius: i32, best: &mut SearchBest)
    requires
        search_ok(*s),
        mv_near(center),
        mv_near(old(best).mv),
        0 <= radius <= 0x7ff0_0000,
    ensures
        *final(best) == umh_spec(*s, *old(best), center, radius as int),
{
    let ghost cross = umh_cross(center, radius as int, 1);
    let ghost rings = umh_rings(center, 1, radius as int / 4);
    let ghost mid = checks(*s, *old(best), cross + rings);
    proof {
        lemma_checks_append(*s, *old(best), cross, rings);
    }
    let mut d: i32 = 1;
    while d < radius
        invariant
            1 <= d <= radius + 2,
            d % 2 == 1,
            search_ok(*s),
            mv_near(center),
            0 <= radius <= 0x7ff0_0000,
            rings == umh_rings(center, 1, radius as int / 4),
            checks(*s, checks(*s, *best, umh_cross(center, radius as int, d as int)), rings) == mid,
        decreases radius + 2 - d,
    {
        let ghost b0 = *best;
        let p1 = (center.0 - d, center.1);
        let p2 = (center.0 + d, center.1);
        let p3 = (center.0, center.1 - d);
        let p4 = (center.0, center.1 + d);
        proof {
            let rest = umh_cross(center, radius as int, d + 2);
            assert(umh_cross(center, radius as int, d as int) =~= seq![p1, p2] + (seq![p3, p4] + rest));
            lemma_checks_two(*s, b0, p1, p2, seq![p3, p4] + rest);
            let b2 = check_spec(*s, check_spec(*s, b0, p1), p2);
            lemma_checks_two(*s, b2, p3, p4, rest);
        }
        exact_check(s, p1, best);
        exact_check(s, p2, best);
        exact_check(s, p3, best);
        exact_check(s, p4, best);
        d = d + 2;
    }
    proof {
        assert(umh_cross(center, radius as int, d as int) =~= Seq::<(i32, i32)>::empty());
    }
    let last = radius / 4;
    let mut scale: i32 = 1;
    while scale <= last
        invariant
            1 <= scale <= last + 1,
            last == radius / 4,
            search_ok(*s),
            mv_near(center),
            0 <= radius <= 0x7ff0_0000,
            checks(*s, *best, umh_rings(center, scale as int, last as int)) == mid,
        decreases last + 1 - scale,
    {
        let ghost b0 = *best;
        proof {
            lemma_checks_append(*s, b0, hex4_ring(center, scale as int), umh_rings(center, scale + 1, last as int));
        }
        hex4_round(s, center, scale, best);
        scale = scale + 1;
    }
    proof {
        assert(umh_rings(center, scale as int, last as int) =~= Seq::<(i32, i32)>::empty());
        lemma_checks_near(*s, *old(best), cross + rings);
    }
    exact_hex2(s, radius, best);
}

/// Rounds of the expanding square around `c`, half-widths `r` to `last`.
pub open spec fn expand_rounds(s: BlockSearch, best: SearchBest, c: (i32, i32), r: int, last: int) -> SearchBest
    decreases if r > last { 0 } else { last - r + 1 },
{
    if r > last {
        best
    } else {
        expand_rounds(s, checks(s, best, expanding_candidates(c, r, 1)), c, r + 1, last)
    }
}

/// The search of kind `search_type` from `best`: 2 the hexagon search,
/// 3 the uneven multi-hexagon search around the best vector, 4 expanding
/// squares of half-width 1 to `radius` around it; any other kind keeps
/// `best`.
pub open spec fn refine_spec(s: BlockSearch, best: SearchBest, search_type: int, radius: int) -> SearchBest {
    if search_type == 2 {
        hex2_spec(s, best, radius)
    } else if search_type == 3 {
        umh_spec(s, best, best.mv, radius)
    } else if search_type == 4 {
        expand_rounds(s, best, best.mv, 1, radius)
    } else {
        best
    }
}

/// Refines `best` by the search of kind `search_type` (see
/// `refine_spec`).
pub fn exact_refine_search(s: &BlockSearch, search_type: i32, radius: i32, best: &mut SearchBest)
    requires
        search_ok(*s),
        mv_near(old(best).mv),
        0 <= radius <= 0x7ff0_0000,
    ensures
        *final(best) == refine_spec(*s, *old(best), search_type as int, radius as int),
{
    if search_type == 2 {
        exact_hex2(s, radius, best);
    } else if search_type == 3 {
        let center = best.mv;
        exact_umh(s, center, radius, best);
    } else if search_type == 4 {
        let center = best.mv;
        let ghost target = expand_rounds(*s, *old(best), center, 1, radius as int);
        let mut r: i32 = 1;
        while r <= radius
            invariant
                1 <= r <= radius + 1,
                search_ok(*s),
                mv_near(center),
                0 <= radius <= 0x7ff0_0000,
                expand_rounds(*s, *best, center, r as int, radius as int) == target,
            decreases radius + 1 - r,
        {
            exact_expanding(s, center, r, 1, best);
            r = r + 1;
        }
    }
}


/// `mv` clipped into the bounds.
pub open spec fn clip_spec(mv: (i32, i32), bounds: (i32, i32, i32, i32)) -> (i32, i32) {
    (exact_clip_spec(mv, bounds).0 as i32, exact_clip_spec(mv, bounds).1 as i32)
}

/// A start of the search: `mv` clipped, its matching cost, and as cost
/// the matching cost with `penalty / 256` of it added.
pub open spec fn start_spec(s: BlockSearch, mv: (i32, i32), penalty: int) -> SearchBest {
    let m = clip_spec(mv, s.bounds);
    SearchBest { mv: m, sad: sad_of(s, m) as u32, cost: with_pnew(penalty, sad_of(s, m)) as i64 }
}

/// `b` with its cost taken anew from its matching cost and `penalty`.
pub open spec fn recost(b: SearchBest, penalty: int) -> SearchBest {
    SearchBest { mv: b.mv, sad: b.sad, cost: with_pnew(penalty, b.sad as int) as i64 }
}

/// The first of `best` and `rest` with the lowest cost.
pub open spec fn min_from(best: SearchBest, rest: Seq<SearchBest>) -> SearchBest
    decreases rest.len(),
{
    if rest.len() == 0 {
        best
    } else {
        min_from(if rest[0].cost < best.cost { rest[0] } else { best }, rest.drop_first())
    }
}

/// The penalties of the starts: at the zero vector, at the global
/// vector, and at a neighbour's vector.
#[derive(Clone, Copy)]
pub struct StartPenalties {
    pub pzero: i32,
    pub pglobal: i32,
    pub pnbour: i32,
}

/// Penalties within `2^20` either way.
pub open spec fn penalties_ok(p: StartPenalties) -> bool {
    &&& -0x100000 <= p.pzero <= 0x100000
    &&& -0x100000 <= p.pglobal <= 0x100000
    &&& -0x100000 <= p.pnbour <= 0x100000
}

/// A start refined by the search of kind `search_type`, then costed
/// anew with its start's penalty.
pub open spec fn refined(s: BlockSearch, start: SearchBest, penalty: int, search_type: int, radius: int) -> SearchBest {
    recost(refine_spec(s, start, search_type, radius), penalty)
}

/// The neighbours' starts, each refined and costed anew.
pub open spec fn neighbour_results(s: BlockSearch, nbs: Seq<(i32, i32)>, pnbour: int, search_type: int, radius: int) -> Seq<SearchBest> {
    nbs.map_values(|mv: (i32, i32)| refined(s, start_spec(s, mv, pnbour), pnbour, search_type, radius))
}

/// The neighbours' starts.
pub open spec fn neighbour_starts(s: BlockSearch, nbs: Seq<(i32, i32)>, pnbour: int) -> Seq<SearchBest> {
    nbs.map_values(|mv: (i32, i32)| start_spec(s, mv, pnbour))
}

/// The search of one block. Starts are the zero vector, the global
/// vector, the predictor (when `field_valid`) and the neighbours'
/// vectors, each clipped and costed with its penalty. With `try_many`
/// every start is refined and costed anew, and the first cheapest result
/// is taken; otherwise the first cheapest start is refined.
pub open spec fn search_block_spec(
    s: BlockSearch,
    field_valid: bool,
    zero: (i32, i32),
    global: (i32, i32),
    nbs: Seq<(i32, i32)>,
    pen: StartPenalties,
    search_type: int,
    radius: int,
    try_many: bool,
) -> SearchBest {
    let z = start_spec(s, zero, pen.pzero as int);
    let g = start_spec(s, global, pen.pglobal as int);
    let f = start_spec(s, s.predictor, 0);
    if try_many {
        let fs = if field_valid { seq![refined(s, f, 0, search_type, radius)] } else { Seq::empty() };
        min_from(
            refined(s, z, pen.pzero as int, search_type, radius),
            seq![refined(s, g, pen.pglobal as int, search_type, radius)] + fs + neighbour_results(s, nbs, pen.pnbour as int, search_type, radius),
        )
    } else {
        let b1 = if g.cost < z.cost { g } else { z };
        let b2 = if field_valid && f.cost < b1.cost { f } else { b1 };
        refine_spec(s, min_from(b2, neighbour_starts(s, nbs, pen.pnbour as int)), search_type, radius)
    }
}

/// Clipped vectors lie inside the bounds' closed box, so near and small.
pub proof fn lemma_clip_near(s: BlockSearch, mv: (i32, i32))
    requires
        search_ok(s),
    ensures
        mv_near(clip_spec(mv, s.bounds)),
        mv_small(clip_spec(mv, s.bounds).0 as int, clip_spec(mv, s.bounds).1 as int),
{
}

/// A start of the search (see `start_spec`).
fn search_start(s: &BlockSearch, mv: (i32, i32), penalty: i32) -> (r: SearchBest)
    requires
        search_ok(*s),
        -0x100000 <= penalty <= 0x100000,
    ensures
        r == start_spec(*s, mv, penalty as int),
        mv_near(r.mv),
{
    let m = exact_clip(mv, s.bounds);
    proof {
        lemma_clip_near(*s, mv);
        reveal(sad_of);
        crate::block_cost::lemma_lc_range(s.src, s.refp, s.level as int, s.px as int, s.py as int, s.bw as int, s.bh as int, m.0 as int, m.1 as int, s.satd, s.pel as int);
    }
    let sad = exact_sad(s.src, s.refp, s.level, s.px, s.py, s.bw, s.bh, m, s.satd, s.pel);
    proof {
        lemma_with_pnew_range(penalty as int, sad as int);
    }
    SearchBest { mv: m, sad, cost: sad as i64 + pnew_term(penalty, sad) }
}

/// Refines a start by the search of kind `search_type` and costs it
/// anew (see `refined`).
fn refine_start(s: &BlockSearch, start: SearchBest, penalty: i32, search_type: i32, radius: i32) -> (r: SearchBest)
    requires
        search_ok(*s),
        mv_near(start.mv),
        -0x100000 <= penalty <= 0x100000,
        0 <= radius <= 0x7ff0_0000,
    ensures
        r == refined(*s, start, penalty as int, search_type as int, radius as int),
{
    let mut b = start;
    exact_refine_search(s, search_type, radius, &mut b);
    proof {
        lemma_with_pnew_range(penalty as int, b.sad as int);
    }
    b.cost = b.sad as i64 + pnew_term(penalty, b.sad);
    b
}

/// The search of one block (see `search_block_spec`).
pub fn exact_search_block(
    s: &BlockSearch,
    field_valid: bool,
    zero: (i32, i32),
    global: (i32, i32),
    neighbours: &[(i32, i32)],
    pen: StartPenalties,
    search_type: i32,
    radius: i32,
    try_many: bool,
) -> (r: SearchBest)
    requires
        search_ok(*s),
        penalties_ok(pen),
        0 <= radius <= 0x7ff0_0000,
    ensures
        r == search_block_spec(*s, field_valid, zero, global, neighbours@, pen, search_type as int, radius as int, try_many),
{
    let zero_best = search_start(s, zero, pen.pzero);
    let global_best = search_start(s, global, pen.pglobal);
    let field = search_start(s, s.predictor, 0);
    let n = neighbours.len();
    if try_many {
        let ghost fs = if field_valid { seq![refined(*s, field, 0, search_type as int, radius as int)] } else { Seq::<SearchBest>::empty() };
        let ghost nres = neighbour_results(*s, neighbours@, pen.pnbour as int, search_type as int, radius as int);
        let ghost target = search_block_spec(*s, field_valid, zero, global, neighbours@, pen, search_type as int, radius as int, try_many);
        let mut best = refine_start(s, zero_best, pen.pzero, search_type, radius);
        let g = refine_start(s, global_best, pen.pglobal, search_type, radius);
        proof {
            let rest = seq![g] + fs + nres;
            assert(rest.len() > 0 && rest[0] == g);
            assert(rest.drop_first() =~= fs + nres);
            assert(target == min_from(best, rest));
        }
        if g.cost < best.cost {
            best = g;
        }
        assert(min_from(best, fs + nres) == target);
        if field_valid {
            let f = refine_start(s, field, 0, search_type, radius);
            proof {
                let rest = fs + nres;
                assert(rest.len() > 0 && rest[0] == f);
                assert(rest.drop_first() =~= nres);
            }
            if f.cost < best.cost {
                best = f;
            }
        } else {
            assert(fs + nres =~= nres);
        }
        assert(min_from(best, nres) == target);
        proof {
            assert(nres.subrange(0, n as int) =~= nres);
        }
        let mut k: usize = 0;
        while k < n
            invariant
                0 <= k <= n,
                n == neighbours@.len(),
                search_ok(*s),
                penalties_ok(pen),
                0 <= radius <= 0x7ff0_0000,
                nres == neighbour_results(*s, neighbours@, pen.pnbour as int, search_type as int, radius as int),
                nres.len() == n,
                min_from(best, nres.subrange(k as int, n as int)) == target,
            decreases n - k,
        {
            let st = search_start(s, neighbours[k], pen.pnbour);
            let res = refine_start(s, st, pen.pnbour, search_type, radius);
            proof {
                let rest = nres.subrange(k as int, n as int);
                assert(rest[0] == res);
                assert(rest.drop_first() =~= nres.subrange(k as int + 1, n as int));
            }
            if res.cost < best.cost {
                best = res;
            }
            k = k + 1;
        }
        proof {
            assert(nres.subrange(n as int, n as int) =~= Seq::<SearchBest>::empty());
        }
        return best;
    }
    let mut best = zero_best;
    if global_best.cost < best.cost {
        best = global_best;
    }
    if field_valid && field.cost < best.cost {
        best = field;
    }
    let ghost starts = neighbour_starts(*s, neighbours@, pen.pnbour as int);
    let ghost chosen = min_from(best, starts);
    proof {
        assert(starts.subrange(0, n as int) =~= starts);
    }
    let mut k: usize = 0;
    while k < n
        invariant
            0 <= k <= n,
            n == neighbours@.len(),
            search_ok(*s),
            penalties_ok(pen),
            starts == neighbour_starts(*s, neighbours@, pen.pnbour as int),
            starts.len() == n,
            mv_near(best.mv),
            min_from(best, starts.subrange(k as int, n as int)) == chosen,
        decreases n - k,
    {
        let st = search_start(s, neighbours[k], pen.pnbour);
        proof {
            let rest = starts.subrange(k as int, n as int);
            assert(rest[0] == st);
            assert(rest.drop_first() =~= starts.subrange(k as int + 1, n as int));
        }
        if st.cost < best.cost {
            best = st;
        }
        k = k + 1;
    }
    proof {
        assert(starts.subrange(n as int, n as int) =~= Seq::<SearchBest>::empty());
    }
    exact_refine_search(s, search_type, radius, &mut best);
    best
}


/// Hexagon rounds keep the best vector near.
pub proof fn lemma_hex_steps_near(s: BlockSearch, best: SearchBest, n: int)
    requires
        search_ok(s),
        mv_near(best.mv),
    ensures
        mv_near(hex_steps(s, best, n).mv),
    decreases if n <= 0 { 0 } else { n },
{
    if n > 0 {
        lemma_checks_near(s, best, hex_around(best.mv));
        lemma_hex_steps_near(s, checks(s, best, hex_around(best.mv)), n - 1);
    }
}

/// The hexagon search keeps the best vector near.
pub proof fn lemma_hex2_near(s: BlockSearch, best: SearchBest, radius: int)
    requires
        search_ok(s),
        mv_near(best.mv),
    ensures
        mv_near(hex2_spec(s, best, radius).mv),
{
    let n = if radius / 2 < 1 { 1 } else { radius / 2 };
    lemma_hex_steps_near(s, best, n);
    let b = if radius > 1 { hex_steps(s, best, n) } else { best };
    lemma_checks_near(s, b, expanding_candidates(b.mv, 1, 1));
}

/// The uneven multi-hexagon search keeps the best vector near.
pub proof fn lemma_umh_near(s: BlockSearch, best: SearchBest, c: (i32, i32), radius: int)
    requires
        search_ok(s),
        mv_near(best.mv),
    ensures
        mv_near(umh_spec(s, best, c, radius).mv),
{
    let mvs = umh_cross(c, radius, 1) + umh_rings(c, 1, radius / 4);
    lemma_checks_near(s, best, mvs);
    lemma_hex2_near(s, checks(s, best, mvs), radius);
}


/// Expanding rounds keep the best vector near.
proof fn lemma_expand_rounds_near(s: BlockSearch, best: SearchBest, c: (i32, i32), r: int, last: int)
    requires
        search_ok(s),
        mv_near(best.mv),
    ensures
        mv_near(expand_rounds(s, best, c, r, last).mv),
    decreases if r > last { 0 } else { last - r + 1 },
{
    if r <= last {
        lemma_checks_near(s, best, expanding_candidates(c, r, 1));
        lemma_expand_rounds_near(s, checks(s, best, expanding_candidates(c, r, 1)), c, r + 1, last);
    }
}

/// Every refining search keeps the best vector near.
pub proof fn lemma_refine_near(s: BlockSearch, best: SearchBest, search_type: int, radius: int)
    requires
        search_ok(s),
        mv_near(best.mv),
    ensures
        mv_near(refine_spec(s, best, search_type, radius).mv),
{
    lemma_hex2_near(s, best, radius);
    lemma_umh_near(s, best, best.mv, radius);
    lemma_expand_rounds_near(s, best, best.mv, 1, radius);
}

/// The first cheapest of near vectors is near.
proof fn lemma_min_from_near(best: SearchBest, rest: Seq<SearchBest>)
    requires
        mv_near(best.mv),
        forall|i: int| 0 <= i < rest.len() ==> mv_near(#[trigger] rest[i].mv),
    ensures
        mv_near(min_from(best, rest).mv),
    decreases rest.len(),
{
    if rest.len() > 0 {
        let b = if rest[0].cost < best.cost { rest[0] } else { best };
        assert forall|i: int| 0 <= i < rest.drop_first().len() implies mv_near(#[trigger] rest.drop_first()[i].mv) by {
            assert(rest.drop_first()[i] == rest[i + 1]);
        }
        lemma_min_from_near(b, rest.drop_first());
    }
}

/// A block's search ends near.
pub proof fn lemma_search_block_near(
    s: BlockSearch,
    field_valid: bool,
    zero: (i32, i32),
    global: (i32, i32),
    nbs: Seq<(i32, i32)>,
    pen: StartPenalties,
    search_type: int,
    radius: int,
    try_many: bool,
)
    requires
        search_ok(s),
    ensures
        mv_near(search_block_spec(s, field_valid, zero, global, nbs, pen, search_type, radius, try_many).mv),
{
    let z = start_spec(s, zero, pen.pzero as int);
    let g = start_spec(s, global, pen.pglobal as int);
    let f = start_spec(s, s.predictor, 0);
    lemma_clip_near(s, zero);
    lemma_clip_near(s, global);
    lemma_clip_near(s, s.predictor);
    lemma_refine_near(s, z, search_type, radius);
    lemma_refine_near(s, g, search_type, radius);
    lemma_refine_near(s, f, search_type, radius);
    if try_many {
        let fs = if field_valid { seq![refined(s, f, 0, search_type, radius)] } else { Seq::empty() };
        let nres = neighbour_results(s, nbs, pen.pnbour as int, search_type, radius);
        let rest = seq![refined(s, g, pen.pglobal as int, search_type, radius)] + fs + nres;
        assert forall|i: int| 0 <= i < rest.len() implies mv_near(#[trigger] rest[i].mv) by {
            if i >= 1 + fs.len() {
                let j = i - 1 - fs.len();
                let mv = nbs[j];
                lemma_clip_near(s, mv);
                lemma_refine_near(s, start_spec(s, mv, pen.pnbour as int), search_type, radius);
                assert(rest[i] == nres[j]);
            }
        }
        lemma_min_from_near(refined(s, z, pen.pzero as int, search_type, radius), rest);
    } else {
        let b1 = if g.cost < z.cost { g } else { z };
        let b2 = if field_valid && f.cost < b1.cost { f } else { b1 };
        let starts = neighbour_starts(s, nbs, pen.pnbour as int);
        assert forall|i: int| 0 <= i < starts.len() implies mv_near(#[trigger] starts[i].mv) by {
            lemma_clip_near(s, nbs[i]);
        }
        lemma_min_from_near(b2, starts);
        lemma_refine_near(s, min_from(b2, starts), search_type, radius);
    }
}

/// Whether `mv` lies in the closed box of `bounds`, where clipped
/// vectors land.
pub open spec fn in_box(mv: (i32, i32), bounds: (i32, i32, i32, i32)) -> bool {
    &&& bounds.0 <= mv.0 <= (if bounds.2 - 1 < bounds.0 { bounds.0 as int } else { bounds.2 - 1 })
    &&& bounds.1 <= mv.1 <= (if bounds.3 - 1 < bounds.1 { bounds.1 as int } else { bounds.3 - 1 })
}

/// Checks keep the best vector inside the bounds' closed box: a new best
/// lies inside the bounds.
pub proof fn lemma_checks_box(s: BlockSearch, best: SearchBest, mvs: Seq<(i32, i32)>)
    requires
        in_box(best.mv, s.bounds),
    ensures
        in_box(checks(s, best, mvs).mv, s.bounds),
    decreases mvs.len(),
{
    if mvs.len() > 0 {
        lemma_checks_box(s, check_spec(s, best, mvs[0]), mvs.drop_first());
    }
}

/// Clipped vectors lie inside the bounds' closed box.
pub proof fn lemma_clip_box(s: BlockSearch, mv: (i32, i32))
    ensures
        in_box(clip_spec(mv, s.bounds), s.bounds),
{
}

/// Hexagon rounds keep the best vector inside the bounds' closed box.
pub proof fn lemma_hex_steps_box(s: BlockSearch, best: SearchBest, n: int)
    requires
        in_box(best.mv, s.bounds),
    ensures
        in_box(hex_steps(s, best, n).mv, s.bounds),
    decreases if n <= 0 { 0 } else { n },
{
    if n > 0 {
        lemma_checks_box(s, best, hex_around(best.mv));
        lemma_hex_steps_box(s, checks(s, best, hex_around(best.mv)), n - 1);
    }
}

/// The hexagon search keeps the best vector inside the bounds' closed box.
pub proof fn lemma_hex2_box(s: BlockSearch, best: SearchBest, radius: int)
    requires
        in_box(best.mv, s.bounds),
    ensures
        in_box(hex2_spec(s, best, radius).mv, s.bounds),
{
    let n = if radius / 2 < 1 { 1 } else { radius / 2 };
    lemma_hex_steps_box(s, best, n);
    let b = if radius > 1 { hex_steps(s, best, n) } else { best };
    lemma_checks_box(s, b, expanding_candidates(b.mv, 1, 1));
}

/// The uneven multi-hexagon search keeps the best vector inside the
/// bounds' closed box.
pub proof fn lemma_umh_box(s: BlockSearch, best: SearchBest, c: (i32, i32), radius: int)
    requires
        in_box(best.mv, s.bounds),
    ensures
        in_box(umh_spec(s, best, c, radius).mv, s.bounds),
{
    let mvs = umh_cross(c, radius, 1) + umh_rings(c, 1, radius / 4);
    lemma_checks_box(s, best, mvs);
    lemma_hex2_box(s, checks(s, best, mvs), radius);
}

/// Expanding rounds keep the best vector inside the bounds' closed box.
proof fn lemma_expand_rounds_box(s: BlockSearch, best: SearchBest, c: (i32, i32), r: int, last: int)
    requires
        in_box(best.mv, s.bounds),
    ensures
        in_box(expand_rounds(s, best, c, r, last).mv, s.bounds),
    decreases if r > last { 0 } else { last - r + 1 },
{
    if r <= last {
        lemma_checks_box(s, best, expanding_candidates(c, r, 1));
        lemma_expand_rounds_box(s, checks(s, best, expanding_candidates(c, r, 1)), c, r + 1, last);
    }
}

/// Every refining search keeps the best vector inside the bounds' closed box.
pub proof fn lemma_refine_box(s: BlockSearch, best: SearchBest, search_type: int, radius: int)
    requires
        in_box(best.mv, s.bounds),
    ensures
        in_box(refine_spec(s, best, search_type, radius).mv, s.bounds),
{
    lemma_hex2_box(s, best, radius);
    lemma_umh_box(s, best, best.mv, radius);
    lemma_expand_rounds_box(s, best, best.mv, 1, radius);
}

/// The first cheapest of vectors inside a closed box lies inside it.
proof fn lemma_min_from_box(best: SearchBest, rest: Seq<SearchBest>, b: (i32, i32, i32, i32))
    requires
        in_box(best.mv, b),
        forall|i: int| 0 <= i < rest.len() ==> in_box(#[trigger] rest[i].mv, b),
    ensures
        in_box(min_from(best, rest).mv, b),
    decreases rest.len(),
{
    if rest.len() > 0 {
        let b2 = if rest[0].cost < best.cost { rest[0] } else { best };
        assert forall|i: int| 0 <= i < rest.drop_first().len() implies in_box(#[trigger] rest.drop_first()[i].mv, b) by {
            assert(rest.drop_first()[i] == rest[i + 1]);
        }
        lemma_min_from_box(b2, rest.drop_first(), b);
    }
}

/// A block's search ends inside the bounds' closed box.
pub proof fn lemma_search_block_box(
    s: BlockSearch,
    field_valid: bool,
    zero: (i32, i32),
    global: (i32, i32),
    nbs: Seq<(i32, i32)>,
    pen: StartPenalties,
    search_type: int,
    radius: int,
    try_many: bool,
)
    ensures
        in_box(search_block_spec(s, field_valid, zero, global, nbs, pen, search_type, radius, try_many).mv, s.bounds),
{
    let z = start_spec(s, zero, pen.pzero as int);
    let g = start_spec(s, global, pen.pglobal as int);
    let f = start_spec(s, s.predictor, 0);
    lemma_clip_box(s, zero);
    lemma_clip_box(s, global);
    lemma_clip_box(s, s.predictor);
    lemma_refine_box(s, z, search_type, radius);
    lemma_refine_box(s, g, search_type, radius);
    lemma_refine_box(s, f, search_type, radius);
    if try_many {
        let fs = if field_valid { seq![refined(s, f, 0, search_type, radius)] } else { Seq::empty() };
        let nres = neighbour_results(s, nbs, pen.pnbour as int, search_type, radius);
        let rest = seq![refined(s, g, pen.pglobal as int, search_type, radius)] + fs + nres;
        assert forall|i: int| 0 <= i < rest.len() implies in_box(#[trigger] rest[i].mv, s.bounds) by {
            if i >= 1 + fs.len() {
                let j = i - 1 - fs.len();
                let mv = nbs[j];
                lemma_clip_box(s, mv);
                lemma_refine_box(s, start_spec(s, mv, pen.pnbour as int), search_type, radius);
                assert(rest[i] == nres[j]);
            }
        }
        lemma_min_from_box(refined(s, z, pen.pzero as int, search_type, radius), rest, s.bounds);
    } else {
        let b1 = if g.cost < z.cost { g } else { z };
        let b2 = if field_valid && f.cost < b1.cost { f } else { b1 };
        let starts = neighbour_starts(s, nbs, pen.pnbour as int);
        assert forall|i: int| 0 <= i < starts.len() implies in_box(#[trigger] starts[i].mv, s.bounds) by {
            lemma_clip_box(s, nbs[i]);
        }
        lemma_min_from_box(b2, starts, s.bounds);
        lemma_refine_box(s, min_from(b2, starts), search_type, radius);
    }
}

/// The matching cost of a vector is never negative, so with a
/// non-negative new-vector penalty its full cost is at least its distance
/// penalty; inside the bounds it fits in `i64`.
proof fn lemma_cost_parts(s: BlockSearch, mv: (i32, i32))
    requires
        search_ok(s),
        s.pnew >= 0,
        in_bounds(mv, s.bounds),
    ensures
        motion_penalty_spec(s.lambda as int, s.predictor, mv) <= cost_of(s, mv),
        i64::MIN <= cost_of(s, mv) <= i64::MAX,
{
    reveal(sad_of);
    crate::block_cost::lemma_lc_range(s.src, s.refp, s.level as int, s.px as int, s.py as int, s.bw as int, s.bh as int, mv.0 as int, mv.1 as int, s.satd, s.pel as int);
    lemma_in_bounds_small(s, mv);
    let sad = sad_of(s, mv);
    assert(0 <= sad <= u32::MAX);
    lemma_with_pnew_range(s.pnew as int, sad);
    assert(0 <= (s.pnew as int) * sad) by (nonlinear_arith)
        requires
            s.pnew >= 0,
            sad >= 0,
    ;
    vstd::arithmetic::div_mod::lemma_div_pos_is_pos((s.pnew as int) * sad, 256);
}

/// Checks never raise the best cost, and with a non-negative new-vector
/// penalty they end at a cost no higher than that of any vector they
/// check that lies inside the bounds.
pub proof fn lemma_checks_le(s: BlockSearch, best: SearchBest, mvs: Seq<(i32, i32)>, v: (i32, i32))
    requires
        search_ok(s),
        s.pnew >= 0,
    ensures
        checks(s, best, mvs).cost <= best.cost,
        mvs.contains(v) && in_bounds(v, s.bounds) ==> checks(s, best, mvs).cost <= cost_of(s, v),
    decreases mvs.len(),
{
    if mvs.len() > 0 {
        let b1 = check_spec(s, best, mvs[0]);
        if in_bounds(mvs[0], s.bounds) {
            lemma_cost_parts(s, mvs[0]);
        }
        assert(b1.cost <= best.cost);
        lemma_checks_le(s, b1, mvs.drop_first(), v);
        if mvs.contains(v) && in_bounds(v, s.bounds) {
            if mvs[0] == v {
                lemma_cost_parts(s, v);
                assert(b1.cost <= cost_of(s, v));
            } else {
                let j = choose|j: int| 0 <= j < mvs.len() && mvs[j] == v;
                assert(mvs.drop_first()[j - 1] == v);
                assert(mvs.drop_first().contains(v));
            }
        }
    }
}

/// The top and bottom sides from offset `i0` on take in every offset
/// below `r` on the step grid from `i0`.
proof fn lemma_rows_contain(c: (i32, i32), r: int, step: int, i0: int, i: int)
    requires
        step >= 1,
        i0 <= i < r,
        (i - i0) % step == 0,
    ensures
        ring_rows(c, r, step, i0).contains(at(c.0 + i, c.1 - r)),
        ring_rows(c, r, step, i0).contains(at(c.0 + i, c.1 + r)),
    decreases r - i0,
{
    let head = seq![at(c.0 + i0, c.1 - r), at(c.0 + i0, c.1 + r)];
    let tail = ring_rows(c, r, step, i0 + step);
    assert(ring_rows(c, r, step, i0) == head + tail);
    if i == i0 {
        assert((head + tail)[0] == at(c.0 + i, c.1 - r));
        assert((head + tail)[1] == at(c.0 + i, c.1 + r));
    } else {
        assert(i - i0 >= step) by {
            if i - i0 < step {
                vstd::arithmetic::div_mod::lemma_small_mod((i - i0) as nat, step as nat);
            }
        }
        vstd::arithmetic::div_mod::lemma_mod_sub_multiples_vanish(i - i0, step);
        assert(-step + (i - i0) == i - (i0 + step));
        lemma_rows_contain(c, r, step, i0 + step, i);
        let k1 = choose|k: int| 0 <= k < tail.len() && tail[k] == at(c.0 + i, c.1 - r);
        let k2 = choose|k: int| 0 <= k < tail.len() && tail[k] == at(c.0 + i, c.1 + r);
        assert((head + tail)[2 + k1] == at(c.0 + i, c.1 - r));
        assert((head + tail)[2 + k2] == at(c.0 + i, c.1 + r));
    }
}

/// The left and right sides likewise.
proof fn lemma_cols_contain(c: (i32, i32), r: int, step: int, j0: int, j: int)
    requires
        step >= 1,
        j0 <= j < r,
        (j - j0) % step == 0,
    ensures
        ring_cols(c, r, step, j0).contains(at(c.0 - r, c.1 + j)),
        ring_cols(c, r, step, j0).contains(at(c.0 + r, c.1 + j)),
    decreases r - j0,
{
    let head = seq![at(c.0 - r, c.1 + j0), at(c.0 + r, c.1 + j0)];
    let tail = ring_cols(c, r, step, j0 + step);
    assert(ring_cols(c, r, step, j0) == head + tail);
    if j == j0 {
        assert((head + tail)[0] == at(c.0 - r, c.1 + j));
        assert((head + tail)[1] == at(c.0 + r, c.1 + j));
    } else {
        assert(j - j0 >= step) by {
            if j - j0 < step {
                vstd::arithmetic::div_mod::lemma_small_mod((j - j0) as nat, step as nat);
            }
        }
        vstd::arithmetic::div_mod::lemma_mod_sub_multiples_vanish(j - j0, step);
        assert(-step + (j - j0) == j - (j0 + step));
        lemma_cols_contain(c, r, step, j0 + step, j);
        let k1 = choose|k: int| 0 <= k < tail.len() && tail[k] == at(c.0 - r, c.1 + j);
        let k2 = choose|k: int| 0 <= k < tail.len() && tail[k] == at(c.0 + r, c.1 + j);
        assert((head + tail)[2 + k1] == at(c.0 - r, c.1 + j));
        assert((head + tail)[2 + k2] == at(c.0 + r, c.1 + j));
    }
}

/// Whether offset `d` lies on the square of half-width `r` along one
/// axis: at either end, or strictly between on the step grid from `-r`.
pub open spec fn on_square_axis(d: int, r: int, step: int) -> bool {
    d == -r || d == r || (-r < d < r && (d + r) % step == 0)
}

/// The square search around `c` takes in every vector of the square of
/// half-width `r`: its four corners and the points of its sides on the
/// step grid. With a non-negative new-vector penalty it ends at a cost no
/// higher than the start's, nor than that of any such vector inside the
/// bounds.
pub proof fn lemma_square_search_covers(s: BlockSearch, best: SearchBest, c: (i32, i32), r: int, step: int, dx: int, dy: int)
    requires
        search_ok(s),
        s.pnew >= 0,
        1 <= r,
        1 <= step,
        on_square_axis(dx, r, step),
        on_square_axis(dy, r, step),
        dx == -r || dx == r || dy == -r || dy == r,
    ensures
        expanding_candidates(c, r, step).contains(at(c.0 + dx, c.1 + dy)),
        checks(s, best, expanding_candidates(c, r, step)).cost <= best.cost,
        in_bounds(at(c.0 + dx, c.1 + dy), s.bounds) ==>
            checks(s, best, expanding_candidates(c, r, step)).cost <= cost_of(s, at(c.0 + dx, c.1 + dy)),
{
    let rows = ring_rows(c, r, step, -r + step);
    let cols = ring_cols(c, r, step, -r + step);
    let corners = ring_corners(c, r);
    let all = expanding_candidates(c, r, step);
    let v = at(c.0 + dx, c.1 + dy);
    assert(all == rows + cols + corners);
    if (dx == -r || dx == r) && (dy == -r || dy == r) {
        let k = if dx == -r && dy == -r { 0int } else if dx == -r { 1int } else if dy == -r { 2int } else { 3int };
        assert(corners[k] == v);
        assert(all[rows.len() + cols.len() + k] == v);
    } else if dy == -r || dy == r {
        vstd::arithmetic::div_mod::lemma_mod_sub_multiples_vanish(dx + r, step);
        assert(-step + (dx + r) == dx - (-r + step));
        assert(dx - (-r + step) >= 0) by {
            if dx + r < step {
                vstd::arithmetic::div_mod::lemma_small_mod((dx + r) as nat, step as nat);
            }
        }
        lemma_rows_contain(c, r, step, -r + step, dx);
        let k = if dy == -r {
            choose|k: int| 0 <= k < rows.len() && rows[k] == at(c.0 + dx, c.1 - r)
        } else {
            choose|k: int| 0 <= k < rows.len() && rows[k] == at(c.0 + dx, c.1 + r)
        };
        assert(all[k] == v);
    } else {
        vstd::arithmetic::div_mod::lemma_mod_sub_multiples_vanish(dy + r, step);
        assert(-step + (dy + r) == dy - (-r + step));
        assert(dy - (-r + step) >= 0) by {
            if dy + r < step {
                vstd::arithmetic::div_mod::lemma_small_mod((dy + r) as nat, step as nat);
            }
        }
        lemma_cols_contain(c, r, step, -r + step, dy);
        let k = if dx == -r {
            choose|k: int| 0 <= k < cols.len() && cols[k] == at(c.0 - r, c.1 + dy)
        } else {
            choose|k: int| 0 <= k < cols.len() && cols[k] == at(c.0 + r, c.1 + dy)
        };
        assert(all[rows.len() + k] == v);
    }
    lemma_checks_le(s, best, all, v);
}

/// The hexagon round around `c` checks the six vectors two columns to
/// either side and one column and two rows to either side: with a
/// non-negative new-vector penalty it ends at a cost no higher than that
/// of any of them inside the bounds.
pub proof fn lemma_hex_round_covers(s: BlockSearch, best: SearchBest, c: (i32, i32), dx: int, dy: int)
    requires
        search_ok(s),
        s.pnew >= 0,
        (dy == 0 && (dx == -2 || dx == 2)) || ((dx == -1 || dx == 1) && (dy == -2 || dy == 2)),
    ensures
        hex_around(c).contains(at(c.0 + dx, c.1 + dy)),
        checks(s, best, hex_around(c)).cost <= best.cost,
        in_bounds(at(c.0 + dx, c.1 + dy), s.bounds) ==> checks(s, best, hex_around(c)).cost <= cost_of(s, at(c.0 + dx, c.1 + dy)),
{
    let h = hex_around(c);
    let v = at(c.0 + dx, c.1 + dy);
    let k = if dy == 0 && dx == -2 { 0int } else if dx == -1 && dy == 2 { 1int } else if dx == 1 && dy == 2 { 2int }
        else if dy == 0 { 3int } else if dx == 1 { 4int } else { 5int };
    assert(h[k] == v);
    lemma_checks_le(s, best, h, v);
}

/// Clipping puts a vector into the bounds' closed box and leaves a vector
/// already in it unchanged; each component moves to the nearest end of
/// its range.
pub proof fn lemma_clip_box_nearest(mv: (i32, i32), b: (i32, i32, i32, i32))
    ensures
        in_box(clip_spec(mv, b), b),
        in_box(mv, b) ==> clip_spec(mv, b) == mv,
        mv.0 < b.0 ==> clip_spec(mv, b).0 == b.0,
        mv.1 < b.1 ==> clip_spec(mv, b).1 == b.1,
        mv.0 > (if b.2 - 1 < b.0 { b.0 as int } else { b.2 - 1 }) ==> clip_spec(mv, b).0 == (if b.2 - 1 < b.0 { b.0 as int } else { b.2 - 1 }),
        mv.1 > (if b.3 - 1 < b.1 { b.1 as int } else { b.3 - 1 }) ==> clip_spec(mv, b).1 == (if b.3 - 1 < b.1 { b.1 as int } else { b.3 - 1 }),
{
}

/// The first cheapest of a start and a run of results costs no more than
/// any of them, and is one of them.
pub proof fn lemma_min_from_least(best: SearchBest, rest: Seq<SearchBest>)
    ensures
        min_from(best, rest).cost <= best.cost,
        forall|i: int| 0 <= i < rest.len() ==> min_from(best, rest).cost <= (#[trigger] rest[i]).cost,
        min_from(best, rest) == best || exists|i: int| 0 <= i < rest.len() && min_from(best, rest) == #[trigger] rest[i],
    decreases rest.len(),
{
    if rest.len() > 0 {
        let b = if rest[0].cost < best.cost { rest[0] } else { best };
        let tail = rest.drop_first();
        lemma_min_from_least(b, tail);
        assert forall|i: int| 0 <= i < rest.len() implies min_from(best, rest).cost <= (#[trigger] rest[i]).cost by {
            if i > 0 {
                assert(tail[i - 1] == rest[i]);
            }
        }
        if min_from(b, tail) != b {
            let j = choose|j: int| 0 <= j < tail.len() && min_from(b, tail) == #[trigger] tail[j];
            assert(rest[j + 1] == tail[j]);
        }
    }
}

proof fn lemma_hex_steps_le(s: BlockSearch, best: SearchBest, n: int)
    requires
        search_ok(s),
        s.pnew >= 0,
    ensures
        hex_steps(s, best, n).cost <= best.cost,
    decreases if n <= 0 { 0 } else { n },
{
    if n > 0 {
        lemma_checks_le(s, best, hex_around(best.mv), best.mv);
        lemma_hex_steps_le(s, checks(s, best, hex_around(best.mv)), n - 1);
    }
}

proof fn lemma_expand_rounds_le(s: BlockSearch, best: SearchBest, c: (i32, i32), r: int, last: int)
    requires
        search_ok(s),
        s.pnew >= 0,
    ensures
        expand_rounds(s, best, c, r, last).cost <= best.cost,
    decreases if r > last { 0 } else { last - r + 1 },
{
    if r <= last {
        lemma_checks_le(s, best, expanding_candidates(c, r, 1), c);
        lemma_expand_rounds_le(s, checks(s, best, expanding_candidates(c, r, 1)), c, r + 1, last);
    }
}

/// With a non-negative new-vector penalty, no refining search ends at a
/// higher cost than it started from.
pub proof fn lemma_refine_le(s: BlockSearch, best: SearchBest, search_type: int, radius: int)
    requires
        search_ok(s),
        s.pnew >= 0,
    ensures
        refine_spec(s, best, search_type, radius).cost <= best.cost,
{
    let n = if radius / 2 < 1 { 1 } else { radius / 2 };
    lemma_hex_steps_le(s, best, n);
    let hb = if radius > 1 { hex_steps(s, best, n) } else { best };
    lemma_checks_le(s, hb, expanding_candidates(hb.mv, 1, 1), hb.mv);
    let mvs = umh_cross(best.mv, radius, 1) + umh_rings(best.mv, 1, radius / 4);
    lemma_checks_le(s, best, mvs, best.mv);
    let ub = checks(s, best, mvs);
    lemma_hex_steps_le(s, ub, n);
    let hb2 = if radius > 1 { hex_steps(s, ub, n) } else { ub };
    lemma_checks_le(s, hb2, expanding_candidates(hb2.mv, 1, 1), hb2.mv);
    lemma_expand_rounds_le(s, best, best.mv, 1, radius);
}

/// Without trying every start, a block's search (with a non-negative
/// new-vector penalty) ends at a cost no higher than that of any start:
/// the zero vector, the global vector, the predictor when the field entry
/// is valid, and each neighbour's vector, each with its penalty.
pub proof fn lemma_search_block_le(
    s: BlockSearch,
    field_valid: bool,
    zero: (i32, i32),
    global: (i32, i32),
    nbs: Seq<(i32, i32)>,
    pen: StartPenalties,
    search_type: int,
    radius: int,
)
    requires
        search_ok(s),
        s.pnew >= 0,
    ensures
        ({
            let r = search_block_spec(s, field_valid, zero, global, nbs, pen, search_type, radius, false);
            &&& r.cost <= start_spec(s, zero, pen.pzero as int).cost
            &&& r.cost <= start_spec(s, global, pen.pglobal as int).cost
            &&& field_valid ==> r.cost <= start_spec(s, s.predictor, 0).cost
            &&& forall|i: int| 0 <= i < nbs.len() ==> r.cost <= (#[trigger] start_spec(s, nbs[i], pen.pnbour as int)).cost
        }),
{
    let z = start_spec(s, zero, pen.pzero as int);
    let g = start_spec(s, global, pen.pglobal as int);
    let f = start_spec(s, s.predictor, 0);
    let b1 = if g.cost < z.cost { g } else { z };
    let b2 = if field_valid && f.cost < b1.cost { f } else { b1 };
    let starts = neighbour_starts(s, nbs, pen.pnbour as int);
    lemma_min_from_least(b2, starts);
    let m = min_from(b2, starts);
    lemma_refine_le(s, m, search_type, radius);
    assert forall|i: int| 0 <= i < nbs.len() implies search_block_spec(s, field_valid, zero, global, nbs, pen, search_type, radius, false).cost
        <= (#[trigger] start_spec(s, nbs[i], pen.pnbour as int)).cost by {
        assert(starts[i] == start_spec(s, nbs[i], pen.pnbour as int));
    }
}

/// The cross of the multi-hexagon search around `c` takes in the four
/// vectors at every odd distance below `radius`, left, right, up and down.
pub proof fn lemma_umh_cross_covers(c: (i32, i32), radius: int, d0: int, d: int)
    requires
        1 <= d0 <= d < radius,
        (d - d0) % 2 == 0,
    ensures
        umh_cross(c, radius, d0).contains(at(c.0 - d, c.1 as int)),
        umh_cross(c, radius, d0).contains(at(c.0 + d, c.1 as int)),
        umh_cross(c, radius, d0).contains(at(c.0 as int, c.1 - d)),
        umh_cross(c, radius, d0).contains(at(c.0 as int, c.1 + d)),
    decreases radius - d0,
{
    let head = seq![at(c.0 - d0, c.1 as int), at(c.0 + d0, c.1 as int), at(c.0 as int, c.1 - d0), at(c.0 as int, c.1 + d0)];
    let tail = umh_cross(c, radius, d0 + 2);
    let all = umh_cross(c, radius, d0);
    assert(all == head + tail);
    if d == d0 {
        assert(all[0] == head[0] && all[1] == head[1] && all[2] == head[2] && all[3] == head[3]);
    } else {
        assert(d - d0 >= 2) by {
            if d - d0 < 2 {
                vstd::arithmetic::div_mod::lemma_small_mod((d - d0) as nat, 2);
            }
        }
        vstd::arithmetic::div_mod::lemma_mod_sub_multiples_vanish(d - d0, 2);
        assert(-2 + (d - d0) == d - (d0 + 2));
        lemma_umh_cross_covers(c, radius, d0 + 2, d);
        let k0 = choose|k: int| 0 <= k < tail.len() && tail[k] == at(c.0 - d, c.1 as int);
        let k1 = choose|k: int| 0 <= k < tail.len() && tail[k] == at(c.0 + d, c.1 as int);
        let k2 = choose|k: int| 0 <= k < tail.len() && tail[k] == at(c.0 as int, c.1 - d);
        let k3 = choose|k: int| 0 <= k < tail.len() && tail[k] == at(c.0 as int, c.1 + d);
        assert(all[4 + k0] == tail[k0] && all[4 + k1] == tail[k1] && all[4 + k2] == tail[k2] && all[4 + k3] == tail[k3]);
    }
}

} // verus!
