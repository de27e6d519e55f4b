//! The steps of the pyramid search that decide how a level starts: its
//! grid, its pel and the order of its blocks, and the field it starts
//! from, unsearched at the top or interpolated from the level above.
use vstd::prelude::*;
use crate::analyse_opts::{AnalyseOpts, max0, max1, lemma_shr_range, lemma_span};
use crate::analyse_search::{Vec8, unsearched_vector};
use crate::arith::tdiv;
use crate::field_ops::{level_grid, level_grid_spec, exact_interpolate_level, interp_ok, interp_entry};
use crate::level_search::level_pel;
use crate::order_refine::{refine_search_order, refine_order_spec, no_dup, all_in_grid, in_grid, coarse_ok};
use crate::search_order::{initial_search_order, initial_order_spec};

verus! {

/// The number of blocks of the whole frame along one axis of `w`
/// samples, with blocks of `b` overlapping by `o`: at least one.
pub open spec fn full_axis(w: int, b: int, o: int) -> int {
    max1(max0(tdiv(w - o, max1(b - o))))
}

/// Whether the options give grids that `i32` indexes: a frame of at most
/// `0xffff` a side, blocks and overlaps of at most `0x1000`, and a grid of
/// the whole frame whose marker grid (one wider and higher) has a cell
/// count that `i32` holds.
pub open spec fn plan_ok(opts: AnalyseOpts) -> bool {
    &&& 0 <= opts.width <= 0xffff && 0 <= opts.height <= 0xffff
    &&& 1 <= opts.block_w <= 0x1000 && 1 <= opts.block_h <= 0x1000
    &&& 0 <= opts.overlap_x <= 0x1000 && 0 <= opts.overlap_y <= 0x1000
    &&& (full_axis(opts.width as int, opts.block_w as int, opts.overlap_x as int) + 1)
        * (full_axis(opts.height as int, opts.block_h as int, opts.overlap_y as int) + 1) <= i32::MAX
}

/// The grid of `level`.
pub open spec fn plan_grid(opts: AnalyseOpts, level: int) -> (int, int) {
    level_grid_spec(opts, level, opts.block_w as int, opts.block_h as int, opts.overlap_x as int, opts.overlap_y as int)
}

/// The search order of a `gw` x `gh` level: a first-search order at the
/// top of the pyramid (no `coarse` order), else refined from it.
pub open spec fn plan_order(coarse: Seq<(i32, i32)>, gw: int, gh: int) -> Seq<(i32, i32)> {
    if coarse.len() == 0 { initial_order_spec(gw, gh) } else { refine_order_spec(coarse, gw, gh) }
}

/// One axis of a level grid holds at least one block and at most as many
/// as the whole frame's grid, itself at most `0xffff`.
proof fn lemma_axis_bounds(w: int, b: int, o: int, level: int)
    requires
        0 <= w <= 0xffff,
        1 <= b <= 0x1000,
        0 <= o <= 0x1000,
        0 <= level < 32,
    ensures
        ({
            let s = max1(b - o);
            let end = o + s * max0(tdiv(w - o, s));
            &&& 0 <= end <= 0xffff
            &&& 1 <= max1(tdiv((((end as i32) >> (level as u32)) as int) - o, s)) <= full_axis(w, b, o) <= 0xffff
        }),
{
    let s = max1(b - o);
    lemma_span(w, o, s);
    let g0 = max0(tdiv(w - o, s));
    let end = o + s * g0;
    lemma_shr_range(end as i32, level as u32);
    let d = (((end as i32) >> (level as u32)) as int) - o;
    if w - o > 0 {
        crate::arith::lemma_div_shrinks(w - o, s);
    }
    if d > 0 {
        assert(d <= s * g0);
        assert(tdiv(d, s) == d / s);
        vstd::arithmetic::div_mod::lemma_div_is_ordered(d, s * g0, s);
        vstd::arithmetic::div_mod::lemma_div_multiples_vanish(g0, s);
        assert((s * g0) / s == g0);
    }
}

/// The grid of a level, its pel and the order of its blocks.
pub fn level_plan(opts: &AnalyseOpts, level: i32, coarse: &[(i32, i32)]) -> (r: (i32, i32, i32, Vec<(i32, i32)>))
    requires
        plan_ok(*opts),
        0 <= level < 32,
        all_in_grid(coarse@, 0x10000, 0x10000),
    ensures
        (r.0 as int, r.1 as int) == plan_grid(*opts, level as int),
        1 <= r.0 <= 0xffff && 1 <= r.1 <= 0xffff,
        (r.0 + 1) * (r.1 + 1) <= i32::MAX,
        r.2 == level_pel(*opts, level as int),
        r.3@ == plan_order(coarse@, r.0 as int, r.1 as int),
        no_dup(r.3@),
        all_in_grid(r.3@, r.0 as int, r.1 as int),
        forall|c: (i32, i32)| in_grid(c, r.0 as int, r.1 as int) ==> #[trigger] r.3@.contains(c),
{
    proof {
        lemma_axis_bounds(opts.width as int, opts.block_w as int, opts.overlap_x as int, level as int);
        lemma_axis_bounds(opts.height as int, opts.block_h as int, opts.overlap_y as int, level as int);
    }
    let (gw, gh) = level_grid(opts, level, opts.block_w, opts.block_h, opts.overlap_x, opts.overlap_y);
    proof {
        let fa = full_axis(opts.width as int, opts.block_w as int, opts.overlap_x as int);
        let fb = full_axis(opts.height as int, opts.block_h as int, opts.overlap_y as int);
        assert(gw * gh <= (gw + 1) * (gh + 1) <= (fa + 1) * (fb + 1)) by (nonlinear_arith)
            requires
                1 <= gw <= fa,
                1 <= gh <= fb,
        ;
    }
    let pel = if level == 0 {
        if opts.pel < 1 { 1 } else { opts.pel }
    } else {
        1
    };
    let order = if coarse.len() == 0 {
        initial_search_order(gw, gh)
    } else {
        assert(coarse_ok(coarse@)) by {
            assert forall|i: int| 0 <= i < coarse@.len() implies -0x4000_0000 <= #[trigger] coarse@[i].0 <= 0x3fff_ffff
                && -0x4000_0000 <= coarse@[i].1 <= 0x3fff_ffff by {
                assert(in_grid(coarse@[i], 0x10000, 0x10000));
            }
        }
        refine_search_order(coarse, gw, gh)
    };
    (gw, gh, pel, order)
}

/// The field a level starts from: every block unsearched when there is no
/// field above it, else the field above interpolated to this level.
pub open spec fn start_field_spec(opts: AnalyseOpts, field: Seq<Vec8>, fgw: int, fgh: int, gw: int, gh: int, pel: int) -> Seq<Vec8> {
    if field.len() == 0 {
        Seq::new((gw * gh) as nat, |i: int| Vec8 { dx: 0, dy: 0, score: u32::MAX, luma: 0 })
    } else {
        Seq::new((gw * gh) as nat, |i: int| interp_entry(field, fgw, fgh, i % gw, i / gw,
            opts.block_w as int, opts.block_h as int, opts.overlap_x as int, opts.overlap_y as int, pel))
    }
}

/// The field a level starts from (see `start_field_spec`).
pub fn start_field(opts: &AnalyseOpts, field: &[Vec8], fgw: i32, fgh: i32, gw: i32, gh: i32, pel: i32) -> (r: Vec<Vec8>)
    requires
        1 <= gw && 1 <= gh && gw * gh <= i32::MAX,
        field@.len() > 0 ==> interp_ok(field@.len() as int, fgw as int, fgh as int, gw as int, gh as int,
            opts.block_w as int, opts.block_h as int, opts.overlap_x as int, opts.overlap_y as int, pel as int),
    ensures
        r@ == start_field_spec(*opts, field@, fgw as int, fgh as int, gw as int, gh as int, pel as int),
{
    proof {
        assert(1 <= gw * gh) by (nonlinear_arith)
            requires 1 <= gw, 1 <= gh;
    }
    if field.len() == 0 {
        let n = (gw * gh) as usize;
        let r = vec![unsearched_vector(); n];
        assert(r@ =~= start_field_spec(*opts, field@, fgw as int, fgh as int, gw as int, gh as int, pel as int));
        r
    } else {
        let r = exact_interpolate_level(field, fgw, fgh, gw, gh, opts.block_w, opts.block_h, opts.overlap_x, opts.overlap_y, pel);
        proof {
            let target = start_field_spec(*opts, field@, fgw as int, fgh as int, gw as int, gh as int, pel as int);
            assert forall|i: int| 0 <= i < gw * gh implies r@[i] == target[i] by {
                let x = i % gw as int;
                let y = i / gw as int;
                assert(0 <= x < gw && 0 <= y < gh && i == y * gw + x) by (nonlinear_arith)
                    requires 0 <= i < gw * gh, 1 <= gw, 1 <= gh, x == i % gw as int, y == i / gw as int;
            }
            assert(r@ =~= target);
        }
        r
    }
}

} // verus!
