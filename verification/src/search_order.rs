//! Pieces of the block search: the order in which the blocks of a grid are
//! visited, the Hadamard cost of a 4 x 4 difference block, and the block
//! origin moved back inside the frame for a vector that leaves it.
use vstd::prelude::*;
use crate::arith::{abs, clamp};
use crate::analyse_opts::in_i32;
use crate::analyse_search::{mv_bounds, mv_bounds_spec, mv_bounds_fits};
use crate::order_refine::{no_dup, all_in_grid, in_grid, lemma_initial_order_permutes};

verus! {

/// Interior row `y` of the grid, visited left to right on even rows and
/// right to left on odd rows.
pub open spec fn snake_row(gw: int, y: int) -> Seq<(i32, i32)> {
    let n = if gw - 2 < 0 { 0 } else { gw - 2 };
    Seq::new(n as nat, |i: int| if y % 2 == 0 { ((1 + i) as i32, y as i32) } else { ((gw - 2 - i) as i32, y as i32) })
}

/// The interior rows `1 ..= k - 1` in snake order.
pub open spec fn snake_rows(gw: int, k: int) -> Seq<(i32, i32)>
    decreases k,
{
    if k <= 1 {
        Seq::empty()
    } else {
        snake_rows(gw, k - 1) + snake_row(gw, k - 1)
    }
}

/// Columns `0 .. k` of the top and bottom rows, each column top first.
pub open spec fn top_bottom(gh: int, k: int) -> Seq<(i32, i32)>
    decreases k,
{
    if k <= 0 {
        Seq::empty()
    } else {
        let x = (k - 1) as i32;
        let cell = seq![(x, 0i32)];
        top_bottom(gh, k - 1) + (if gh > 1 { cell.push((x, (gh - 1) as i32)) } else { cell })
    }
}

/// Rows `1 ..= k - 1` of the left and right columns, each row left first.
pub open spec fn left_right(gw: int, k: int) -> Seq<(i32, i32)>
    decreases k,
{
    if k <= 1 {
        Seq::empty()
    } else {
        let y = (k - 1) as i32;
        let cell = seq![(0i32, y)];
        left_right(gw, k - 1) + (if gw > 1 { cell.push(((gw - 1) as i32, y)) } else { cell })
    }
}

/// The order in which a `gw` x `gh` grid is first searched: the interior in
/// snake order, then the border (top and bottom rows, then the left and
/// right columns).
pub open spec fn initial_order_spec(gw: int, gh: int) -> Seq<(i32, i32)> {
    snake_rows(gw, gh - 1) + top_bottom(gh, gw) + left_right(gw, gh - 1)
}

/// The order in which the blocks of a `gw` x `gh` grid are first searched.
pub fn initial_search_order(gw: i32, gh: i32) -> (r: Vec<(i32, i32)>)
    requires
        in_i32(gw * gh),
        gh > i32::MIN,
        gw > i32::MIN,
    ensures
        r@ == initial_order_spec(gw as int, gh as int),
        1 <= gw && 1 <= gh && gw * gh <= i32::MAX ==> {
            &&& no_dup(r@)
            &&& all_in_grid(r@, gw as int, gh as int)
            &&& forall|c: (i32, i32)| in_grid(c, gw as int, gh as int) ==> #[trigger] r@.contains(c)
        },
{
    let mut order: Vec<(i32, i32)> = Vec::new();
    let mut y: i32 = 1;
    while y < gh - 1
        invariant
            gh > i32::MIN,
            gw > i32::MIN,
            1 <= y,
            gh - 1 >= 1 ==> y <= gh - 1,
            gh - 1 < 1 ==> y == 1,
            order@ == snake_rows(gw as int, y as int),
        decreases gh - y,
    {
        let ghost before = order@;
        if y % 2 == 0 {
            let mut x: i32 = 1;
            while x < gw - 1
                invariant
                    gw > i32::MIN,
                    1 <= x,
                    gw - 1 >= 1 ==> x <= gw - 1,
                    gw - 1 < 1 ==> x == 1,
                    y % 2 == 0,
                    order@ == before + snake_row(gw as int, y as int).take(x - 1),
                decreases gw - x,
            {
                order.push((x, y));
                proof {
                    assert(order@ =~= before + snake_row(gw as int, y as int).take(x as int));
                }
                x = x + 1;
            }
            assert(snake_row(gw as int, y as int).take(x - 1) =~= snake_row(gw as int, y as int));
        } else {
            let mut x: i32 = gw - 1;
            while x > 1
                invariant
                    gw > i32::MIN,
                    x <= gw - 1,
                    gw - 1 > 1 ==> x >= 1,
                    gw - 1 <= 1 ==> x == gw - 1,
                    y % 2 != 0,
                    order@ == before + snake_row(gw as int, y as int).take(gw - 1 - x),
                decreases x,
            {
                x = x - 1;
                order.push((x, y));
                proof {
                    assert(order@ =~= before + snake_row(gw as int, y as int).take(gw - 1 - x));
                }
            }
            assert(snake_row(gw as int, y as int).take(gw - 1 - x) =~= snake_row(gw as int, y as int));
        }
        y = y + 1;
    }
    let ghost part1 = order@;
    let mut x: i32 = 0;
    while x < gw
        invariant
            gh > i32::MIN,
            gw > i32::MIN,
            0 <= x,
            gw >= 0 ==> x <= gw,
            gw < 0 ==> x == 0,
            order@ == part1 + top_bottom(gh as int, x as int),
        decreases gw - x,
    {
        order.push((x, 0));
        if gh > 1 {
            order.push((x, gh - 1));
        }
        proof {
            assert(order@ =~= part1 + top_bottom(gh as int, x + 1));
        }
        x = x + 1;
    }
    let ghost part2 = order@;
    let mut y: i32 = 1;
    while y < gh - 1
        invariant
            gh > i32::MIN,
            gw > i32::MIN,
            1 <= y,
            gh - 1 >= 1 ==> y <= gh - 1,
            gh - 1 < 1 ==> y == 1,
            order@ == part2 + left_right(gw as int, y as int),
        decreases gh - y,
    {
        order.push((0, y));
        if gw > 1 {
            order.push((gw - 1, y));
        }
        proof {
            assert(order@ =~= part2 + left_right(gw as int, y + 1));
        }
        y = y + 1;
    }
    proof {
        assert(order@ =~= initial_order_spec(gw as int, gh as int));
        if 1 <= gw && 1 <= gh && gw * gh <= i32::MAX {
            lemma_initial_order_permutes(gw as int, gh as int);
        }
    }
    order
}

/// The first (row) pass of the 4 x 4 Hadamard transform of row `i`.
pub open spec fn h_row(d: [[i32; 4]; 4], i: int) -> (int, int, int, int) {
    let s0 = d[i][0] + d[i][1];
    let s1 = d[i][0] - d[i][1];
    let s2 = d[i][2] + d[i][3];
    let s3 = d[i][2] - d[i][3];
    (s0 + s2, s1 + s3, s0 - s2, s1 - s3)
}

/// Entry `j` of the transformed row `i`.
pub open spec fn h_at(d: [[i32; 4]; 4], i: int, j: int) -> int {
    let r = h_row(d, i);
    if j == 0 { r.0 } else if j == 1 { r.1 } else if j == 2 { r.2 } else { r.3 }
}

/// The absolute values of the second (column) pass for column `j`, summed.
pub open spec fn h_col_sum(d: [[i32; 4]; 4], j: int) -> int {
    let s0 = h_at(d, 0, j) + h_at(d, 1, j);
    let s1 = h_at(d, 0, j) - h_at(d, 1, j);
    let s2 = h_at(d, 2, j) + h_at(d, 3, j);
    let s3 = h_at(d, 2, j) - h_at(d, 3, j);
    abs(s0 + s2) + abs(s1 + s3) + abs(s0 - s2) + abs(s1 - s3)
}

/// The sum of the first `k` column sums.
pub open spec fn h_total(d: [[i32; 4]; 4], k: int) -> int
    decreases k,
{
    if k <= 0 { 0 } else { h_total(d, k - 1) + h_col_sum(d, k - 1) }
}

/// Whether every step of `hadamard4_satd` stays within `i32`.
pub open spec fn hadamard_fits(d: [[i32; 4]; 4]) -> bool {
    &&& forall|i: int, j: int| 0 <= i < 4 && 0 <= j < 4 ==> -0x1000_0000 <= #[trigger] d[i][j] <= 0x1000_0000
    &&& forall|k: int| 0 <= k <= 4 ==> #[trigger] h_total(d, k) <= i32::MAX
}

/// Half the sum of the absolute values of the 4 x 4 Hadamard transform of
/// a block of differences (the SATD cost).
pub fn hadamard4_satd(diff: [[i32; 4]; 4]) -> (r: u32)
    requires
        hadamard_fits(diff),
    ensures
        r == h_total(diff, 4) / 2,
{
    let mut t: [[i32; 4]; 4] = [[0; 4]; 4];
    let mut i: usize = 0;
    while i < 4
        invariant
            0 <= i <= 4,
            hadamard_fits(diff),
            forall|a: int, j: int| 0 <= a < i && 0 <= j < 4 ==> #[trigger] t[a][j] == h_at(diff, a, j),
        decreases 4 - i,
    {
        assert(-0x1000_0000 <= diff[i as int][0] <= 0x1000_0000);
        assert(-0x1000_0000 <= diff[i as int][1] <= 0x1000_0000);
        assert(-0x1000_0000 <= diff[i as int][2] <= 0x1000_0000);
        assert(-0x1000_0000 <= diff[i as int][3] <= 0x1000_0000);
        let s0 = diff[i][0] + diff[i][1];
        let s1 = diff[i][0] - diff[i][1];
        let s2 = diff[i][2] + diff[i][3];
        let s3 = diff[i][2] - diff[i][3];
        t[i] = [s0 + s2, s1 + s3, s0 - s2, s1 - s3];
        i = i + 1;
    }
    let mut s: i32 = 0;
    let mut j: usize = 0;
    while j < 4
        invariant
            0 <= j <= 4,
            hadamard_fits(diff),
            forall|a: int, c: int| 0 <= a < 4 && 0 <= c < 4 ==> #[trigger] t[a][c] == h_at(diff, a, c),
            s == h_total(diff, j as int),
        decreases 4 - j,
    {
        assert(t[0][j as int] == h_at(diff, 0, j as int));
        assert(t[1][j as int] == h_at(diff, 1, j as int));
        assert(t[2][j as int] == h_at(diff, 2, j as int));
        assert(t[3][j as int] == h_at(diff, 3, j as int));
        assert(h_total(diff, j + 1) <= i32::MAX);
        assert(h_total(diff, j as int) >= 0) by {
            lemma_h_total_nonneg(diff, j as int);
        }
        let s0 = t[0][j] + t[1][j];
        let s1 = t[0][j] - t[1][j];
        let s2 = t[2][j] + t[3][j];
        let s3 = t[2][j] - t[3][j];
        let a = s0 + s2;
        let b = s1 + s3;
        let c = s0 - s2;
        let d = s1 - s3;
        let aa = if a < 0 { -a } else { a };
        let ab = if b < 0 { -b } else { b };
        let ac = if c < 0 { -c } else { c };
        let ad = if d < 0 { -d } else { d };
        s = s + (aa + ab + ac + ad);
        j = j + 1;
    }
    let su = s as u32;
    proof {
        lemma_h_total_nonneg(diff, 4);
        assert(su >> 1u32 == su / 2) by (bit_vector);
    }
    su >> 1
}

/// Partial Hadamard sums are never negative.
pub proof fn lemma_h_total_nonneg(d: [[i32; 4]; 4], k: int)
    ensures
        h_total(d, k) >= 0,
    decreases k,
{
    if k > 0 {
        lemma_h_total_nonneg(d, k - 1);
    }
}

/// How far a vector takes a block out of the frame along one axis (0 when
/// it stays in).
pub open spec fn overshoot(mv: int, lo: int, hi: int) -> int {
    if mv < lo { mv - lo } else if hi > lo && mv >= hi { mv + 1 - hi } else { 0 }
}

/// What `edge_shift_origins` returns: `None` when the vector keeps the
/// block inside; else the block origin moved back by the overshoot
/// (clamped into the frame) and the position it refers to at `pel`
/// precision.
pub open spec fn edge_shift_spec(px: int, py: int, mvx: int, mvy: int, bw: int, bh: int, lw: int, lh: int, pel: int) -> Option<(int, int, int, int)> {
    let p = if pel < 1 { 1 } else { pel };
    let (min_x, min_y, max_x, max_y) = mv_bounds_spec(px, py, bw, bh, lw, lh, p);
    let ox = overshoot(mvx, min_x, max_x);
    let oy = overshoot(mvy, min_y, max_y);
    if ox == 0 && oy == 0 {
        None
    } else {
        let cx = clamp(px - ox, 0, if lw - bw < 0 { 0 } else { lw - bw });
        let cy = clamp(py - oy, 0, if lh - bh < 0 { 0 } else { lh - bh });
        let (rx, ry) = if p == 1 {
            (cx + mvx, cy + mvy)
        } else if p == 4 {
            ((4 * cx + mvx) / 4, (4 * cy + mvy) / 4)
        } else {
            ((2 * cx + mvx) / 2, (2 * cy + mvy) / 2)
        };
        Some((cx, cy, rx, ry))
    }
}

/// Whether every step of `edge_shift_origins` stays within `i32`.
pub open spec fn edge_shift_fits(px: int, py: int, mvx: int, mvy: int, bw: int, bh: int, lw: int, lh: int, pel: int) -> bool {
    let p = if pel < 1 { 1 } else { pel };
    let (min_x, min_y, max_x, max_y) = mv_bounds_spec(px, py, bw, bh, lw, lh, p);
    let ox = overshoot(mvx, min_x, max_x);
    let oy = overshoot(mvy, min_y, max_y);
    let cx = clamp(px - ox, 0, if lw - bw < 0 { 0 } else { lw - bw });
    let cy = clamp(py - oy, 0, if lh - bh < 0 { 0 } else { lh - bh });
    &&& mv_bounds_fits(px, py, bw, bh, lw, lh, p)
    &&& in_i32(mvx - min_x) && in_i32(mvy - min_y)
    &&& in_i32(mvx + 1) && in_i32(mvx + 1 - max_x) && in_i32(mvy + 1) && in_i32(mvy + 1 - max_y)
    &&& in_i32(px - ox) && in_i32(py - oy) && in_i32(lw - bw) && in_i32(lh - bh)
    &&& p == 4 ==> in_i32(4 * cx) && in_i32(4 * cy) && in_i32(4 * cx + mvx) && in_i32(4 * cy + mvy)
    &&& p != 1 && p != 4 ==> in_i32(2 * cx) && in_i32(2 * cy) && in_i32(2 * cx + mvx) && in_i32(2 * cy + mvy)
    &&& p == 1 ==> in_i32(cx + mvx) && in_i32(cy + mvy)
}

/// For a vector that takes the block at (`px`, `py`) out of the frame:
/// the block origin moved back inside and the position the vector then
/// refers to; `None` when the block stays in.
pub fn edge_shift_origins(
    px: i32,
    py: i32,
    mvx: i32,
    mvy: i32,
    bw: i32,
    bh: i32,
    lw: i32,
    lh: i32,
    pel: i32,
) -> (r: Option<(i32, i32, i32, i32)>)
    requires
        edge_shift_fits(px as int, py as int, mvx as int, mvy as int, bw as int, bh as int, lw as int, lh as int, pel as int),
    ensures
        match r {
            Some(t) => edge_shift_spec(px as int, py as int, mvx as int, mvy as int, bw as int, bh as int, lw as int, lh as int, pel as int)
                == Some((t.0 as int, t.1 as int, t.2 as int, t.3 as int)),
            None => edge_shift_spec(px as int, py as int, mvx as int, mvy as int, bw as int, bh as int, lw as int, lh as int, pel as int) is None,
        },
{
    let pel = if pel < 1 {
        1
    } else {
        pel
    };
    let (min_x, min_y, max_x, max_y) = mv_bounds(px, py, bw, bh, lw, lh, pel);
    let ox = if mvx < min_x {
        mvx - min_x
    } else if max_x > min_x && mvx >= max_x {
        mvx + 1 - max_x
    } else {
        0
    };
    let oy = if mvy < min_y {
        mvy - min_y
    } else if max_y > min_y && mvy >= max_y {
        mvy + 1 - max_y
    } else {
        0
    };
    if ox == 0 && oy == 0 {
        return None;
    }
    let wx = lw - bw;
    let wy = lh - bh;
    let hx = if wx < 0 {
        0
    } else {
        wx
    };
    let hy = if wy < 0 {
        0
    } else {
        wy
    };
    let tx = px - ox;
    let ty = py - oy;
    let cx = if tx < 0 {
        0
    } else if tx > hx {
        hx
    } else {
        tx
    };
    let cy = if ty < 0 {
        0
    } else if ty > hy {
        hy
    } else {
        ty
    };
    let (rx, ry) = if pel == 1 {
        (cx + mvx, cy + mvy)
    } else if pel == 4 {
        let a = 4 * cx + mvx;
        let b = 4 * cy + mvy;
        proof {
            assert(a >> 2u32 == (a as int) / 4) by (bit_vector);
            assert(b >> 2u32 == (b as int) / 4) by (bit_vector);
        }
        (a >> 2u32, b >> 2u32)
    } else {
        let a = 2 * cx + mvx;
        let b = 2 * cy + mvy;
        proof {
            assert(a >> 1u32 == (a as int) / 2) by (bit_vector);
            assert(b >> 1u32 == (b as int) / 2) by (bit_vector);
        }
        (a >> 1u32, b >> 1u32)
    };
    Some((cx, cy, rx, ry))
}

} // verus!
