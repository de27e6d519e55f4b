//! The tiles of a warp render: the rectangles of output pixels between the
//! centres of neighbouring blocks, each with the four vectors around it.
use vstd::prelude::*;
use crate::arith::sat_usize;
use crate::warp::{PlaneParams, Tile};

verus! {

/// `v` within the `i32` range.
pub open spec fn in_range(v: int) -> bool {
    i32::MIN <= v <= i32::MAX
}

/// One band of tiles along an axis: band `g` (from -1, the border band
/// before the first block origin) starts at `base` and spans `size`
/// samples, the last band (or one reaching the end) stretched to `total`.
/// `None` where a step leaves `i32`.
pub open spec fn band(origin: int, block: int, total: int, count: int, g: int) -> Option<(int, int)> {
    let base = if g < 0 { 0 } else { origin + block * g };
    let size = if g < 0 { origin } else { block };
    if !in_range(block * g) || !in_range(base) || !in_range(base + block) {
        None
    } else if base + block >= total || g == count - 1 {
        if in_range(total - base) { Some((base, total - base)) } else { None }
    } else {
        Some((base, size))
    }
}

/// The rows of band `gy` that lie within `row_start .. row_end`: first row
/// and height (not positive when none). `None` where a step leaves `i32`.
pub open spec fn clipped_rows(params: PlaneParams, gh: int, row_start: int, row_end: int, gy: int) -> Option<(int, int, int)> {
    match band(params.origin_y as int, params.block_h as int, params.height as int, gh, gy) {
        None => None,
        Some((base, height)) => {
            if !in_range(base + height) {
                None
            } else {
                let end_y = if base + height < row_end { base + height } else { row_end };
                let clipped = if base > row_start { base } else { row_start };
                if !in_range(end_y - clipped) || !in_range(clipped - base) {
                    None
                } else {
                    Some((base, clipped, end_y - clipped))
                }
            }
        },
    }
}

/// The tile of band `gx` across and band `gy` down, if it has pixels.
pub open spec fn tile_at(params: PlaneParams, grid_w: int, grid_h: int, row_start: int, row_end: int, gx: int, gy: int) -> Option<Tile> {
    let gw = grid_w;
    let gh = grid_h;
    match (clipped_rows(params, gh, row_start, row_end, gy), band(params.origin_x as int, params.block_w as int, params.width as int, gw, gx)) {
        (Some((base_y, clipped_y, height)), Some((base_x, width))) => {
            if height <= 0 || width <= 0 {
                None
            } else {
                let x0 = if gx < 0 { 0 } else { gx };
                let y0 = if gy < 0 { 0 } else { gy };
                let next_x = if gx >= 0 && gx != gw - 1 { 1int } else { 0 };
                let next_y = if gy >= 0 && gy != gh - 1 { grid_w } else { 0 };
                let i00 = sat_usize(sat_usize(y0 * grid_w) + x0);
                Some(Tile {
                    x: base_x as i32,
                    y: clipped_y as i32,
                    width: width as i32,
                    height: height as i32,
                    local_y: (clipped_y - base_y) as i32,
                    i00: i00 as usize,
                    i01: sat_usize(i00 + next_x) as usize,
                    i10: sat_usize(i00 + next_y) as usize,
                    i11: sat_usize(sat_usize(i00 + next_y) + next_x) as usize,
                })
            }
        },
        _ => None,
    }
}

/// Whether every band is computed without leaving `i32`.
pub open spec fn tiles_fit(params: PlaneParams, grid_w: int, grid_h: int, row_start: int, row_end: int) -> bool {
    &&& forall|gy: int| -1 <= gy < grid_h ==> #[trigger] clipped_rows(params, grid_h, row_start, row_end, gy) is Some
    &&& forall|gx: int| -1 <= gx < grid_w ==> #[trigger] band(params.origin_x as int, params.block_w as int, params.width as int, grid_w, gx) is Some
}

/// The tiles of bands `gx` from -1 up to (not including) `end` in band
/// row `gy`, left to right.
pub open spec fn row_tiles(params: PlaneParams, grid_w: int, grid_h: int, row_start: int, row_end: int, gy: int, end: int) -> Seq<Tile>
    decreases end + 1,
{
    if end <= -1 {
        Seq::empty()
    } else {
        let prev = row_tiles(params, grid_w, grid_h, row_start, row_end, gy, end - 1);
        match tile_at(params, grid_w, grid_h, row_start, row_end, end - 1, gy) {
            Some(t) => prev.push(t),
            None => prev,
        }
    }
}

/// The tiles of band rows -1 up to (not including) `end`, top to bottom;
/// a band row whose clipped height is not positive gives none.
pub open spec fn all_tiles(params: PlaneParams, grid_w: int, grid_h: int, row_start: int, row_end: int, end: int) -> Seq<Tile>
    decreases end + 1,
{
    if end <= -1 {
        Seq::empty()
    } else {
        all_tiles(params, grid_w, grid_h, row_start, row_end, end - 1) + row_tiles(
            params,
            grid_w,
            grid_h,
            row_start,
            row_end,
            end - 1,
            grid_w,
        )
    }
}

/// Whether `render_tiles` gives no tiles at all: a grid too large for
/// `i32`, or an empty plane, block or grid.
pub open spec fn tiles_skipped(params: PlaneParams, grid_w: int, grid_h: int) -> bool {
    grid_w > i32::MAX || grid_h > i32::MAX || params.width <= 0 || params.height <= 0 || params.block_w <= 0
        || params.block_h <= 0 || grid_w == 0 || grid_h == 0
}

/// One band along an axis (see `band`).
fn band_exec(origin: i32, block: i32, total: i32, count: i32, g: i32) -> (r: (i32, i32))
    requires
        count > 0,
        band(origin as int, block as int, total as int, count as int, g as int) is Some,
    ensures
        (r.0 as int, r.1 as int) == band(origin as int, block as int, total as int, count as int, g as int)->0,
{
    let base = if g < 0 { 0 } else { origin + block * g };
    let mut size = if g < 0 { origin } else { block };
    if base + block >= total || g == count - 1 {
        size = total - base;
    }
    (base, size)
}

/// The tiles of a plane render, covering the rows `row_start .. row_end`:
/// band rows top to bottom, in each the bands left to right, one tile per
/// band pair with pixels.
pub fn render_tiles(params: &PlaneParams, grid_w: usize, grid_h: usize, row_start: i32, row_end: i32) -> (r: Vec<Tile>)
    requires
        !tiles_skipped(*params, grid_w as int, grid_h as int) ==> tiles_fit(*params, grid_w as int, grid_h as int, row_start as int, row_end as int),
    ensures
        r@ == (if tiles_skipped(*params, grid_w as int, grid_h as int) {
            Seq::<Tile>::empty()
        } else {
            all_tiles(*params, grid_w as int, grid_h as int, row_start as int, row_end as int, grid_h as int)
        }),
{
    let mut out: Vec<Tile> = Vec::new();
    if grid_w > 0x7fff_ffff || grid_h > 0x7fff_ffff {
        return out;
    }
    let gw = grid_w as i32;
    let gh = grid_h as i32;
    if params.width <= 0 || params.height <= 0 || params.block_w <= 0 || params.block_h <= 0 || grid_w == 0 || grid_h == 0 {
        return out;
    }
    let mut gy: i32 = -1;
    while gy < gh
        invariant
            -1 <= gy <= gh,
            gw == grid_w,
            gh == grid_h,
            gw > 0,
            gh > 0,
            tiles_fit(*params, grid_w as int, grid_h as int, row_start as int, row_end as int),
            out@ == all_tiles(*params, grid_w as int, grid_h as int, row_start as int, row_end as int, gy as int),
        decreases gh - gy,
    {
        assert(clipped_rows(*params, grid_h as int, row_start as int, row_end as int, gy as int) is Some);
        let (base_y, height0) = band_exec(params.origin_y, params.block_h, params.height, gh, gy);
        let end_y = if base_y + height0 < row_end { base_y + height0 } else { row_end };
        let clipped_y = if base_y > row_start { base_y } else { row_start };
        let height = end_y - clipped_y;
        let ghost row_start_len = out@.len();
        let ghost before = out@;
        if height > 0 {
            let mut gx: i32 = -1;
            while gx < gw
                invariant
                    -1 <= gx <= gw,
                    -1 <= gy < gh,
                    gw == grid_w,
                    gh == grid_h,
                    gw > 0,
                    height > 0,
                    clipped_rows(*params, grid_h as int, row_start as int, row_end as int, gy as int) == Some(
                        (base_y as int, clipped_y as int, height as int),
                    ),
                    tiles_fit(*params, grid_w as int, grid_h as int, row_start as int, row_end as int),
                    out@ == before + row_tiles(*params, grid_w as int, grid_h as int, row_start as int, row_end as int, gy as int, gx as int),
                decreases gw - gx,
            {
                assert(band(params.origin_x as int, params.block_w as int, params.width as int, grid_w as int, gx as int) is Some);
                let (base_x, width) = band_exec(params.origin_x, params.block_w, params.width, gw, gx);
                if width > 0 {
                    let x0: usize = if gx < 0 { 0 } else { gx as usize };
                    let y0: usize = if gy < 0 { 0 } else { gy as usize };
                    let next_x: usize = if gx >= 0 && gx != gw - 1 { 1 } else { 0 };
                    let next_y: usize = if gy >= 0 && gy != gh - 1 { grid_w } else { 0 };
                    let i00 = crate::arith::sat_add_usize(crate::arith::sat_mul_usize(y0, grid_w), x0);
                    let t = Tile {
                        x: base_x,
                        y: clipped_y,
                        width,
                        height,
                        local_y: clipped_y - base_y,
                        i00,
                        i01: crate::arith::sat_add_usize(i00, next_x),
                        i10: crate::arith::sat_add_usize(i00, next_y),
                        i11: crate::arith::sat_add_usize(crate::arith::sat_add_usize(i00, next_y), next_x),
                    };
                    out.push(t);
                }
                proof {
                    assert(out@ =~= before + row_tiles(*params, grid_w as int, grid_h as int, row_start as int, row_end as int, gy as int, gx + 1));
                }
                gx = gx + 1;
            }
        } else {
            proof {
                lemma_row_tiles_empty(*params, grid_w as int, grid_h as int, row_start as int, row_end as int, gy as int, grid_w as int);
            }
        }
        proof {
            assert(out@ =~= all_tiles(*params, grid_w as int, grid_h as int, row_start as int, row_end as int, gy + 1));
        }
        gy = gy + 1;
    }
    out
}

/// A band row without rows gives no tiles.
pub proof fn lemma_row_tiles_empty(params: PlaneParams, grid_w: int, grid_h: int, row_start: int, row_end: int, gy: int, end: int)
    requires
        clipped_rows(params, grid_h, row_start, row_end, gy) matches Some((_, _, h)) && h <= 0,
    ensures
        row_tiles(params, grid_w, grid_h, row_start, row_end, gy, end) =~= Seq::<Tile>::empty(),
    decreases end + 1,
{
    if end > -1 {
        lemma_row_tiles_empty(params, grid_w, grid_h, row_start, row_end, gy, end - 1);
    }
}

} // verus!
