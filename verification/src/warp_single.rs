//! Rendering a plane warped along one vector field (the selected-field
//! algorithms): every pixel of a tile takes the source sample displaced by
//! the interpolated motion, laid over the undisplaced sample by the
//! occlusion mask when there is one.
use vstd::prelude::*;
use crate::renderer::{Plane, MotionPlanes, byte_spec, blend_255_spec, mode1_pixel};
use crate::warp::{
    PlaneParams, Tile, MotionSamples, MotionRow, AlphaPos, in_i32, interp_pair_spec, interp_pair_fits,
    interpolate_row_spec, interpolate_row_fits, interpolate_motion_row, interpolate_motion, mask_byte,
    alpha_row, alpha_at_row, alpha_at_absolute, alpha_at_absolute_spec, alpha_at_absolute_fits,
    sample_plane_spec, sample_plane_fits, sample_plane, tile_interior, tile_interior_spec,
};
use crate::mode23::{
    col_weights, mask_corners, out_row_start, row_fits, motion_samples, motion_samples_spec, plane_covers,
    plane_covers_spec,
};
use crate::tiles::{render_tiles, all_tiles, tiles_skipped, tiles_fit};

verus! {

/// What one tile of a selected-field warp reads: the source plane, the
/// field's motion at the tile's corners, the optional occlusion mask (on
/// its own grid when `mask_params` is given), and how to sample.
#[derive(Clone, Copy)]
pub struct WarpInput<'a> {
    pub source: Plane<'a>,
    pub motion: MotionSamples,
    pub mask: Option<&'a [u8]>,
    pub mask_params: Option<PlaneParams>,
    pub grid_w: usize,
    pub interp: bool,
    pub direct: bool,
}

/// The motion of a field with corner samples `m` at column `x` of tile
/// row `ly`.
pub open spec fn field_motion(m: MotionSamples, interp: bool, params: PlaneParams, x: int, ly: int) -> (int, int) {
    let (x0, x1) = interpolate_row_spec(false, m.x, params, ly, interp);
    let (y0, y1) = interpolate_row_spec(false, m.y, params, ly, interp);
    if !interp {
        (x0, y0)
    } else {
        let w = col_weights(params, x);
        (
            interp_pair_spec(false, x0, x1, params.block_w as int, params.x_shift as int, w),
            interp_pair_spec(false, y0, y1, params.block_w as int, params.x_shift as int, w),
        )
    }
}

/// Whether `field_motion` stays within `i32`.
pub open spec fn field_motion_fits(m: MotionSamples, interp: bool, params: PlaneParams, x: int, ly: int) -> bool {
    let (x0, x1) = interpolate_row_spec(false, m.x, params, ly, interp);
    let (y0, y1) = interpolate_row_spec(false, m.y, params, ly, interp);
    let w = col_weights(params, x);
    &&& interpolate_row_fits(false, m.x, params, ly, interp)
    &&& interpolate_row_fits(false, m.y, params, ly, interp)
    &&& interp ==> interp_pair_fits(false, x0, x1, params.block_w as int, params.x_shift as int, w)
    &&& interp ==> interp_pair_fits(false, y0, y1, params.block_w as int, params.x_shift as int, w)
}

/// The opacity of `mask` at pixel (`x`, `y`) of a tile: from the mask's
/// own grid (`mask_params`, rows `grid_w` apart) at the absolute position,
/// else between the tile's corners (the top-left corner when not
/// interpolating).
pub open spec fn mask_alpha(mask: Seq<u8>, mask_params: Option<PlaneParams>, grid_w: int, interp: bool, params: PlaneParams, tile: Tile, x: int, y: int) -> int {
    let ly = tile.local_y + y;
    let (r0, r1) = interpolate_row_spec(false, mask_corners(mask, tile), params, ly, interp);
    match mask_params {
        Some(mp) => alpha_at_absolute_spec(mask, mp, grid_w, tile.x + x, tile.y + y),
        None => byte_spec(if interp {
            interp_pair_spec(false, r0, r1, params.block_w as int, params.x_shift as int, col_weights(params, x))
        } else {
            r0
        }),
    }
}

/// Whether `mask_alpha` stays within `i32`.
pub open spec fn mask_alpha_fits(mask: Seq<u8>, mask_params: Option<PlaneParams>, grid_w: int, interp: bool, params: PlaneParams, tile: Tile, x: int, y: int) -> bool {
    let ly = tile.local_y + y;
    let (r0, r1) = interpolate_row_spec(false, mask_corners(mask, tile), params, ly, interp);
    &&& interpolate_row_fits(false, mask_corners(mask, tile), params, ly, interp)
    &&& match mask_params {
        Some(mp) => alpha_at_absolute_fits(mask, mp, grid_w, tile.x + x, tile.y + y),
        None => interp ==> interp_pair_fits(false, r0, r1, params.block_w as int, params.x_shift as int, col_weights(params, x)),
    }
}

/// The motion at column `x` of tile row `ly`.
pub open spec fn warp_motion(input: WarpInput, params: PlaneParams, x: int, ly: int) -> (int, int) {
    field_motion(input.motion, input.interp, params, x, ly)
}

/// The opacity of `mask` at pixel (`x`, `y`) of a tile.
pub open spec fn warp_alpha(mask: Seq<u8>, input: WarpInput, params: PlaneParams, tile: Tile, x: int, y: int) -> int {
    mask_alpha(mask, input.mask_params, input.grid_w as int, input.interp, params, tile, x, y)
}

/// The source sample displaced by `m` from pixel (`x`, `y`) of a tile.
pub open spec fn warp_sample(input: WarpInput, params: PlaneParams, tile: Tile, x: int, y: int, m: (int, int)) -> int {
    sample_plane_spec(input.source, params, (tile.x + x) * params.source_step, (tile.y + y) * params.source_step, m.0, m.1, input.direct)
}

/// Pixel (`x`, `y`) of a tile: the warped sample, laid over the
/// undisplaced one by the mask's opacity when there is a mask.
pub open spec fn warp_pixel(input: WarpInput, params: PlaneParams, tile: Tile, x: int, y: int) -> u8 {
    let m = warp_motion(input, params, x, tile.local_y + y);
    let warped = warp_sample(input, params, tile, x, y, m);
    match input.mask {
        Some(mk) => blend_255_spec(warped, warp_sample(input, params, tile, x, y, (0, 0)), warp_alpha(mk@, input, params, tile, x, y)) as u8,
        None => warped as u8,
    }
}

/// Whether pixel (`x`, `y`) of a tile is computed in bounds and within
/// `i32`.
pub open spec fn warp_pixel_fits(input: WarpInput, params: PlaneParams, tile: Tile, x: int, y: int) -> bool {
    let ly = tile.local_y + y;
    let sx = (tile.x + x) * params.source_step;
    let sy = (tile.y + y) * params.source_step;
    &&& in_i32(ly) && in_i32(tile.y + y) && in_i32(tile.x + x) && in_i32(sy) && in_i32(sx)
    &&& field_motion_fits(input.motion, input.interp, params, x, ly)
    &&& sample_plane_fits(input.source, params, sx, sy, warp_motion(input, params, x, ly).0, warp_motion(input, params, x, ly).1, input.direct)
    &&& (input.mask matches Some(mk) ==> {
        &&& sample_plane_fits(input.source, params, sx, sy, 0, 0, input.direct)
        &&& mask_alpha_fits(mk@, input.mask_params, input.grid_w as int, input.interp, params, tile, x, y)
    })
}

/// The buffer after the first `k` rows of a tile are rendered.
pub open spec fn warp_tile_rows(buf: Seq<u8>, stride: int, input: WarpInput, params: PlaneParams, tile: Tile, row_start: int, k: int) -> Seq<u8>
    decreases k,
{
    if k <= 0 {
        buf
    } else {
        let prev = warp_tile_rows(buf, stride, input, params, tile, row_start, k - 1);
        match out_row_start(buf.len() as int, stride, tile, k - 1, row_start) {
            Some(start) => Seq::new(
                prev.len(),
                |i: int| if start <= i < start + tile.width { warp_pixel(input, params, tile, i - start, k - 1) } else { prev[i] },
            ),
            None => prev,
        }
    }
}

/// Whether every pixel of a tile is computed in bounds and within `i32`.
pub open spec fn warp_tile_fits(input: WarpInput, params: PlaneParams, tile: Tile, row_start: int) -> bool {
    &&& forall|y: int| 0 <= y < tile.height ==> #[trigger] row_fits(tile, row_start, y)
    &&& forall|x: int, y: int| 0 <= x < tile.width && 0 <= y < tile.height ==> #[trigger] warp_pixel_fits(input, params, tile, x, y)
}

/// One pixel of a tile (see `warp_pixel`), from the motion and mask
/// interpolated down to its row.
fn warp_at(input: &WarpInput<'_>, params: &PlaneParams, tile: &Tile, row: MotionRow, mask_row: [i32; 2], x: i32, y: i32) -> (r: u8)
    requires
        0 <= x < tile.width,
        0 <= y < tile.height,
        warp_pixel_fits(*input, *params, *tile, x as int, y as int),
        (row.x[0] as int, row.x[1] as int) == interpolate_row_spec(false, input.motion.x, *params, tile.local_y + y, input.interp),
        (row.y[0] as int, row.y[1] as int) == interpolate_row_spec(false, input.motion.y, *params, tile.local_y + y, input.interp),
        input.mask matches Some(mk) ==> (mask_row[0] as int, mask_row[1] as int)
            == interpolate_row_spec(false, mask_corners(mk@, *tile), *params, tile.local_y + y, input.interp),
    ensures
        r == warp_pixel(*input, *params, *tile, x as int, y as int),
{
    let px = tile.x + x;
    let py = tile.y + y;
    let source_x = px * params.source_step;
    let source_y = py * params.source_step;
    let wi: usize = if x > 31 { 31 } else { x as usize };
    let weights = params.x_weights[wi];
    assert(weights == col_weights(*params, x as int));
    let (dx, dy) = interpolate_motion::<false>(row, params, weights, input.interp);
    let warped = sample_plane(input.source, params, source_x, source_y, dx, dy, input.direct);
    match input.mask {
        Some(mk) => {
            let base = sample_plane(input.source, params, source_x, source_y, 0, 0, input.direct);
            let alpha = match &input.mask_params {
                Some(mp) => alpha_at_absolute(mk, mp, input.grid_w, px, py),
                None => alpha_at_row::<false>(mask_row, params, weights, input.interp),
            };
            mode1_pixel(base, warped, alpha)
        },
        None => warped,
    }
}

/// Renders the rows of `tile` that fall inside `dst` (whose first row is
/// frame row `row_start`) by warping along one field.
pub fn render_warp_tile(dst: &mut [u8], dst_stride: usize, input: &WarpInput<'_>, params: &PlaneParams, tile: &Tile, row_start: i32)
    requires
        warp_tile_fits(*input, *params, *tile, row_start as int),
    ensures
        final(dst)@ == warp_tile_rows(old(dst)@, dst_stride as int, *input, *params, *tile, row_start as int, tile.height as int),
{
    let ghost orig = dst@;
    let len = dst.len();
    let mut y: i32 = 0;
    while y < tile.height
        invariant
            0 <= y,
            tile.height > 0 ==> y <= tile.height,
            tile.height <= 0 ==> y == 0,
            len == orig.len(),
            dst@.len() == len,
            warp_tile_fits(*input, *params, *tile, row_start as int),
            dst@ == warp_tile_rows(orig, dst_stride as int, *input, *params, *tile, row_start as int, y as int),
        decreases tile.height - y,
    {
        assert(row_fits(*tile, row_start as int, y as int));
        let row = tile.y + y - row_start;
        let ghost before = dst@;
        let mut start_opt: Option<usize> = None;
        if row >= 0 && tile.x >= 0 && tile.width >= 0 {
            match (row as usize).checked_mul(dst_stride) {
                Some(p) => match p.checked_add(tile.x as usize) {
                    Some(s) => match s.checked_add(tile.width as usize) {
                        Some(e) => {
                            if e <= len {
                                start_opt = Some(s);
                            }
                        },
                        None => {},
                    },
                    None => {},
                },
                None => {},
            }
        }
        assert(start_opt == match out_row_start(len as int, dst_stride as int, *tile, y as int, row_start as int) {
            Some(s) => Some(s as usize),
            None => None::<usize>,
        });
        if tile.width <= 0 {
            start_opt = None;
        }
        match start_opt {
            Some(start) => {
                let ly = tile.local_y + y;
                proof {
                    assert(warp_pixel_fits(*input, *params, *tile, 0, y as int));
                }
                let motion_row = interpolate_motion_row::<false>(input.motion, params, ly, input.interp);
                let mask_row: [i32; 2] = match input.mask {
                    Some(mk) => alpha_row::<false>(mk, params, tile, ly, input.interp),
                    None => [0, 0],
                };
                let mut x: i32 = 0;
                while x < tile.width
                    invariant
                        0 <= x <= tile.width,
                        0 <= y < tile.height,
                        ly == tile.local_y + y,
                        len == orig.len(),
                        dst@.len() == len,
                        start + tile.width <= len,
                        out_row_start(len as int, dst_stride as int, *tile, y as int, row_start as int) == Some(start as int),
                        warp_tile_fits(*input, *params, *tile, row_start as int),
                        (motion_row.x[0] as int, motion_row.x[1] as int) == interpolate_row_spec(false, input.motion.x, *params, ly as int, input.interp),
                        (motion_row.y[0] as int, motion_row.y[1] as int) == interpolate_row_spec(false, input.motion.y, *params, ly as int, input.interp),
                        input.mask matches Some(mk) ==> (mask_row[0] as int, mask_row[1] as int)
                            == interpolate_row_spec(false, mask_corners(mk@, *tile), *params, ly as int, input.interp),
                        forall|i: int| 0 <= i < len ==> #[trigger] dst@[i] == (if start <= i < start + x {
                            warp_pixel(*input, *params, *tile, i - start, y as int)
                        } else {
                            before[i]
                        }),
                    decreases tile.width - x,
                {
                    assert(warp_pixel_fits(*input, *params, *tile, x as int, y as int));
                    let v = warp_at(input, params, tile, motion_row, mask_row, x, y);
                    dst[start + x as usize] = v;
                    x = x + 1;
                }
                proof {
                    assert(dst@ =~= warp_tile_rows(orig, dst_stride as int, *input, *params, *tile, row_start as int, y + 1));
                }
            },
            None => {
                proof {
                    assert(dst@ =~= warp_tile_rows(orig, dst_stride as int, *input, *params, *tile, row_start as int, y + 1));
                }
            },
        }
        y = y + 1;
    }
}

/// Everything a selected-field warp of one plane reads: the source plane,
/// the field as motion planes read through `lut`, the optional occlusion
/// mask (on its own grid when `mask_params` is given), the vector grid and
/// whether the vectors are interpolated.
#[derive(Clone, Copy)]
pub struct WarpPlane<'a> {
    pub source: Plane<'a>,
    pub motion: MotionPlanes<'a>,
    pub lut: &'a [i16; 2048],
    pub mask: Option<&'a [u8]>,
    pub mask_params: Option<PlaneParams>,
    pub grid_w: usize,
    pub grid_h: usize,
    pub interp: bool,
}

/// What one tile of a plane is rendered from: the field's motion at its
/// corners, and direct sampling when the source covers the plane and no
/// motion leaves it.
pub open spec fn warp_tile_input(plane: WarpPlane, params: PlaneParams, tile: Tile) -> WarpInput {
    let m = motion_samples_spec(plane.motion, *plane.lut, params, tile, plane.interp);
    WarpInput {
        source: plane.source,
        motion: m,
        mask: plane.mask,
        mask_params: plane.mask_params,
        grid_w: plane.grid_w,
        interp: plane.interp,
        direct: plane_covers_spec(plane.source, params) && tile_interior_spec(params, tile, seq![m]),
    }
}

/// The tiles a plane render covers (see `render_tiles`).
pub open spec fn warp_tile_list(plane: WarpPlane, params: PlaneParams, row_start: int, row_end: int) -> Seq<Tile> {
    if tiles_skipped(params, plane.grid_w as int, plane.grid_h as int) {
        Seq::empty()
    } else {
        all_tiles(params, plane.grid_w as int, plane.grid_h as int, row_start, row_end, plane.grid_h as int)
    }
}

/// The buffer after the first `k` of `tiles` are rendered.
pub open spec fn warp_plane_tiles(buf: Seq<u8>, stride: int, plane: WarpPlane, params: PlaneParams, tiles: Seq<Tile>, row_start: int, k: int) -> Seq<u8>
    decreases k,
{
    if k <= 0 {
        buf
    } else {
        let prev = warp_plane_tiles(buf, stride, plane, params, tiles, row_start, k - 1);
        warp_tile_rows(prev, stride, warp_tile_input(plane, params, tiles[k - 1]), params, tiles[k - 1], row_start, tiles[k - 1].height as int)
    }
}

/// Whether a plane render stays in bounds and within `i32` everywhere.
pub open spec fn warp_plane_fits(plane: WarpPlane, params: PlaneParams, row_start: int, row_end: int) -> bool {
    let tiles = warp_tile_list(plane, params, row_start, row_end);
    &&& !tiles_skipped(params, plane.grid_w as int, plane.grid_h as int) ==> tiles_fit(params, plane.grid_w as int, plane.grid_h as int, row_start, row_end)
    &&& params.x_div != 0 && params.x_div != -1
    &&& params.y_div != 0 && params.y_div != -1
    &&& forall|k: int| 0 <= k < tiles.len() ==> {
        let t = #[trigger] tiles[k];
        &&& (params.source_step > 0 ==> in_i32(t.x + t.width) && in_i32(t.x + t.width - 1) && in_i32(t.y + t.height) && in_i32(t.y + t.height - 1))
        &&& warp_tile_fits(warp_tile_input(plane, params, t), params, t, row_start)
    }
}

/// Renders rows `row_start .. row_end` of one plane warped along one field
/// into `dst` (whose first row is `row_start`), tile by tile.
pub fn render_warp_rows(dst: &mut [u8], dst_stride: usize, plane: &WarpPlane<'_>, params: &PlaneParams, row_start: i32, row_end: i32)
    requires
        warp_plane_fits(*plane, *params, row_start as int, row_end as int),
    ensures
        ({
            let tiles = warp_tile_list(*plane, *params, row_start as int, row_end as int);
            final(dst)@ == warp_plane_tiles(old(dst)@, dst_stride as int, *plane, *params, tiles, row_start as int, tiles.len() as int)
        }),
{
    let tiles = render_tiles(params, plane.grid_w, plane.grid_h, row_start, row_end);
    let ghost list = warp_tile_list(*plane, *params, row_start as int, row_end as int);
    assert(tiles@ == list);
    let ghost orig = dst@;
    let covers = plane_covers(plane.source, params);
    let n = tiles.len();
    let mut k: usize = 0;
    while k < n
        invariant
            n == tiles@.len(),
            tiles@ == list,
            0 <= k <= n,
            covers == plane_covers_spec(plane.source, *params),
            warp_plane_fits(*plane, *params, row_start as int, row_end as int),
            list == warp_tile_list(*plane, *params, row_start as int, row_end as int),
            dst@ == warp_plane_tiles(orig, dst_stride as int, *plane, *params, list, row_start as int, k as int),
        decreases n - k,
    {
        let tile = tiles[k];
        assert(tile == list[k as int]);
        let m = motion_samples(plane.motion, plane.lut, params, &tile, plane.interp);
        let motions = [m];
        assert(motions@ =~= seq![m]);
        let direct = covers && tile_interior(params, &tile, &motions);
        let input = WarpInput {
            source: plane.source,
            motion: m,
            mask: plane.mask,
            mask_params: plane.mask_params,
            grid_w: plane.grid_w,
            interp: plane.interp,
            direct,
        };
        assert(input == warp_tile_input(*plane, *params, tile));
        render_warp_tile(dst, dst_stride, &input, params, &tile, row_start);
        k = k + 1;
    }
}

} // verus!
