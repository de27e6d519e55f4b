//! Rendering a plane from both source frames warped toward each other
//! (the dual-field algorithms 11, 13, 21 and 22): every pixel of a tile
//! takes the undisplaced and the displaced sample of each source and the
//! opacities of up to three masks, and mixes them by the algorithm.
use vstd::prelude::*;
use crate::renderer::{
    Plane, MotionPlanes, BlendOrder, blend_255, blend_256, blend_255_spec, blend_256_spec, clamp_between_spec,
    mode11_or_13_pixel, mode11_or_13_pixel_spec, mode21_pixel, mode22_pixel, weight_ok, lemma_blend_fits,
    lemma_blend_255_byte_fits,
};
use crate::warp::{
    PlaneParams, Tile, MotionSamples, MotionRow, in_i32, interpolate_row_spec, interpolate_motion_row,
    interpolate_motion, alpha_row, alpha_at_row, alpha_at_absolute, sample_plane_spec, sample_plane_fits,
    sample_plane, tile_interior, tile_interior_spec,
};
use crate::mode23::{
    col_weights, mask_corners, out_row_start, row_fits, motion_samples, motion_samples_spec, plane_covers,
    plane_covers_spec,
};
use crate::warp_single::{field_motion, field_motion_fits, mask_alpha, mask_alpha_fits};
use crate::tiles::{render_tiles, all_tiles, tiles_skipped, tiles_fit};

verus! {

/// How a dual-field pixel is mixed: algorithm 11 or 13 (one mask), or
/// algorithm 21 or 22 (two occlusion masks and an optional final one).
#[derive(Clone, Copy)]
pub enum DualKind {
    Mode11Or13 { mode13: bool, order: BlendOrder },
    Mode21Or22 { mode21: bool },
}

/// An algorithm 21 or 22 pixel: the motion part by `mode21_pixel` or
/// `mode22_pixel` (missing masks count as 0), laid over the plain blend of
/// the sources (by `limit`) by the final mask when there is one.
pub open spec fn mode21_or_22_spec(
    mode21: bool,
    cur0: int,
    cur1: int,
    mv0: int,
    mv1: int,
    alpha0: Option<u8>,
    alpha1: Option<u8>,
    final_alpha: Option<u8>,
    q0: int,
    limit: int,
) -> int {
    let a0 = match alpha0 { Some(a) => a as int, None => 0 };
    let a1 = match alpha1 { Some(a) => a as int, None => 0 };
    let motion = if mode21 {
        blend_256_spec(blend_255_spec(mv0, mv1, a0), blend_255_spec(mv1, mv0, a1), q0)
    } else {
        clamp_between_spec(blend_256_spec(cur0, cur1, q0), blend_255_spec(mv0, mv1, a0), blend_255_spec(mv1, mv0, a1))
    };
    match final_alpha {
        Some(fa) => blend_255_spec(motion, blend_256_spec(cur0, cur1, limit), fa as int),
        None => motion,
    }
}

/// A dual-field pixel of algorithm `kind` with weight `q0` and final-mask
/// weight `limit`.
pub open spec fn dual_pixel_spec(
    kind: DualKind,
    cur0: int,
    cur1: int,
    mv0: int,
    mv1: int,
    alphas: (Option<u8>, Option<u8>, Option<u8>),
    q0: int,
    limit: int,
) -> int {
    match kind {
        DualKind::Mode11Or13 { mode13, order } => mode11_or_13_pixel_spec(mode13, cur0, cur1, mv0, mv1, q0, alphas.0),
        DualKind::Mode21Or22 { mode21 } => mode21_or_22_spec(mode21, cur0, cur1, mv0, mv1, alphas.0, alphas.1, alphas.2, q0, limit),
    }
}

/// An algorithm 21 or 22 pixel (see `mode21_or_22_spec`).
pub fn mode21_or_22_pixel(
    mode21: bool,
    cur0: u8,
    cur1: u8,
    mv0: u8,
    mv1: u8,
    alpha0: Option<u8>,
    alpha1: Option<u8>,
    final_alpha: Option<u8>,
    q0: i32,
    limit: i32,
) -> (r: u8)
    requires
        weight_ok(q0 as int),
        weight_ok(limit as int),
    ensures
        r == mode21_or_22_spec(mode21, cur0 as int, cur1 as int, mv0 as int, mv1 as int, alpha0, alpha1, final_alpha, q0 as int, limit as int),
{
    let a0 = match alpha0 { Some(a) => a, None => 0 };
    let a1 = match alpha1 { Some(a) => a, None => 0 };
    proof {
        lemma_blend_fits(cur0 as int, cur1 as int, q0 as int);
        lemma_blend_fits(cur0 as int, cur1 as int, limit as int);
    }
    let motion = if mode21 {
        mode21_pixel(mv0, mv1, a0, a1, q0)
    } else {
        mode22_pixel(mv0, mv1, cur0, cur1, a0, a1, q0)
    };
    match final_alpha {
        Some(fa) => {
            let base = blend_256(cur0, cur1, limit);
            proof {
                lemma_blend_255_byte_fits(motion as int, base as int, fa as int);
            }
            blend_255(motion, base, fa as i32)
        },
        None => motion,
    }
}

/// A dual-field pixel (see `dual_pixel_spec`).
pub fn dual_pixel(
    kind: DualKind,
    cur0: u8,
    cur1: u8,
    mv0: u8,
    mv1: u8,
    alphas: (Option<u8>, Option<u8>, Option<u8>),
    q0: i32,
    limit: i32,
) -> (r: u8)
    requires
        weight_ok(q0 as int),
        weight_ok(limit as int),
    ensures
        r == dual_pixel_spec(kind, cur0 as int, cur1 as int, mv0 as int, mv1 as int, alphas, q0 as int, limit as int),
{
    match kind {
        DualKind::Mode11Or13 { mode13, order } => mode11_or_13_pixel(mode13, cur0, cur1, mv0, mv1, q0, limit, alphas.0, order),
        DualKind::Mode21Or22 { mode21 } => mode21_or_22_pixel(mode21, cur0, cur1, mv0, mv1, alphas.0, alphas.1, alphas.2, q0, limit),
    }
}

/// What one tile of a dual-field render reads: both sources, the two
/// fields' motion at the tile's corners (source 0 along the first, source
/// 1 along the second), up to three masks (on their own grid when
/// `mask_params` is given), how to sample, and the algorithm.
#[derive(Clone, Copy)]
pub struct DualInput<'a> {
    pub source0: Plane<'a>,
    pub source1: Plane<'a>,
    pub motion: [MotionSamples; 2],
    pub masks: [Option<&'a [u8]>; 3],
    pub mask_params: Option<PlaneParams>,
    pub grid_w: usize,
    pub interp: bool,
    pub direct: bool,
    pub kind: DualKind,
    pub threshold: i32,
    pub threshold_limit: i32,
}

/// The opacity of mask `k` at pixel (`x`, `y`), if the mask is given.
pub open spec fn dual_alpha(input: DualInput, params: PlaneParams, tile: Tile, k: int, x: int, y: int) -> Option<u8> {
    match input.masks[k] {
        Some(mk) => Some(mask_alpha(mk@, input.mask_params, input.grid_w as int, input.interp, params, tile, x, y) as u8),
        None => None,
    }
}

/// The sample of `plane` displaced by `m` from pixel (`x`, `y`) of a tile.
pub open spec fn dual_sample(plane: Plane, input: DualInput, params: PlaneParams, tile: Tile, x: int, y: int, m: (int, int)) -> int {
    sample_plane_spec(plane, params, (tile.x + x) * params.source_step, (tile.y + y) * params.source_step, m.0, m.1, input.direct)
}

/// Pixel (`x`, `y`) of a tile.
pub open spec fn dual_pixel_at(input: DualInput, params: PlaneParams, tile: Tile, x: int, y: int) -> u8 {
    let ly = tile.local_y + y;
    let m0 = field_motion(input.motion[0], input.interp, params, x, ly);
    let m1 = field_motion(input.motion[1], input.interp, params, x, ly);
    dual_pixel_spec(
        input.kind,
        dual_sample(input.source0, input, params, tile, x, y, (0, 0)),
        dual_sample(input.source1, input, params, tile, x, y, (0, 0)),
        dual_sample(input.source0, input, params, tile, x, y, m0),
        dual_sample(input.source1, input, params, tile, x, y, m1),
        (dual_alpha(input, params, tile, 0, x, y), dual_alpha(input, params, tile, 1, x, y), dual_alpha(input, params, tile, 2, x, y)),
        input.threshold as int,
        input.threshold_limit as int,
    ) as u8
}

/// Whether `plane` is sampled in bounds at pixel (`x`, `y`) displaced by
/// `m`.
pub open spec fn dual_sample_fits(plane: Plane, input: DualInput, params: PlaneParams, tile: Tile, x: int, y: int, m: (int, int)) -> bool {
    sample_plane_fits(plane, params, (tile.x + x) * params.source_step, (tile.y + y) * params.source_step, m.0, m.1, input.direct)
}

/// Whether pixel (`x`, `y`) of a tile is computed in bounds and within
/// `i32`.
pub open spec fn dual_pixel_fits(input: DualInput, params: PlaneParams, tile: Tile, x: int, y: int) -> bool {
    let ly = tile.local_y + y;
    &&& in_i32(ly) && in_i32(tile.y + y) && in_i32(tile.x + x)
    &&& in_i32((tile.y + y) * params.source_step) && in_i32((tile.x + x) * params.source_step)
    &&& weight_ok(input.threshold as int) && weight_ok(input.threshold_limit as int)
    &&& field_motion_fits(input.motion[0], input.interp, params, x, ly)
    &&& field_motion_fits(input.motion[1], input.interp, params, x, ly)
    &&& dual_sample_fits(input.source0, input, params, tile, x, y, (0, 0))
    &&& dual_sample_fits(input.source1, input, params, tile, x, y, (0, 0))
    &&& dual_sample_fits(input.source0, input, params, tile, x, y, field_motion(input.motion[0], input.interp, params, x, ly))
    &&& dual_sample_fits(input.source1, input, params, tile, x, y, field_motion(input.motion[1], input.interp, params, x, ly))
    &&& forall|k: int| 0 <= k < 3 ==> (#[trigger] input.masks[k] matches Some(mk)
        ==> mask_alpha_fits(mk@, input.mask_params, input.grid_w as int, input.interp, params, tile, x, y))
}

/// The buffer after the first `k` rows of a tile are rendered.
pub open spec fn dual_tile_rows(buf: Seq<u8>, stride: int, input: DualInput, params: PlaneParams, tile: Tile, row_start: int, k: int) -> Seq<u8>
    decreases k,
{
    if k <= 0 {
        buf
    } else {
        let prev = dual_tile_rows(buf, stride, input, params, tile, row_start, k - 1);
        match out_row_start(buf.len() as int, stride, tile, k - 1, row_start) {
            Some(start) => Seq::new(
                prev.len(),
                |i: int| if start <= i < start + tile.width { dual_pixel_at(input, params, tile, i - start, k - 1) } else { prev[i] },
            ),
            None => prev,
        }
    }
}

/// Whether every pixel of a tile is computed in bounds and within `i32`.
pub open spec fn dual_tile_fits(input: DualInput, params: PlaneParams, tile: Tile, row_start: int) -> bool {
    &&& forall|y: int| 0 <= y < tile.height ==> #[trigger] row_fits(tile, row_start, y)
    &&& forall|x: int, y: int| 0 <= x < tile.width && 0 <= y < tile.height ==> #[trigger] dual_pixel_fits(input, params, tile, x, y)
}

/// The opacity of mask `k` at a pixel, from its row interpolation.
fn alpha_of(
    input: &DualInput<'_>,
    params: &PlaneParams,
    tile: &Tile,
    k: usize,
    mask_row: [i32; 2],
    weights: (i32, i32),
    x: i32,
    y: i32,
) -> (r: Option<u8>)
    requires
        k < 3,
        0 <= x < tile.width,
        0 <= y < tile.height,
        dual_pixel_fits(*input, *params, *tile, x as int, y as int),
        weights == col_weights(*params, x as int),
        input.masks[k as int] matches Some(mk) ==> (mask_row[0] as int, mask_row[1] as int)
            == interpolate_row_spec(false, mask_corners(mk@, *tile), *params, tile.local_y + y, input.interp),
    ensures
        r == dual_alpha(*input, *params, *tile, k as int, x as int, y as int),
{
    assert(input.masks[k as int] == input.masks[k as int]);
    match input.masks[k] {
        Some(mk) => Some(match &input.mask_params {
            Some(mp) => alpha_at_absolute(mk, mp, input.grid_w, tile.x + x, tile.y + y),
            None => alpha_at_row::<false>(mask_row, params, weights, input.interp),
        }),
        None => None,
    }
}

/// One pixel of a tile (see `dual_pixel_at`), from the motion and masks
/// interpolated down to its row.
fn dual_at(
    input: &DualInput<'_>,
    params: &PlaneParams,
    tile: &Tile,
    rows: [MotionRow; 2],
    mask_rows: [[i32; 2]; 3],
    x: i32,
    y: i32,
) -> (r: u8)
    requires
        0 <= x < tile.width,
        0 <= y < tile.height,
        dual_pixel_fits(*input, *params, *tile, x as int, y as int),
        forall|k: int| 0 <= k < 2 ==> {
            let m = #[trigger] input.motion[k];
            &&& (rows[k].x[0] as int, rows[k].x[1] as int) == interpolate_row_spec(false, m.x, *params, tile.local_y + y, input.interp)
            &&& (rows[k].y[0] as int, rows[k].y[1] as int) == interpolate_row_spec(false, m.y, *params, tile.local_y + y, input.interp)
        },
        forall|k: int| 0 <= k < 3 ==> (#[trigger] input.masks[k] matches Some(mk) ==> (mask_rows[k][0] as int, mask_rows[k][1] as int)
            == interpolate_row_spec(false, mask_corners(mk@, *tile), *params, tile.local_y + y, input.interp)),
    ensures
        r == dual_pixel_at(*input, *params, *tile, x as int, y as int),
{
    let px = tile.x + x;
    let py = tile.y + y;
    let source_x = px * params.source_step;
    let source_y = py * params.source_step;
    let wi: usize = if x > 31 { 31 } else { x as usize };
    let weights = params.x_weights[wi];
    assert(weights == col_weights(*params, x as int));
    proof {
        assert(input.motion[0] == input.motion[0]);
        assert(input.motion[1] == input.motion[1]);
        assert(input.masks[0] == input.masks[0]);
        assert(input.masks[1] == input.masks[1]);
        assert(input.masks[2] == input.masks[2]);
    }
    let (dx0, dy0) = interpolate_motion::<false>(rows[0], params, weights, input.interp);
    let (dx1, dy1) = interpolate_motion::<false>(rows[1], params, weights, input.interp);
    let cur0 = sample_plane(input.source0, params, source_x, source_y, 0, 0, input.direct);
    let cur1 = sample_plane(input.source1, params, source_x, source_y, 0, 0, input.direct);
    let mv0 = sample_plane(input.source0, params, source_x, source_y, dx0, dy0, input.direct);
    let mv1 = sample_plane(input.source1, params, source_x, source_y, dx1, dy1, input.direct);
    let a0 = alpha_of(input, params, tile, 0, mask_rows[0], weights, x, y);
    let a1 = alpha_of(input, params, tile, 1, mask_rows[1], weights, x, y);
    let a2 = alpha_of(input, params, tile, 2, mask_rows[2], weights, x, y);
    dual_pixel(input.kind, cur0, cur1, mv0, mv1, (a0, a1, a2), input.threshold, input.threshold_limit)
}

/// The corner opacities of mask `k` interpolated down to tile row `ly`
/// (zeros without the mask).
fn mask_row_of(input: &DualInput<'_>, params: &PlaneParams, tile: &Tile, k: usize, ly: i32) -> (r: [i32; 2])
    requires
        k < 3,
        input.masks[k as int] matches Some(mk) ==> crate::warp::interpolate_row_fits(false, mask_corners(mk@, *tile), *params, ly as int, input.interp),
    ensures
        input.masks[k as int] matches Some(mk) ==> (r[0] as int, r[1] as int)
            == interpolate_row_spec(false, mask_corners(mk@, *tile), *params, ly as int, input.interp),
{
    match input.masks[k] {
        Some(mk) => alpha_row::<false>(mk, params, tile, ly, input.interp),
        None => [0, 0],
    }
}

/// Renders the rows of `tile` that fall inside `dst` (whose first row is
/// frame row `row_start`) from both warped sources.
pub fn render_dual_tile(dst: &mut [u8], dst_stride: usize, input: &DualInput<'_>, params: &PlaneParams, tile: &Tile, row_start: i32)
    requires
        dual_tile_fits(*input, *params, *tile, row_start as int),
    ensures
        final(dst)@ == dual_tile_rows(old(dst)@, dst_stride as int, *input, *params, *tile, row_start as int, tile.height as int),
{
    let ghost orig = dst@;
    let len = dst.len();
    let mut y: i32 = 0;
    while y < tile.height
        invariant
            0 <= y,
            tile.height > 0 ==> y <= tile.height,
            tile.height <= 0 ==> y == 0,
            len == orig.len(),
            dst@.len() == len,
            dual_tile_fits(*input, *params, *tile, row_start as int),
            dst@ == dual_tile_rows(orig, dst_stride as int, *input, *params, *tile, row_start as int, y as int),
        decreases tile.height - y,
    {
        assert(row_fits(*tile, row_start as int, y as int));
        let row = tile.y + y - row_start;
        let ghost before = dst@;
        let mut start_opt: Option<usize> = None;
        if row >= 0 && tile.x >= 0 && tile.width >= 0 {
            match (row as usize).checked_mul(dst_stride) {
                Some(p) => match p.checked_add(tile.x as usize) {
                    Some(s) => match s.checked_add(tile.width as usize) {
                        Some(e) => {
                            if e <= len {
                                start_opt = Some(s);
                            }
                        },
                        None => {},
                    },
                    None => {},
                },
                None => {},
            }
        }
        assert(start_opt == match out_row_start(len as int, dst_stride as int, *tile, y as int, row_start as int) {
            Some(s) => Some(s as usize),
            None => None::<usize>,
        });
        if tile.width <= 0 {
            start_opt = None;
        }
        match start_opt {
            Some(start) => {
                let ly = tile.local_y + y;
                proof {
                    assert(dual_pixel_fits(*input, *params, *tile, 0, y as int));
                    assert(input.motion[0] == input.motion[0]);
                    assert(input.motion[1] == input.motion[1]);
                    assert(input.masks[0] == input.masks[0]);
                    assert(input.masks[1] == input.masks[1]);
                    assert(input.masks[2] == input.masks[2]);
                }
                let rows = [
                    interpolate_motion_row::<false>(input.motion[0], params, ly, input.interp),
                    interpolate_motion_row::<false>(input.motion[1], params, ly, input.interp),
                ];
                let mask_rows = [
                    mask_row_of(input, params, tile, 0, ly),
                    mask_row_of(input, params, tile, 1, ly),
                    mask_row_of(input, params, tile, 2, ly),
                ];
                let mut x: i32 = 0;
                while x < tile.width
                    invariant
                        0 <= x <= tile.width,
                        0 <= y < tile.height,
                        ly == tile.local_y + y,
                        len == orig.len(),
                        dst@.len() == len,
                        start + tile.width <= len,
                        out_row_start(len as int, dst_stride as int, *tile, y as int, row_start as int) == Some(start as int),
                        dual_tile_fits(*input, *params, *tile, row_start as int),
                        forall|k: int| 0 <= k < 2 ==> {
                            let m = #[trigger] input.motion[k];
                            &&& (rows[k].x[0] as int, rows[k].x[1] as int) == interpolate_row_spec(false, m.x, *params, ly as int, input.interp)
                            &&& (rows[k].y[0] as int, rows[k].y[1] as int) == interpolate_row_spec(false, m.y, *params, ly as int, input.interp)
                        },
                        forall|k: int| 0 <= k < 3 ==> (#[trigger] input.masks[k] matches Some(mk) ==> (mask_rows[k][0] as int, mask_rows[k][1] as int)
                            == interpolate_row_spec(false, mask_corners(mk@, *tile), *params, ly as int, input.interp)),
                        forall|i: int| 0 <= i < len ==> #[trigger] dst@[i] == (if start <= i < start + x {
                            dual_pixel_at(*input, *params, *tile, i - start, y as int)
                        } else {
                            before[i]
                        }),
                    decreases tile.width - x,
                {
                    assert(dual_pixel_fits(*input, *params, *tile, x as int, y as int));
                    let v = dual_at(input, params, tile, rows, mask_rows, x, y);
                    dst[start + x as usize] = v;
                    x = x + 1;
                }
                proof {
                    assert(dst@ =~= dual_tile_rows(orig, dst_stride as int, *input, *params, *tile, row_start as int, y + 1));
                }
            },
            None => {
                proof {
                    assert(dst@ =~= dual_tile_rows(orig, dst_stride as int, *input, *params, *tile, row_start as int, y + 1));
                }
            },
        }
        y = y + 1;
    }
}

/// Everything a dual-field render of one plane reads: both sources, the
/// two fields as motion planes (the first read through `threshold_lut`,
/// the second through `inverse_lut`), up to three masks (on their own grid
/// when `mask_params` is given), the vector grid, whether the vectors are
/// interpolated, the algorithm and its weights.
#[derive(Clone, Copy)]
pub struct DualPlane<'a> {
    pub source0: Plane<'a>,
    pub source1: Plane<'a>,
    pub motion0: MotionPlanes<'a>,
    pub motion1: MotionPlanes<'a>,
    pub threshold_lut: &'a [i16; 2048],
    pub inverse_lut: &'a [i16; 2048],
    pub masks: [Option<&'a [u8]>; 3],
    pub mask_params: Option<PlaneParams>,
    pub grid_w: usize,
    pub grid_h: usize,
    pub interp: bool,
    pub kind: DualKind,
    pub threshold: i32,
    pub threshold_limit: i32,
}

/// What one tile of a plane is rendered from: the two fields' motion at
/// its corners, and direct sampling when both sources cover the plane and
/// no motion leaves it.
pub open spec fn dual_tile_input(plane: DualPlane, params: PlaneParams, tile: Tile) -> DualInput {
    let m = [
        motion_samples_spec(plane.motion0, *plane.threshold_lut, params, tile, plane.interp),
        motion_samples_spec(plane.motion1, *plane.inverse_lut, params, tile, plane.interp),
    ];
    let covers = plane_covers_spec(plane.source0, params) && plane_covers_spec(plane.source1, params);
    DualInput {
        source0: plane.source0,
        source1: plane.source1,
        motion: m,
        masks: plane.masks,
        mask_params: plane.mask_params,
        grid_w: plane.grid_w,
        interp: plane.interp,
        direct: covers && tile_interior_spec(params, tile, m@),
        kind: plane.kind,
        threshold: plane.threshold,
        threshold_limit: plane.threshold_limit,
    }
}

/// The tiles a plane render covers (see `render_tiles`).
pub open spec fn dual_tile_list(plane: DualPlane, params: PlaneParams, row_start: int, row_end: int) -> Seq<Tile> {
    if tiles_skipped(params, plane.grid_w as int, plane.grid_h as int) {
        Seq::empty()
    } else {
        all_tiles(params, plane.grid_w as int, plane.grid_h as int, row_start, row_end, plane.grid_h as int)
    }
}

/// The buffer after the first `k` of `tiles` are rendered.
pub open spec fn dual_plane_tiles(buf: Seq<u8>, stride: int, plane: DualPlane, params: PlaneParams, tiles: Seq<Tile>, row_start: int, k: int) -> Seq<u8>
    decreases k,
{
    if k <= 0 {
        buf
    } else {
        let prev = dual_plane_tiles(buf, stride, plane, params, tiles, row_start, k - 1);
        dual_tile_rows(prev, stride, dual_tile_input(plane, params, tiles[k - 1]), params, tiles[k - 1], row_start, tiles[k - 1].height as int)
    }
}

/// Whether a plane render stays in bounds and within `i32` everywhere.
pub open spec fn dual_plane_fits(plane: DualPlane, params: PlaneParams, row_start: int, row_end: int) -> bool {
    let tiles = dual_tile_list(plane, params, row_start, row_end);
    &&& !tiles_skipped(params, plane.grid_w as int, plane.grid_h as int) ==> tiles_fit(params, plane.grid_w as int, plane.grid_h as int, row_start, row_end)
    &&& params.x_div != 0 && params.x_div != -1
    &&& params.y_div != 0 && params.y_div != -1
    &&& forall|k: int| 0 <= k < tiles.len() ==> {
        let t = #[trigger] tiles[k];
        &&& (params.source_step > 0 ==> in_i32(t.x + t.width) && in_i32(t.x + t.width - 1) && in_i32(t.y + t.height) && in_i32(t.y + t.height - 1))
        &&& dual_tile_fits(dual_tile_input(plane, params, t), params, t, row_start)
    }
}

/// Renders rows `row_start .. row_end` of one plane from both warped
/// sources into `dst` (whose first row is `row_start`), tile by tile.
pub fn render_dual_rows(dst: &mut [u8], dst_stride: usize, plane: &DualPlane<'_>, params: &PlaneParams, row_start: i32, row_end: i32)
    requires
        dual_plane_fits(*plane, *params, row_start as int, row_end as int),
    ensures
        ({
            let tiles = dual_tile_list(*plane, *params, row_start as int, row_end as int);
            final(dst)@ == dual_plane_tiles(old(dst)@, dst_stride as int, *plane, *params, tiles, row_start as int, tiles.len() as int)
        }),
{
    let tiles = render_tiles(params, plane.grid_w, plane.grid_h, row_start, row_end);
    let ghost list = dual_tile_list(*plane, *params, row_start as int, row_end as int);
    assert(tiles@ == list);
    let ghost orig = dst@;
    let covers = plane_covers(plane.source0, params) && plane_covers(plane.source1, params);
    let n = tiles.len();
    let mut k: usize = 0;
    while k < n
        invariant
            n == tiles@.len(),
            tiles@ == list,
            0 <= k <= n,
            covers == (plane_covers_spec(plane.source0, *params) && plane_covers_spec(plane.source1, *params)),
            dual_plane_fits(*plane, *params, row_start as int, row_end as int),
            list == dual_tile_list(*plane, *params, row_start as int, row_end as int),
            dst@ == dual_plane_tiles(orig, dst_stride as int, *plane, *params, list, row_start as int, k as int),
        decreases n - k,
    {
        let tile = tiles[k];
        assert(tile == list[k as int]);
        let m0 = motion_samples(plane.motion0, plane.threshold_lut, params, &tile, plane.interp);
        let m1 = motion_samples(plane.motion1, plane.inverse_lut, params, &tile, plane.interp);
        let motions = [m0, m1];
        let direct = covers && tile_interior(params, &tile, &motions);
        let input = DualInput {
            source0: plane.source0,
            source1: plane.source1,
            motion: motions,
            masks: plane.masks,
            mask_params: plane.mask_params,
            grid_w: plane.grid_w,
            interp: plane.interp,
            direct,
            kind: plane.kind,
            threshold: plane.threshold,
            threshold_limit: plane.threshold_limit,
        };
        assert(motions@ =~= dual_tile_input(*plane, *params, tile).motion@);
        assert(input == dual_tile_input(*plane, *params, tile));
        render_dual_tile(dst, dst_stride, &input, params, &tile, row_start);
        k = k + 1;
    }
}

} // verus!
