//! Rendering one tile of an interpolated frame by algorithm 23: every
//! pixel warps both source frames along four interpolated vector fields,
//! weighs them by the occlusion masks and picks the result with
//! `mode23_pixel`.
use vstd::prelude::*;
use crate::renderer::{Plane, Mode23Sample, MotionPlanes, byte_spec, mode23_pixel, mode23_pixel_spec, weight_ok};
use crate::arith::tdiv;
use crate::warp::{
    PlaneParams, Tile, MotionSamples, MotionRow, AlphaPos, in_i32, interp_pair_spec, interp_pair_fits,
    interpolate_row_spec, interpolate_row_fits, interpolate_motion_row, interpolate_motion, mask_byte,
    alpha_row, alpha_for_origin, alpha_at_absolute_spec, alpha_at_absolute_fits, sample_plane_spec,
    sample_plane_fits, sample_plane, motion_value, motion_value_spec, plane_index_spec, plane_index_checked,
    tile_interior, tile_interior_spec,
};
use crate::tiles::{render_tiles, all_tiles, tiles_skipped, tiles_fit};

verus! {

/// What the algorithm-23 renderer reads for one plane: the two source
/// frames, the motion at the corners of the current tile for the four
/// vector fields (current frame to previous and next, each way), the two
/// occlusion masks and an optional third one, and the renderer settings.
#[derive(Clone, Copy)]
pub struct Mode23Input<'a> {
    pub source0: Plane<'a>,
    pub source1: Plane<'a>,
    pub motion: [MotionSamples; 4],
    pub mask_a: &'a [u8],
    pub mask_b: &'a [u8],
    pub mask: Option<&'a [u8]>,
    /// The grid of the masks when the vectors are not interpolated (masks
    /// then sampled at absolute positions).
    pub mask_params: Option<PlaneParams>,
    pub grid_w: usize,
    pub interp: bool,
    pub direct: bool,
    pub threshold: i32,
    pub threshold_limit: i32,
}

/// The horizontal weights for column `x` of a block (clamped into the
/// table).
pub open spec fn col_weights(params: PlaneParams, x: int) -> (i32, i32) {
    let i = if x < 0 { 0 } else if x > 31 { 31 } else { x };
    params.x_weights[i]
}

/// The four corner values of a mask for a tile (0 where missing).
pub open spec fn mask_corners(mask: Seq<u8>, tile: Tile) -> [i32; 4] {
    [
        mask_byte(mask, tile.i00 as int) as i32,
        mask_byte(mask, tile.i01 as int) as i32,
        mask_byte(mask, tile.i10 as int) as i32,
        mask_byte(mask, tile.i11 as int) as i32,
    ]
}

/// The motion of field `k` at column `x` of tile row `ly`.
pub open spec fn motion_at(shifted: bool, input: Mode23Input, params: PlaneParams, k: int, x: int, ly: int) -> (int, int) {
    let m = input.motion[k];
    let (x0, x1) = interpolate_row_spec(shifted, m.x, params, ly, input.interp);
    let (y0, y1) = interpolate_row_spec(shifted, m.y, params, ly, input.interp);
    if !input.interp {
        (x0, y0)
    } else {
        let w = col_weights(params, x);
        (
            interp_pair_spec(shifted, x0, x1, params.block_w as int, params.x_shift as int, w),
            interp_pair_spec(shifted, y0, y1, params.block_w as int, params.x_shift as int, w),
        )
    }
}

/// Whether the motion of field `k` at column `x` of row `ly` stays
/// within `i32`.
pub open spec fn motion_fits(shifted: bool, input: Mode23Input, params: PlaneParams, k: int, x: int, ly: int) -> bool {
    let m = input.motion[k];
    let (x0, x1) = interpolate_row_spec(shifted, m.x, params, ly, input.interp);
    let (y0, y1) = interpolate_row_spec(shifted, m.y, params, ly, input.interp);
    let w = col_weights(params, x);
    &&& interpolate_row_fits(shifted, m.x, params, ly, input.interp)
    &&& interpolate_row_fits(shifted, m.y, params, ly, input.interp)
    &&& input.interp ==> interp_pair_fits(shifted, x0, x1, params.block_w as int, params.x_shift as int, w)
    &&& input.interp ==> interp_pair_fits(shifted, y0, y1, params.block_w as int, params.x_shift as int, w)
}

/// The opacity of `mask` at pixel (`x`, `y`) of a tile: at the absolute
/// position on the mask's own grid when there is one, else interpolated
/// between the tile's corners.
pub open spec fn alpha_at(shifted: bool, mask: Seq<u8>, input: Mode23Input, params: PlaneParams, tile: Tile, x: int, y: int) -> int {
    let ly = tile.local_y + y;
    let (r0, r1) = interpolate_row_spec(shifted, mask_corners(mask, tile), params, ly, input.interp);
    match input.mask_params {
        Some(mp) => alpha_at_absolute_spec(mask, mp, input.grid_w as int, tile.x + x, tile.y + y),
        None => byte_spec(interp_pair_spec(shifted, r0, r1, params.block_w as int, params.x_shift as int, col_weights(params, x))),
    }
}

/// Whether `alpha_at` stays within `i32`.
pub open spec fn alpha_fits(shifted: bool, mask: Seq<u8>, input: Mode23Input, params: PlaneParams, tile: Tile, x: int, y: int) -> bool {
    let ly = tile.local_y + y;
    let (r0, r1) = interpolate_row_spec(shifted, mask_corners(mask, tile), params, ly, input.interp);
    &&& interpolate_row_fits(shifted, mask_corners(mask, tile), params, ly, input.interp)
    &&& match input.mask_params {
        Some(mp) => alpha_at_absolute_fits(mask, mp, input.grid_w as int, tile.x + x, tile.y + y),
        None => interp_pair_fits(shifted, r0, r1, params.block_w as int, params.x_shift as int, col_weights(params, x)),
    }
}

/// The sample of `plane` displaced by `m` from pixel (`x`, `y`) of a tile.
pub open spec fn warped(plane: Plane, input: Mode23Input, params: PlaneParams, tile: Tile, x: int, y: int, m: (int, int)) -> int {
    sample_plane_spec(plane, params, (tile.x + x) * params.source_step, (tile.y + y) * params.source_step, m.0, m.1, input.direct)
}

/// Whether `warped` is in bounds and within `i32`.
pub open spec fn warped_fits(plane: Plane, input: Mode23Input, params: PlaneParams, tile: Tile, x: int, y: int, m: (int, int)) -> bool {
    sample_plane_fits(plane, params, (tile.x + x) * params.source_step, (tile.y + y) * params.source_step, m.0, m.1, input.direct)
}

/// The samples that decide pixel (`x`, `y`) of a tile.
pub open spec fn pixel_sample(shifted: bool, input: Mode23Input, params: PlaneParams, tile: Tile, x: int, y: int) -> Mode23Sample {
    let ly = tile.local_y + y;
    let m0 = motion_at(shifted, input, params, 0, x, ly);
    let m1 = motion_at(shifted, input, params, 1, x, ly);
    let m2 = motion_at(shifted, input, params, 2, x, ly);
    let m3 = motion_at(shifted, input, params, 3, x, ly);
    let mask = match input.mask {
        Some(m) => Some(alpha_at(shifted, m@, input, params, tile, x, y) as u8),
        None => None,
    };
    Mode23Sample {
        a: warped(input.source0, input, params, tile, x, y, m0) as u8,
        b: warped(input.source1, input, params, tile, x, y, m1) as u8,
        c: warped(input.source0, input, params, tile, x, y, m2) as u8,
        d: warped(input.source1, input, params, tile, x, y, m3) as u8,
        base_a: if mask is Some { warped(input.source0, input, params, tile, x, y, (0, 0)) as u8 } else { 0u8 },
        base_b: if mask is Some { warped(input.source1, input, params, tile, x, y, (0, 0)) as u8 } else { 0u8 },
        t0: alpha_at(shifted, input.mask_a@, input, params, tile, x, y) as u8,
        t1: alpha_at(shifted, input.mask_b@, input, params, tile, x, y) as u8,
        mask,
    }
}

/// Pixel (`x`, `y`) of a tile.
pub open spec fn pixel_spec(shifted: bool, input: Mode23Input, params: PlaneParams, tile: Tile, x: int, y: int) -> u8 {
    mode23_pixel_spec(pixel_sample(shifted, input, params, tile, x, y), input.threshold as int) as u8
}

/// Whether pixel (`x`, `y`) of a tile is computed in bounds and within
/// `i32`.
pub open spec fn pixel_fits(shifted: bool, input: Mode23Input, params: PlaneParams, tile: Tile, x: int, y: int) -> bool {
    let ly = tile.local_y + y;
    &&& in_i32(ly)
    &&& in_i32(tile.y + y)
    &&& in_i32(tile.x + x)
    &&& in_i32((tile.y + y) * params.source_step)
    &&& in_i32((tile.x + x) * params.source_step)
    &&& weight_ok(input.threshold as int)
    &&& forall|k: int| 0 <= k < 4 ==> #[trigger] motion_fits(shifted, input, params, k, x, ly)
    &&& alpha_fits(shifted, input.mask_a@, input, params, tile, x, y)
    &&& alpha_fits(shifted, input.mask_b@, input, params, tile, x, y)
    &&& (input.mask matches Some(m) ==> alpha_fits(shifted, m@, input, params, tile, x, y))
    &&& warped_fits(input.source0, input, params, tile, x, y, motion_at(shifted, input, params, 0, x, ly))
    &&& warped_fits(input.source1, input, params, tile, x, y, motion_at(shifted, input, params, 1, x, ly))
    &&& warped_fits(input.source0, input, params, tile, x, y, motion_at(shifted, input, params, 2, x, ly))
    &&& warped_fits(input.source1, input, params, tile, x, y, motion_at(shifted, input, params, 3, x, ly))
    &&& (input.mask is Some ==> warped_fits(input.source0, input, params, tile, x, y, (0, 0)))
    &&& (input.mask is Some ==> warped_fits(input.source1, input, params, tile, x, y, (0, 0)))
}

/// Where output row `y` of a tile starts in a buffer of `len` bytes with
/// rows of `stride` (the first row being `row_start`): `None` above the
/// buffer's first row, left of it, or past its end.
pub open spec fn out_row_start(len: int, stride: int, tile: Tile, y: int, row_start: int) -> Option<int> {
    let row = tile.y + y - row_start;
    if row < 0 || tile.x < 0 || tile.width < 0 {
        None
    } else {
        let start = row * stride + tile.x;
        if start > usize::MAX || start + tile.width > usize::MAX || start + tile.width > len {
            None
        } else {
            Some(start)
        }
    }
}

/// The buffer after the first `k` rows of a tile are rendered.
pub open spec fn tile_rows(shifted: bool, buf: Seq<u8>, stride: int, input: Mode23Input, params: PlaneParams, tile: Tile, row_start: int, k: int) -> Seq<u8>
    decreases k,
{
    if k <= 0 {
        buf
    } else {
        let prev = tile_rows(shifted, buf, stride, input, params, tile, row_start, k - 1);
        match out_row_start(buf.len() as int, stride, tile, k - 1, row_start) {
            Some(start) => Seq::new(
                prev.len(),
                |i: int| if start <= i < start + tile.width { pixel_spec(shifted, input, params, tile, i - start, k - 1) } else { prev[i] },
            ),
            None => prev,
        }
    }
}

/// Whether the row arithmetic of row `y` of a tile stays within `i32`.
pub open spec fn row_fits(tile: Tile, row_start: int, y: int) -> bool {
    in_i32(tile.y + y - row_start) && in_i32(tile.y + y) && in_i32(tile.local_y + y)
}

/// Whether every pixel of a tile is computed in bounds and within `i32`.
pub open spec fn tile_fits(shifted: bool, input: Mode23Input, params: PlaneParams, tile: Tile, row_start: int) -> bool {
    &&& forall|y: int| 0 <= y < tile.height ==> #[trigger] row_fits(tile, row_start, y)
    &&& forall|x: int, y: int| 0 <= x < tile.width && 0 <= y < tile.height ==> #[trigger] pixel_fits(shifted, input, params, tile, x, y)
}

/// One pixel of a tile (see `pixel_spec`); `rows` are the tile's four
/// motion fields and three masks interpolated down to the pixel's row.
fn mode23_at<const SHIFTED: bool>(
    input: &Mode23Input<'_>,
    params: &PlaneParams,
    tile: &Tile,
    rows: &[MotionRow; 4],
    mask_rows: &[[i32; 2]; 3],
    x: i32,
    y: i32,
) -> (r: u8)
    requires
        0 <= x < tile.width,
        0 <= y < tile.height,
        pixel_fits(SHIFTED, *input, *params, *tile, x as int, y as int),
        forall|k: int| 0 <= k < 4 ==> {
            let ly = tile.local_y + y;
            let m = #[trigger] input.motion[k];
            &&& (rows[k].x[0] as int, rows[k].x[1] as int) == interpolate_row_spec(SHIFTED, m.x, *params, ly, input.interp)
            &&& (rows[k].y[0] as int, rows[k].y[1] as int) == interpolate_row_spec(SHIFTED, m.y, *params, ly, input.interp)
        },
        (mask_rows[0][0] as int, mask_rows[0][1] as int) == interpolate_row_spec(SHIFTED, mask_corners(input.mask_a@, *tile), *params, tile.local_y + y, input.interp),
        (mask_rows[1][0] as int, mask_rows[1][1] as int) == interpolate_row_spec(SHIFTED, mask_corners(input.mask_b@, *tile), *params, tile.local_y + y, input.interp),
        input.mask matches Some(m) ==> (mask_rows[2][0] as int, mask_rows[2][1] as int) == interpolate_row_spec(SHIFTED, mask_corners(m@, *tile), *params, tile.local_y + y, input.interp),
    ensures
        r == pixel_spec(SHIFTED, *input, *params, *tile, x as int, y as int),
{
    let ghost ly = tile.local_y + y;
    let px = tile.x + x;
    let py = tile.y + y;
    let source_x = px * params.source_step;
    let source_y = py * params.source_step;
    let pos = AlphaPos { plane_x: px, plane_y: py };
    let wi: usize = if x > 31 { 31 } else { x as usize };
    let weights = params.x_weights[wi];
    assert(weights == col_weights(*params, x as int));
    proof {
        assert(motion_fits(SHIFTED, *input, *params, 0, x as int, ly));
        assert(motion_fits(SHIFTED, *input, *params, 1, x as int, ly));
        assert(motion_fits(SHIFTED, *input, *params, 2, x as int, ly));
        assert(motion_fits(SHIFTED, *input, *params, 3, x as int, ly));
        assert(input.motion[0] == input.motion[0]);
        assert(input.motion[1] == input.motion[1]);
        assert(input.motion[2] == input.motion[2]);
        assert(input.motion[3] == input.motion[3]);
    }
    let (dx0, dy0) = interpolate_motion::<SHIFTED>(rows[0], params, weights, input.interp);
    let (dx1, dy1) = interpolate_motion::<SHIFTED>(rows[1], params, weights, input.interp);
    let (dx2, dy2) = interpolate_motion::<SHIFTED>(rows[2], params, weights, input.interp);
    let (dx3, dy3) = interpolate_motion::<SHIFTED>(rows[3], params, weights, input.interp);
    let mp: Option<&PlaneParams> = match &input.mask_params {
        Some(p) => Some(p),
        None => None,
    };
    let final_mask: Option<u8> = match input.mask {
        Some(m) => Some(alpha_for_origin::<SHIFTED>(m, mask_rows[2], params, mp, input.grid_w, pos, weights)),
        None => None,
    };
    let (base_a, base_b): (u8, u8) = match final_mask {
        Some(_) => (
            sample_plane(input.source0, params, source_x, source_y, 0, 0, input.direct),
            sample_plane(input.source1, params, source_x, source_y, 0, 0, input.direct),
        ),
        None => (0, 0),
    };
    let a = sample_plane(input.source0, params, source_x, source_y, dx0, dy0, input.direct);
    let b = sample_plane(input.source1, params, source_x, source_y, dx1, dy1, input.direct);
    let c = sample_plane(input.source0, params, source_x, source_y, dx2, dy2, input.direct);
    let d = sample_plane(input.source1, params, source_x, source_y, dx3, dy3, input.direct);
    let t0 = alpha_for_origin::<SHIFTED>(input.mask_a, mask_rows[0], params, mp, input.grid_w, pos, weights);
    let t1 = alpha_for_origin::<SHIFTED>(input.mask_b, mask_rows[1], params, mp, input.grid_w, pos, weights);
    let sample = Mode23Sample { a, b, c, d, base_a, base_b, t0, t1, mask: final_mask };
    assert(sample == pixel_sample(SHIFTED, *input, *params, *tile, x as int, y as int));
    mode23_pixel(sample, input.threshold, input.threshold_limit)
}

/// Renders the rows of `tile` that fall inside `dst` (whose first row is
/// frame row `row_start`) by algorithm 23.
pub fn render_mode23_tile<const SHIFTED: bool>(
    dst: &mut [u8],
    dst_stride: usize,
    input: &Mode23Input<'_>,
    params: &PlaneParams,
    tile: &Tile,
    row_start: i32,
)
    requires
        tile_fits(SHIFTED, *input, *params, *tile, row_start as int),
    ensures
        final(dst)@ == tile_rows(SHIFTED, old(dst)@, dst_stride as int, *input, *params, *tile, row_start as int, tile.height as int),
{
    let ghost orig = dst@;
    let len = dst.len();
    let mut y: i32 = 0;
    while y < tile.height
        invariant
            0 <= y,
            tile.height > 0 ==> y <= tile.height,
            tile.height <= 0 ==> y == 0,
            len == orig.len(),
            dst@.len() == len,
            tile_fits(SHIFTED, *input, *params, *tile, row_start as int),
            dst@ == tile_rows(SHIFTED, orig, dst_stride as int, *input, *params, *tile, row_start as int, y as int),
        decreases tile.height - y,
    {
        assert(row_fits(*tile, row_start as int, y as int));
        let row = tile.y + y - row_start;
        let ghost before = dst@;
        let mut start_opt: Option<usize> = None;
        if row >= 0 && tile.x >= 0 && tile.width >= 0 {
            match (row as usize).checked_mul(dst_stride) {
                Some(p) => match p.checked_add(tile.x as usize) {
                    Some(s) => match s.checked_add(tile.width as usize) {
                        Some(e) => {
                            if e <= len {
                                start_opt = Some(s);
                            }
                        },
                        None => {},
                    },
                    None => {},
                },
                None => {},
            }
        }
        assert(start_opt == match out_row_start(len as int, dst_stride as int, *tile, y as int, row_start as int) {
            Some(s) => Some(s as usize),
            None => None::<usize>,
        });
        if tile.width <= 0 {
            start_opt = None;
        }
        match start_opt {
            Some(start) => {
                let ly = tile.local_y + y;
                proof {
                    assert(pixel_fits(SHIFTED, *input, *params, *tile, 0, y as int));
                    assert(motion_fits(SHIFTED, *input, *params, 0, 0, ly as int));
                    assert(motion_fits(SHIFTED, *input, *params, 1, 0, ly as int));
                    assert(motion_fits(SHIFTED, *input, *params, 2, 0, ly as int));
                    assert(motion_fits(SHIFTED, *input, *params, 3, 0, ly as int));
                }
                let rows = [
                    interpolate_motion_row::<SHIFTED>(input.motion[0], params, ly, input.interp),
                    interpolate_motion_row::<SHIFTED>(input.motion[1], params, ly, input.interp),
                    interpolate_motion_row::<SHIFTED>(input.motion[2], params, ly, input.interp),
                    interpolate_motion_row::<SHIFTED>(input.motion[3], params, ly, input.interp),
                ];
                let m0 = alpha_row::<SHIFTED>(input.mask_a, params, tile, ly, input.interp);
                let m1 = alpha_row::<SHIFTED>(input.mask_b, params, tile, ly, input.interp);
                let m2: [i32; 2] = match input.mask {
                    Some(m) => alpha_row::<SHIFTED>(m, params, tile, ly, input.interp),
                    None => [0, 0],
                };
                let mask_rows = [m0, m1, m2];
                let mut x: i32 = 0;
                while x < tile.width
                    invariant
                        0 <= x <= tile.width,
                        0 <= y < tile.height,
                        ly == tile.local_y + y,
                        len == orig.len(),
                        dst@.len() == len,
                        start + tile.width <= len,
                        out_row_start(len as int, dst_stride as int, *tile, y as int, row_start as int) == Some(start as int),
                        tile_fits(SHIFTED, *input, *params, *tile, row_start as int),
                        forall|k: int| 0 <= k < 4 ==> {
                            let m = #[trigger] input.motion[k];
                            &&& (rows[k].x[0] as int, rows[k].x[1] as int) == interpolate_row_spec(SHIFTED, m.x, *params, ly as int, input.interp)
                            &&& (rows[k].y[0] as int, rows[k].y[1] as int) == interpolate_row_spec(SHIFTED, m.y, *params, ly as int, input.interp)
                        },
                        (mask_rows[0][0] as int, mask_rows[0][1] as int) == interpolate_row_spec(SHIFTED, mask_corners(input.mask_a@, *tile), *params, ly as int, input.interp),
                        (mask_rows[1][0] as int, mask_rows[1][1] as int) == interpolate_row_spec(SHIFTED, mask_corners(input.mask_b@, *tile), *params, ly as int, input.interp),
                        input.mask matches Some(m) ==> (mask_rows[2][0] as int, mask_rows[2][1] as int) == interpolate_row_spec(SHIFTED, mask_corners(m@, *tile), *params, ly as int, input.interp),
                        forall|i: int| 0 <= i < len ==> #[trigger] dst@[i] == (if start <= i < start + x {
                            pixel_spec(SHIFTED, *input, *params, *tile, i - start, y as int)
                        } else {
                            before[i]
                        }),
                    decreases tile.width - x,
                {
                    assert(pixel_fits(SHIFTED, *input, *params, *tile, x as int, y as int));
                    let v = mode23_at::<SHIFTED>(input, params, tile, &rows, &mask_rows, x, y);
                    dst[start + x as usize] = v;
                    x = x + 1;
                }
                proof {
                    assert(dst@ =~= tile_rows(SHIFTED, orig, dst_stride as int, *input, *params, *tile, row_start as int, y + 1));
                }
            },
            None => {
                proof {
                    assert(dst@ =~= tile_rows(SHIFTED, orig, dst_stride as int, *input, *params, *tile, row_start as int, y + 1));
                }
            },
        }
        y = y + 1;
    }
}


/// The motion of a field at the tile's corners: the LUT values of the
/// field at the four vector indices, divided by the plane's subsampling
/// (all four the top-left one when not interpolating).
pub open spec fn motion_samples_spec(motion: MotionPlanes, lut: [i16; 2048], params: PlaneParams, tile: Tile, interp: bool) -> MotionSamples {
    let vx = |i: usize| tdiv(motion_value_spec(lut, motion.x@, i as int), params.x_div as int) as i32;
    let vy = |i: usize| tdiv(motion_value_spec(lut, motion.y@, i as int), params.y_div as int) as i32;
    if !interp {
        MotionSamples { x: [vx(tile.i00), vx(tile.i00), vx(tile.i00), vx(tile.i00)], y: [vy(tile.i00), vy(tile.i00), vy(tile.i00), vy(tile.i00)] }
    } else {
        MotionSamples { x: [vx(tile.i00), vx(tile.i01), vx(tile.i10), vx(tile.i11)], y: [vy(tile.i00), vy(tile.i01), vy(tile.i10), vy(tile.i11)] }
    }
}

/// The motion of a field at the corners of `tile`.
pub fn motion_samples(motion: MotionPlanes<'_>, lut: &[i16; 2048], params: &PlaneParams, tile: &Tile, interp: bool) -> (r: MotionSamples)
    requires
        params.x_div != 0 && params.x_div != -1,
        params.y_div != 0 && params.y_div != -1,
    ensures
        r == motion_samples_spec(motion, *lut, *params, *tile, interp),
{
    let x0 = crate::arith::div_i32(motion_value(lut, motion.x, tile.i00), params.x_div);
    let y0 = crate::arith::div_i32(motion_value(lut, motion.y, tile.i00), params.y_div);
    if !interp {
        let r = MotionSamples { x: [x0, x0, x0, x0], y: [y0, y0, y0, y0] };
        assert(r.x@ =~= motion_samples_spec(motion, *lut, *params, *tile, interp).x@);
        assert(r.y@ =~= motion_samples_spec(motion, *lut, *params, *tile, interp).y@);
        return r;
    }
    let r = MotionSamples {
        x: [
            x0,
            crate::arith::div_i32(motion_value(lut, motion.x, tile.i01), params.x_div),
            crate::arith::div_i32(motion_value(lut, motion.x, tile.i10), params.x_div),
            crate::arith::div_i32(motion_value(lut, motion.x, tile.i11), params.x_div),
        ],
        y: [
            y0,
            crate::arith::div_i32(motion_value(lut, motion.y, tile.i01), params.y_div),
            crate::arith::div_i32(motion_value(lut, motion.y, tile.i10), params.y_div),
            crate::arith::div_i32(motion_value(lut, motion.y, tile.i11), params.y_div),
        ],
    };
    assert(r.x@ =~= motion_samples_spec(motion, *lut, *params, *tile, interp).x@);
    assert(r.y@ =~= motion_samples_spec(motion, *lut, *params, *tile, interp).y@);
    r
}

/// Whether every sample the plane's parameters reach lies in `plane`: a
/// super plane's sub-pixel layout matches the sampling step, and the last
/// sample is in the data.
pub open spec fn plane_covers_spec(plane: Plane, params: PlaneParams) -> bool {
    &&& plane.super_shift == 0 || (plane.super_shift < 32 && (1i32).wrapping_shl(plane.super_shift) == params.source_step)
    &&& params.max_x >= 0
    &&& params.max_y >= 0
    &&& plane_index_spec(plane, params.max_x as usize, params.max_y as usize) < plane.data@.len()
}

/// Whether every sample the plane's parameters reach lies in `plane`.
pub fn plane_covers(plane: Plane<'_>, params: &PlaneParams) -> (r: bool)
    ensures
        r == plane_covers_spec(plane, *params),
{
    let dlen = plane.data.len();
    if plane.super_shift != 0 {
        if plane.super_shift >= 32 || (1i32).wrapping_shl(plane.super_shift) != params.source_step {
            return false;
        }
    }
    if params.max_x < 0 || params.max_y < 0 {
        return false;
    }
    match plane_index_checked(plane, params.max_x as usize, params.max_y as usize) {
        Some(last) => last < dlen,
        None => {
            proof {
                let x = params.max_x as usize;
                let y = params.max_y as usize;
                if plane.super_shift != 0 {
                    let shift = plane.super_shift;
                    let mask = ((1usize << shift) - 1) as usize;
                    let sub = (((y & mask) << shift) | (x & mask)) as usize;
                    assert(sub * plane.super_span >= 0) by (nonlinear_arith)
                        requires
                            sub >= 0,
                            plane.super_span >= 0,
                    ;
                    assert((y >> shift) * plane.stride >= 0) by (nonlinear_arith)
                        requires
                            (y >> shift) >= 0,
                            plane.stride >= 0,
                    ;
                    assert(plane_index_spec(plane, x, y) == sub * plane.super_span + (y >> shift) * plane.stride + (x >> shift));
                }
                assert(plane_index_spec(plane, x, y) > usize::MAX);
                assert(plane.data@.len() <= usize::MAX);
            }
            false
        },
    }
}

/// Everything the algorithm-23 renderer reads for one plane: the two
/// source frames, the four vector fields as motion planes (forward ones
/// read through `threshold_lut`, backward ones through `inverse_lut`),
/// the masks and the renderer settings.
#[derive(Clone, Copy)]
pub struct Mode23Plane<'a> {
    pub source0: Plane<'a>,
    pub source1: Plane<'a>,
    pub base0: MotionPlanes<'a>,
    pub base1: MotionPlanes<'a>,
    pub next0: MotionPlanes<'a>,
    pub prev1: MotionPlanes<'a>,
    pub mask_a: &'a [u8],
    pub mask_b: &'a [u8],
    pub mask: Option<&'a [u8]>,
    pub mask_params: Option<PlaneParams>,
    pub threshold_lut: &'a [i16; 2048],
    pub inverse_lut: &'a [i16; 2048],
    pub grid_w: usize,
    pub grid_h: usize,
    pub interp: bool,
    pub threshold: i32,
    pub threshold_limit: i32,
}

/// What one tile of a plane is rendered from: the motion of the four
/// fields at its corners, and direct sampling when both sources cover the
/// plane and no motion leaves it.
pub open spec fn tile_input(plane: Mode23Plane, params: PlaneParams, tile: Tile) -> Mode23Input {
    let m = [
        motion_samples_spec(plane.base0, *plane.threshold_lut, params, tile, plane.interp),
        motion_samples_spec(plane.base1, *plane.inverse_lut, params, tile, plane.interp),
        motion_samples_spec(plane.next0, *plane.threshold_lut, params, tile, plane.interp),
        motion_samples_spec(plane.prev1, *plane.inverse_lut, params, tile, plane.interp),
    ];
    let covers = plane_covers_spec(plane.source0, params) && plane_covers_spec(plane.source1, params);
    Mode23Input {
        source0: plane.source0,
        source1: plane.source1,
        motion: m,
        mask_a: plane.mask_a,
        mask_b: plane.mask_b,
        mask: plane.mask,
        mask_params: plane.mask_params,
        grid_w: plane.grid_w,
        interp: plane.interp,
        direct: covers && tile_interior_spec(params, tile, m@),
        threshold: plane.threshold,
        threshold_limit: plane.threshold_limit,
    }
}

/// The buffer after the first `k` of `tiles` are rendered.
pub open spec fn plane_tiles(shifted: bool, buf: Seq<u8>, stride: int, plane: Mode23Plane, params: PlaneParams, tiles: Seq<Tile>, row_start: int, k: int) -> Seq<u8>
    decreases k,
{
    if k <= 0 {
        buf
    } else {
        let prev = plane_tiles(shifted, buf, stride, plane, params, tiles, row_start, k - 1);
        tile_rows(shifted, prev, stride, tile_input(plane, params, tiles[k - 1]), params, tiles[k - 1], row_start, tiles[k - 1].height as int)
    }
}

/// The tiles a plane render covers (see `render_tiles`).
pub open spec fn plane_tile_list(plane: Mode23Plane, params: PlaneParams, row_start: int, row_end: int) -> Seq<Tile> {
    if tiles_skipped(params, plane.grid_w as int, plane.grid_h as int) {
        Seq::empty()
    } else {
        all_tiles(params, plane.grid_w as int, plane.grid_h as int, row_start, row_end, plane.grid_h as int)
    }
}

/// Whether a plane render stays in bounds and within `i32` everywhere.
pub open spec fn plane_fits(shifted: bool, plane: Mode23Plane, params: PlaneParams, row_start: int, row_end: int) -> bool {
    let tiles = plane_tile_list(plane, params, row_start, row_end);
    &&& !tiles_skipped(params, plane.grid_w as int, plane.grid_h as int) ==> tiles_fit(params, plane.grid_w as int, plane.grid_h as int, row_start, row_end)
    &&& params.x_div != 0 && params.x_div != -1
    &&& params.y_div != 0 && params.y_div != -1
    &&& forall|k: int| 0 <= k < tiles.len() ==> {
        let t = #[trigger] tiles[k];
        &&& (params.source_step > 0 ==> in_i32(t.x + t.width) && in_i32(t.x + t.width - 1) && in_i32(t.y + t.height) && in_i32(t.y + t.height - 1))
        &&& tile_fits(shifted, tile_input(plane, params, t), params, t, row_start)
    }
}

/// Renders rows `row_start .. row_end` of one plane by algorithm 23 into
/// `dst` (whose first row is `row_start`), tile by tile.
pub fn render_mode23_rows<const SHIFTED: bool>(
    dst: &mut [u8],
    dst_stride: usize,
    plane: &Mode23Plane<'_>,
    params: &PlaneParams,
    row_start: i32,
    row_end: i32,
)
    requires
        plane_fits(SHIFTED, *plane, *params, row_start as int, row_end as int),
    ensures
        ({
            let tiles = plane_tile_list(*plane, *params, row_start as int, row_end as int);
            final(dst)@ == plane_tiles(SHIFTED, old(dst)@, dst_stride as int, *plane, *params, tiles, row_start as int, tiles.len() as int)
        }),
{
    let tiles = render_tiles(params, plane.grid_w, plane.grid_h, row_start, row_end);
    let ghost list = plane_tile_list(*plane, *params, row_start as int, row_end as int);
    assert(tiles@ == list);
    let ghost orig = dst@;
    let covers = plane_covers(plane.source0, params) && plane_covers(plane.source1, params);
    let n = tiles.len();
    let mut k: usize = 0;
    while k < n
        invariant
            n == tiles@.len(),
            tiles@ == list,
            0 <= k <= n,
            covers == (plane_covers_spec(plane.source0, *params) && plane_covers_spec(plane.source1, *params)),
            plane_fits(SHIFTED, *plane, *params, row_start as int, row_end as int),
            list == plane_tile_list(*plane, *params, row_start as int, row_end as int),
            dst@ == plane_tiles(SHIFTED, orig, dst_stride as int, *plane, *params, list, row_start as int, k as int),
        decreases n - k,
    {
        let tile = tiles[k];
        assert(tile == list[k as int]);
        let m0 = motion_samples(plane.base0, plane.threshold_lut, params, &tile, plane.interp);
        let m1 = motion_samples(plane.base1, plane.inverse_lut, params, &tile, plane.interp);
        let m2 = motion_samples(plane.next0, plane.threshold_lut, params, &tile, plane.interp);
        let m3 = motion_samples(plane.prev1, plane.inverse_lut, params, &tile, plane.interp);
        let motions = [m0, m1, m2, m3];
        let direct = covers && tile_interior(params, &tile, &motions);
        let input = Mode23Input {
            source0: plane.source0,
            source1: plane.source1,
            motion: motions,
            mask_a: plane.mask_a,
            mask_b: plane.mask_b,
            mask: plane.mask,
            mask_params: plane.mask_params,
            grid_w: plane.grid_w,
            interp: plane.interp,
            direct,
            threshold: plane.threshold,
            threshold_limit: plane.threshold_limit,
        };
        assert(motions@ =~= tile_input(*plane, *params, tile).motion@);
        assert(input == tile_input(*plane, *params, tile));
        render_mode23_tile::<SHIFTED>(dst, dst_stride, &input, params, &tile, row_start);
        k = k + 1;
    }
}

} // verus!
