//! The per-plane parameters the frame renderer derives from its geometry:
//! those of its own tile renderers, and those it hands to a compute
//! device with the planes it uploads, checked to hold the rows they
//! claim.
use vstd::prelude::*;
use crate::arith::{sat_usize, sat_i32, tdiv, sat_add_usize, sat_mul_usize, sat_sub_usize, sat_mul_i32, sat_sub_i32};
use crate::warp::PlaneParams;
use crate::renderer::{cpu_map, cpu_map_spec};

verus! {

/// A plane to upload: its samples, row stride and size.
pub struct UploadPlane<'a> {
    pub data: &'a [u8],
    pub stride: usize,
    pub width: usize,
    pub height: usize,
}

/// The samples an upload reads: `height - 1` full strides and one row of
/// `width` (with saturating arithmetic).
pub open spec fn upload_span(stride: int, width: int, height: int) -> int {
    sat_usize(sat_usize(stride * sat_usize(height - 1)) + width)
}

impl<'a> UploadPlane<'a> {
    /// Whether the samples hold every row the plane claims.
    pub fn fits(&self) -> (r: bool)
        ensures
            r == (self.data@.len() >= upload_span(self.stride as int, self.width as int, self.height as int)),
    {
        let rows = sat_sub_usize(self.height, 1);
        let span = sat_add_usize(sat_mul_usize(self.stride, rows), self.width);
        self.data.len() >= span
    }
}

/// The geometry of a rendered frame: frame and block sizes, the origin of
/// the block grid and the vertical chroma subsampling.
pub struct RenderGeometry {
    pub width: i32,
    pub height: i32,
    pub block_w: i32,
    pub block_h: i32,
    pub origin_x: i32,
    pub origin_y: i32,
    pub chroma_y_div: i32,
}

/// The parameters of one plane for a compute kernel.
#[derive(Clone, Copy)]
pub struct GpuPlaneParams {
    pub width: i32,
    pub height: i32,
    pub block_w: i32,
    pub block_h: i32,
    pub origin_x: i32,
    pub origin_y: i32,
    pub x_shift: i32,
    pub y_shift: i32,
    pub x_div: i32,
    pub y_div: i32,
    pub source_step: i32,
}

/// The parameters of the luma plane (`chroma` false) or of a chroma plane:
/// the plane size divided by the subsampling, the luma block grid and its
/// interpolation shifts, one source sample per step.
pub open spec fn gpu_plane_spec(g: RenderGeometry, chroma: bool) -> GpuPlaneParams {
    let xr: int = if chroma { 2 } else { 1 };
    let yr: int = if chroma { g.chroma_y_div as int } else { 1 };
    GpuPlaneParams {
        width: tdiv(g.width as int, xr) as i32,
        height: tdiv(g.height as int, yr) as i32,
        block_w: g.block_w,
        block_h: g.block_h,
        origin_x: g.origin_x,
        origin_y: g.origin_y,
        x_shift: cpu_map_spec(g.block_w as int) as i32,
        y_shift: cpu_map_spec(g.block_h as int) as i32,
        x_div: xr as i32,
        y_div: yr as i32,
        source_step: 1,
    }
}

/// The kernel parameters of a plane (see `gpu_plane_spec`).
pub fn gpu_plane_params(g: &RenderGeometry, chroma: bool) -> (r: GpuPlaneParams)
    requires
        chroma ==> g.chroma_y_div != 0 && !(g.height == i32::MIN && g.chroma_y_div == -1),
    ensures
        r == gpu_plane_spec(*g, chroma),
{
    let xr: i32 = if chroma { 2 } else { 1 };
    let yr: i32 = if chroma { g.chroma_y_div } else { 1 };
    let width = crate::arith::div_i32(g.width, xr);
    let height = crate::arith::div_i32(g.height, yr);
    GpuPlaneParams {
        width,
        height,
        block_w: g.block_w,
        block_h: g.block_h,
        origin_x: g.origin_x,
        origin_y: g.origin_y,
        x_shift: cpu_map(g.block_w),
        y_shift: cpu_map(g.block_h),
        x_div: xr,
        y_div: yr,
        source_step: 1,
    }
}

/// The arguments of a render kernel for one plane.
#[derive(Clone, Copy)]
pub struct KernelParams {
    pub algorithm: i32,
    pub width: i32,
    pub height: i32,
    pub x_ratio: i32,
    pub y_ratio: i32,
    pub pel: i32,
    pub block_w: i32,
    pub block_h: i32,
    pub origin_x: i32,
    pub origin_y: i32,
    pub phase: i32,
    pub has_sad: i32,
    pub linear_luma: i32,
}

/// The kernel arguments of a plane: its parameters, the algorithm and
/// phase, whether an area mask is given, and whether it is the luma plane.
pub open spec fn kernel_spec(p: GpuPlaneParams, algorithm: i32, phase: i32, has_sad: bool, chroma: bool) -> KernelParams {
    KernelParams {
        algorithm,
        width: p.width,
        height: p.height,
        x_ratio: p.x_div,
        y_ratio: p.y_div,
        pel: p.source_step,
        block_w: p.block_w,
        block_h: p.block_h,
        origin_x: p.origin_x,
        origin_y: p.origin_y,
        phase,
        has_sad: if has_sad { 1 } else { 0 },
        linear_luma: if chroma { 0 } else { 1 },
    }
}

/// The kernel arguments of a plane (see `kernel_spec`).
pub fn kernel_params(p: &GpuPlaneParams, algorithm: i32, phase: i32, has_sad: bool, chroma: bool) -> (r: KernelParams)
    ensures
        r == kernel_spec(*p, algorithm, phase, has_sad, chroma),
{
    KernelParams {
        algorithm,
        width: p.width,
        height: p.height,
        x_ratio: p.x_div,
        y_ratio: p.y_div,
        pel: p.source_step,
        block_w: p.block_w,
        block_h: p.block_h,
        origin_x: p.origin_x,
        origin_y: p.origin_y,
        phase,
        has_sad: if has_sad { 1 } else { 0 },
        linear_luma: if chroma { 0 } else { 1 },
    }
}

/// The parameters of the luma plane (`chroma` false) or a chroma plane for
/// the tile renderers: the plane and block sizes divided by the
/// subsampling, the block grid's origin (at 0 when `zero_origin`), the
/// interpolation shifts of the block sizes (of the halved block for
/// chroma), the last source position reachable with `source_step`, and
/// the interpolation weights given.
pub open spec fn plane_params_spec(
    g: RenderGeometry,
    source_step: i32,
    chroma: bool,
    zero_origin: bool,
    x_weights: [(i32, i32); 32],
    y_weights: [(i32, i32); 32],
) -> PlaneParams {
    let cyd = g.chroma_y_div as int;
    let (ox, oy) = if zero_origin {
        (0int, 0int)
    } else if chroma {
        (tdiv(g.origin_x as int, 2), tdiv(g.origin_y as int, cyd))
    } else {
        (g.origin_x as int, g.origin_y as int)
    };
    let w = if chroma { tdiv(g.width as int, 2) } else { g.width as int };
    let h = if chroma { tdiv(g.height as int, cyd) } else { g.height as int };
    let max_x = sat_i32(sat_i32(w * source_step) - 1);
    let max_y = sat_i32(sat_i32(h * source_step) - 1);
    PlaneParams {
        width: w as i32,
        height: h as i32,
        block_w: (if chroma { tdiv(g.block_w as int, 2) } else { g.block_w as int }) as i32,
        block_h: (if chroma { tdiv(g.block_h as int, cyd) } else { g.block_h as int }) as i32,
        origin_x: ox as i32,
        origin_y: oy as i32,
        x_shift: (if chroma { cpu_map_spec(tdiv(g.block_w as int, 2)) } else { cpu_map_spec(g.block_w as int) }) as i32,
        y_shift: (if chroma { cpu_map_spec(tdiv(g.block_h as int, 2)) } else { cpu_map_spec(g.block_h as int) }) as i32,
        x_div: if chroma { 2 } else { 1 },
        y_div: if chroma { g.chroma_y_div } else { 1 },
        source_step,
        max_x: (if max_x < 0 { 0 } else { max_x }) as i32,
        max_y: (if max_y < 0 { 0 } else { max_y }) as i32,
        x_weights,
        y_weights,
    }
}

/// The parameters of a plane for the tile renderers (see
/// `plane_params_spec`).
pub fn plane_params(
    g: &RenderGeometry,
    source_step: i32,
    chroma: bool,
    zero_origin: bool,
    x_weights: [(i32, i32); 32],
    y_weights: [(i32, i32); 32],
) -> (r: PlaneParams)
    requires
        chroma ==> g.chroma_y_div != 0 && !(g.chroma_y_div == -1 && (g.height == i32::MIN || g.origin_y == i32::MIN || g.block_h == i32::MIN)),
    ensures
        r == plane_params_spec(*g, source_step, chroma, zero_origin, x_weights, y_weights),
{
    let (ox, oy) = if zero_origin {
        (0, 0)
    } else if chroma {
        (crate::arith::div_i32(g.origin_x, 2), crate::arith::div_i32(g.origin_y, g.chroma_y_div))
    } else {
        (g.origin_x, g.origin_y)
    };
    let w = if chroma { crate::arith::div_i32(g.width, 2) } else { g.width };
    let h = if chroma { crate::arith::div_i32(g.height, g.chroma_y_div) } else { g.height };
    let max_x = sat_sub_i32(sat_mul_i32(w, source_step), 1);
    let max_y = sat_sub_i32(sat_mul_i32(h, source_step), 1);
    let (bw, bh, xs, ys) = if chroma {
        let bw = crate::arith::div_i32(g.block_w, 2);
        (bw, crate::arith::div_i32(g.block_h, g.chroma_y_div), cpu_map(bw), cpu_map(crate::arith::div_i32(g.block_h, 2)))
    } else {
        (g.block_w, g.block_h, cpu_map(g.block_w), cpu_map(g.block_h))
    };
    PlaneParams {
        width: w,
        height: h,
        block_w: bw,
        block_h: bh,
        origin_x: ox,
        origin_y: oy,
        x_shift: xs,
        y_shift: ys,
        x_div: if chroma { 2 } else { 1 },
        y_div: if chroma { g.chroma_y_div } else { 1 },
        source_step,
        max_x: if max_x < 0 { 0 } else { max_x },
        max_y: if max_y < 0 { 0 } else { max_y },
        x_weights,
        y_weights,
    }
}

} // verus!
