//! Rendering the rows of one plane of an interpolated frame by the
//! requested algorithm: the selected-field warp (1, 2), the dual-field
//! mixes (11, 13, 21, 22) or algorithm 23, each from the inputs it needs,
//! with an error when the algorithm is unknown or an input is missing.
use vstd::prelude::*;
use crate::renderer::{
    PlaneRenderInput, MaskPlanes, RenderError, BlendOrder, max_mask, min_spec, max_spec,
};
use crate::warp::PlaneParams;
use crate::warp_single::{WarpPlane, warp_plane_fits, warp_tile_list, warp_plane_tiles, render_warp_rows};
use crate::warp_dual::{DualPlane, DualKind, dual_plane_fits, dual_tile_list, dual_plane_tiles, render_dual_rows};
use crate::mode23::{Mode23Plane, plane_fits, plane_tile_list, plane_tiles, render_mode23_rows};

verus! {

/// The settings a plane render takes from the renderer: the plane's
/// geometry (with the block grid at the origin when the vectors are not
/// interpolated), the masks' own geometry in that case, the motion tables
/// of both directions, the vector grid, the blend weights, and whether the
/// block sizes allow shifts in place of divisions.
#[derive(Clone, Copy)]
pub struct RenderSetup<'a> {
    pub params: PlaneParams,
    pub mask_params: Option<PlaneParams>,
    pub threshold_lut: &'a [i16; 2048],
    pub inverse_lut: &'a [i16; 2048],
    pub grid_w: usize,
    pub grid_h: usize,
    pub threshold: i32,
    pub threshold_limit: i32,
    pub shifted: bool,
}

/// The error a plane render gives, if any: an unknown algorithm, or masks
/// or the extra vector fields missing where the algorithm needs them.
pub open spec fn render_error(mode: u32, input: PlaneRenderInput) -> Option<RenderError> {
    if mode == 1 || mode == 2 || mode == 11 || mode == 13 {
        None
    } else if mode == 21 || mode == 22 {
        if input.masks is None { Some(RenderError::MissingMasks) } else { None }
    } else if mode == 23 {
        if input.motion2 is None || input.motion3 is None {
            Some(RenderError::MissingMotion)
        } else if input.masks is None {
            Some(RenderError::MissingMasks)
        } else {
            None
        }
    } else {
        Some(RenderError::UnsupportedMode)
    }
}

/// The selected-field warp of algorithm 1 (the first source along the
/// first field, under the second mask) or 2 (the second source along the
/// second field, under the first mask).
pub open spec fn selected_plane<'a>(mode: u32, interp: bool, input: PlaneRenderInput<'a>, setup: RenderSetup<'a>) -> WarpPlane<'a> {
    WarpPlane {
        source: if mode == 1 { input.source0 } else { input.source1 },
        motion: if mode == 1 { input.motion0 } else { input.motion1 },
        lut: if mode == 1 { setup.threshold_lut } else { setup.inverse_lut },
        mask: match input.masks {
            Some(m) => Some(if mode == 1 { m.b } else { m.a }),
            None => None,
        },
        mask_params: setup.mask_params,
        grid_w: setup.grid_w,
        grid_h: setup.grid_h,
        interp,
    }
}

/// The larger of the two masks at each position, over their common length.
pub open spec fn max_view(m: MaskPlanes) -> Seq<u8> {
    Seq::new(min_spec(m.a@.len() as int, m.b@.len() as int) as nat, |i: int| max_spec(m.a@[i] as int, m.b@[i] as int) as u8)
}

/// The dual-field render of algorithm 11 or 13 (one mask, `mask`) or 21
/// or 22 (the two occlusion masks and the final mask).
pub open spec fn dual_plane<'a>(mode: u32, interp: bool, input: PlaneRenderInput<'a>, setup: RenderSetup<'a>, mask: Option<&'a [u8]>) -> DualPlane<'a> {
    DualPlane {
        source0: input.source0,
        source1: input.source1,
        motion0: input.motion0,
        motion1: input.motion1,
        threshold_lut: setup.threshold_lut,
        inverse_lut: setup.inverse_lut,
        masks: if mode == 11 || mode == 13 {
            [mask, None, None]
        } else {
            match input.masks {
                Some(m) => [Some(m.a), Some(m.b), input.final_mask],
                None => [None, None, input.final_mask],
            }
        },
        mask_params: setup.mask_params,
        grid_w: setup.grid_w,
        grid_h: setup.grid_h,
        interp,
        kind: if mode == 11 || mode == 13 {
            DualKind::Mode11Or13 { mode13: mode == 13, order: BlendOrder::Forward }
        } else {
            DualKind::Mode21Or22 { mode21: mode == 21 }
        },
        threshold: setup.threshold,
        threshold_limit: setup.threshold_limit,
    }
}

/// The algorithm-23 render: the four fields, both masks and the final one.
pub open spec fn mode23_plane<'a>(interp: bool, input: PlaneRenderInput<'a>, setup: RenderSetup<'a>) -> Mode23Plane<'a> {
    let masks = input.masks.unwrap();
    Mode23Plane {
        source0: input.source0,
        source1: input.source1,
        base0: input.motion0,
        base1: input.motion1,
        next0: input.motion2.unwrap(),
        prev1: input.motion3.unwrap(),
        mask_a: masks.a,
        mask_b: masks.b,
        mask: input.final_mask,
        mask_params: setup.mask_params,
        threshold_lut: setup.threshold_lut,
        inverse_lut: setup.inverse_lut,
        grid_w: setup.grid_w,
        grid_h: setup.grid_h,
        interp,
        threshold: setup.threshold,
        threshold_limit: setup.threshold_limit,
    }
}

/// The mask of an algorithm 11 or 13 render: the larger of the two masks
/// when given.
pub open spec fn mask_11_13(mask: Option<&[u8]>, input: PlaneRenderInput) -> bool {
    match input.masks {
        Some(m) => mask matches Some(mk) && mk@ == max_view(m),
        None => mask is None,
    }
}

/// Whether a plane render of algorithm `mode` stays in bounds and within
/// `i32` everywhere; a render that fails at once asks nothing.
pub open spec fn plane_render_fits(mode: u32, interp: bool, input: PlaneRenderInput, setup: RenderSetup, row_start: int, row_end: int) -> bool {
    if mode == 1 || mode == 2 {
        warp_plane_fits(selected_plane(mode, interp, input, setup), setup.params, row_start, row_end)
    } else if mode == 11 || mode == 13 {
        forall|mask: Option<&[u8]>| mask_11_13(mask, input) ==> #[trigger] dual_plane_fits(dual_plane(mode, interp, input, setup, mask), setup.params, row_start, row_end)
    } else if (mode == 21 || mode == 22) && render_error(mode, input) is None {
        dual_plane_fits(dual_plane(mode, interp, input, setup, None), setup.params, row_start, row_end)
    } else if mode == 23 && render_error(mode, input) is None {
        plane_fits(setup.shifted, mode23_plane(interp, input, setup), setup.params, row_start, row_end)
    } else {
        true
    }
}

/// The buffer after a render of algorithm `mode`, when it does not fail;
/// for algorithms 11 and 13, with `mask` as the mask.
pub open spec fn plane_render_result(mode: u32, interp: bool, buf: Seq<u8>, stride: int, input: PlaneRenderInput, setup: RenderSetup, row_start: int, row_end: int, mask: Option<&[u8]>) -> Seq<u8> {
    let p = setup.params;
    if mode == 1 || mode == 2 {
        let w = selected_plane(mode, interp, input, setup);
        let tiles = warp_tile_list(w, p, row_start, row_end);
        warp_plane_tiles(buf, stride, w, p, tiles, row_start, tiles.len() as int)
    } else if mode == 11 || mode == 13 || mode == 21 || mode == 22 {
        let d = dual_plane(mode, interp, input, setup, mask);
        let tiles = dual_tile_list(d, p, row_start, row_end);
        dual_plane_tiles(buf, stride, d, p, tiles, row_start, tiles.len() as int)
    } else {
        let q = mode23_plane(interp, input, setup);
        let tiles = plane_tile_list(q, p, row_start, row_end);
        plane_tiles(setup.shifted, buf, stride, q, p, tiles, row_start, tiles.len() as int)
    }
}

/// Renders rows `row_start .. row_end` of one plane by algorithm `mode`
/// into `dst` (whose first row is `row_start`); fails, leaving `dst`
/// unchanged, as `render_error` says.
pub fn render_plane_rows(
    mode: u32,
    interp: bool,
    dst: &mut [u8],
    dst_stride: usize,
    input: &PlaneRenderInput<'_>,
    setup: &RenderSetup<'_>,
    row_start: i32,
    row_end: i32,
) -> (r: Result<(), RenderError>)
    requires
        plane_render_fits(mode, interp, *input, *setup, row_start as int, row_end as int),
    ensures
        match render_error(mode, *input) {
            Some(e) => r == Err::<(), RenderError>(e) && final(dst)@ == old(dst)@,
            None => r is Ok && exists|mask: Option<&[u8]>| (mode == 11 || mode == 13 ==> mask_11_13(mask, *input))
                && final(dst)@ == #[trigger] plane_render_result(mode, interp, old(dst)@, dst_stride as int, *input, *setup, row_start as int, row_end as int, mask),
        },
{
    let params = &setup.params;
    if mode == 1 || mode == 2 {
        let plane = WarpPlane {
            source: if mode == 1 { input.source0 } else { input.source1 },
            motion: if mode == 1 { input.motion0 } else { input.motion1 },
            lut: if mode == 1 { setup.threshold_lut } else { setup.inverse_lut },
            mask: match input.masks {
                Some(m) => Some(if mode == 1 { m.b } else { m.a }),
                None => None,
            },
            mask_params: setup.mask_params,
            grid_w: setup.grid_w,
            grid_h: setup.grid_h,
            interp,
        };
        assert(plane == selected_plane(mode, interp, *input, *setup));
        render_warp_rows(dst, dst_stride, &plane, params, row_start, row_end);
        assert(dst@ == plane_render_result(mode, interp, old(dst)@, dst_stride as int, *input, *setup, row_start as int, row_end as int, None));
        Ok(())
    } else if mode == 11 || mode == 13 {
        let max = match input.masks {
            Some(m) => Some(max_mask(m)),
            None => None,
        };
        let mask: Option<&[u8]> = match &max {
            Some(v) => Some(v.as_slice()),
            None => None,
        };
        proof {
            match input.masks {
                Some(m) => {
                    assert(mask.unwrap()@ =~= max_view(m));
                },
                None => {},
            }
            assert(mask_11_13(mask, *input));
            assert(dual_plane_fits(dual_plane(mode, interp, *input, *setup, mask), setup.params, row_start as int, row_end as int));
        }
        let plane = DualPlane {
            source0: input.source0,
            source1: input.source1,
            motion0: input.motion0,
            motion1: input.motion1,
            threshold_lut: setup.threshold_lut,
            inverse_lut: setup.inverse_lut,
            masks: [mask, None, None],
            mask_params: setup.mask_params,
            grid_w: setup.grid_w,
            grid_h: setup.grid_h,
            interp,
            kind: DualKind::Mode11Or13 { mode13: mode == 13, order: BlendOrder::Forward },
            threshold: setup.threshold,
            threshold_limit: setup.threshold_limit,
        };
        assert(plane == dual_plane(mode, interp, *input, *setup, mask));
        render_dual_rows(dst, dst_stride, &plane, params, row_start, row_end);
        assert(dst@ == plane_render_result(mode, interp, old(dst)@, dst_stride as int, *input, *setup, row_start as int, row_end as int, mask));
        Ok(())
    } else if mode == 21 || mode == 22 {
        let masks = match input.masks {
            Some(m) => m,
            None => return Err(RenderError::MissingMasks),
        };
        let plane = DualPlane {
            source0: input.source0,
            source1: input.source1,
            motion0: input.motion0,
            motion1: input.motion1,
            threshold_lut: setup.threshold_lut,
            inverse_lut: setup.inverse_lut,
            masks: [Some(masks.a), Some(masks.b), input.final_mask],
            mask_params: setup.mask_params,
            grid_w: setup.grid_w,
            grid_h: setup.grid_h,
            interp,
            kind: DualKind::Mode21Or22 { mode21: mode == 21 },
            threshold: setup.threshold,
            threshold_limit: setup.threshold_limit,
        };
        assert(plane == dual_plane(mode, interp, *input, *setup, None));
        render_dual_rows(dst, dst_stride, &plane, params, row_start, row_end);
        assert(dst@ == plane_render_result(mode, interp, old(dst)@, dst_stride as int, *input, *setup, row_start as int, row_end as int, None));
        Ok(())
    } else if mode == 23 {
        let next0 = match input.motion2 {
            Some(m) => m,
            None => return Err(RenderError::MissingMotion),
        };
        let prev1 = match input.motion3 {
            Some(m) => m,
            None => return Err(RenderError::MissingMotion),
        };
        let masks = match input.masks {
            Some(m) => m,
            None => return Err(RenderError::MissingMasks),
        };
        let plane = Mode23Plane {
            source0: input.source0,
            source1: input.source1,
            base0: input.motion0,
            base1: input.motion1,
            next0,
            prev1,
            mask_a: masks.a,
            mask_b: masks.b,
            mask: input.final_mask,
            mask_params: setup.mask_params,
            threshold_lut: setup.threshold_lut,
            inverse_lut: setup.inverse_lut,
            grid_w: setup.grid_w,
            grid_h: setup.grid_h,
            interp,
            threshold: setup.threshold,
            threshold_limit: setup.threshold_limit,
        };
        assert(plane == mode23_plane(interp, *input, *setup));
        if setup.shifted {
            render_mode23_rows::<true>(dst, dst_stride, &plane, params, row_start, row_end);
        } else {
            render_mode23_rows::<false>(dst, dst_stride, &plane, params, row_start, row_end);
        }
        assert(dst@ == plane_render_result(mode, interp, old(dst)@, dst_stride as int, *input, *setup, row_start as int, row_end as int, None));
        Ok(())
    } else {
        Err(RenderError::UnsupportedMode)
    }
}

} // verus!
