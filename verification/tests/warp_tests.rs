use svpflow::renderer::{MotionPlanes, Plane, NEUTRAL};
use svpflow::warp::PlaneParams;
use svpflow::warp_single::{render_warp_rows, WarpPlane};

fn params() -> PlaneParams {
    PlaneParams {
        width: 8,
        height: 8,
        block_w: 4,
        block_h: 4,
        origin_x: 2,
        origin_y: 2,
        x_shift: 2,
        y_shift: 2,
        x_div: 1,
        y_div: 1,
        source_step: 1,
        max_x: 7,
        max_y: 7,
        x_weights: [(2, 2); 32],
        y_weights: [(2, 2); 32],
    }
}

fn lut() -> [i16; 2048] {
    let mut t = [0i16; 2048];
    for (i, e) in t.iter_mut().enumerate() {
        *e = i as i16 - 1024;
    }
    t
}

fn source() -> Vec<u8> {
    (0..64).map(|i| ((i % 8) + 10 * (i / 8)) as u8).collect()
}

#[test]
fn warp_moves_samples_along_the_field() {
    let src = source();
    let xs = vec![NEUTRAL + 1; 4];
    let ys = vec![NEUTRAL; 4];
    let table = lut();
    let plane = WarpPlane {
        source: Plane::linear(&src, 8),
        motion: MotionPlanes { x: &xs, y: &ys },
        lut: &table,
        mask: None,
        mask_params: None,
        grid_w: 2,
        grid_h: 2,
        interp: true,
    };
    let mut dst = vec![0u8; 64];
    render_warp_rows(&mut dst, 8, &plane, &params(), 0, 8);
    for y in 0..8usize {
        for x in 0..8usize {
            assert_eq!(dst[y * 8 + x], src[y * 8 + (x + 1).min(7)], "pixel {x},{y}");
        }
    }
}

#[test]
fn opaque_mask_keeps_the_undisplaced_sample() {
    let src = source();
    let xs = vec![NEUTRAL + 2; 4];
    let ys = vec![NEUTRAL + 1; 4];
    let mask = vec![255u8; 4];
    let table = lut();
    let plane = WarpPlane {
        source: Plane::linear(&src, 8),
        motion: MotionPlanes { x: &xs, y: &ys },
        lut: &table,
        mask: Some(&mask),
        mask_params: None,
        grid_w: 2,
        grid_h: 2,
        interp: true,
    };
    let mut dst = vec![0u8; 64];
    render_warp_rows(&mut dst, 8, &plane, &params(), 0, 8);
    assert_eq!(dst, src);
}

#[test]
fn rows_outside_the_band_are_kept() {
    let src = source();
    let still = vec![NEUTRAL; 4];
    let table = lut();
    let plane = WarpPlane {
        source: Plane::linear(&src, 8),
        motion: MotionPlanes { x: &still, y: &still },
        lut: &table,
        mask: None,
        mask_params: None,
        grid_w: 2,
        grid_h: 2,
        interp: true,
    };
    // A buffer of rows 3 and 4 only.
    let mut dst = vec![0u8; 16];
    render_warp_rows(&mut dst, 8, &plane, &params(), 3, 5);
    assert_eq!(&dst[..8], &src[24..32]);
    assert_eq!(&dst[8..], &src[32..40]);
}

use svpflow::renderer::BlendOrder;
use svpflow::warp_dual::{mode21_or_22_pixel, render_dual_rows, DualKind, DualPlane};

fn dual<'a>(
    s0: &'a [u8],
    s1: &'a [u8],
    m0: MotionPlanes<'a>,
    m1: MotionPlanes<'a>,
    table: &'a [i16; 2048],
    masks: [Option<&'a [u8]>; 3],
    kind: DualKind,
    threshold: i32,
    limit: i32,
) -> DualPlane<'a> {
    DualPlane {
        source0: Plane::linear(s0, 8),
        source1: Plane::linear(s1, 8),
        motion0: m0,
        motion1: m1,
        threshold_lut: table,
        inverse_lut: table,
        masks,
        mask_params: None,
        grid_w: 2,
        grid_h: 2,
        interp: true,
        kind,
        threshold,
        threshold_limit: limit,
    }
}

#[test]
fn dual_mode11_mixes_the_sources() {
    let s0 = vec![10u8; 64];
    let s1 = vec![30u8; 64];
    let still = vec![NEUTRAL; 4];
    let table = lut();
    let m = MotionPlanes { x: &still, y: &still };
    let kind = DualKind::Mode11Or13 { mode13: false, order: BlendOrder::Forward };
    let mut dst = vec![0u8; 64];
    render_dual_rows(&mut dst, 8, &dual(&s0, &s1, m, m, &table, [None; 3], kind, 128, 0), &params(), 0, 8);
    assert!(dst.iter().all(|&b| b == 20));
    render_dual_rows(&mut dst, 8, &dual(&s0, &s1, m, m, &table, [None; 3], kind, 64, 0), &params(), 0, 8);
    assert!(dst.iter().all(|&b| b == 15));
}

#[test]
fn dual_mode13_keeps_the_blend_between_the_warped_samples() {
    let s0 = source();
    let s1 = source();
    let right = vec![NEUTRAL + 1; 4];
    let still = vec![NEUTRAL; 4];
    let table = lut();
    let m0 = MotionPlanes { x: &right, y: &still };
    let m1 = MotionPlanes { x: &still, y: &still };
    let kind = DualKind::Mode11Or13 { mode13: true, order: BlendOrder::Forward };
    let mut dst = vec![0u8; 64];
    render_dual_rows(&mut dst, 8, &dual(&s0, &s1, m0, m1, &table, [None; 3], kind, 128, 0), &params(), 0, 8);
    // The plain blend equals the undisplaced sample, which lies between
    // the two warped ones.
    assert_eq!(dst, s0);
}

#[test]
fn dual_mode21_and_22() {
    let s0 = vec![10u8; 64];
    let s1 = vec![30u8; 64];
    let still = vec![NEUTRAL; 4];
    let zeros = vec![0u8; 4];
    let opaque = vec![255u8; 4];
    let table = lut();
    let m = MotionPlanes { x: &still, y: &still };
    let mut dst = vec![0u8; 64];
    let kind21 = DualKind::Mode21Or22 { mode21: true };
    render_dual_rows(&mut dst, 8, &dual(&s0, &s1, m, m, &table, [Some(&zeros), Some(&zeros), None], kind21, 128, 0), &params(), 0, 8);
    assert!(dst.iter().all(|&b| b == 20));
    let kind22 = DualKind::Mode21Or22 { mode21: false };
    render_dual_rows(&mut dst, 8, &dual(&s0, &s1, m, m, &table, [Some(&zeros), Some(&zeros), Some(&opaque)], kind22, 128, 0), &params(), 0, 8);
    assert!(dst.iter().all(|&b| b == 10));
}

#[test]
fn mode21_or_22_pixels() {
    assert_eq!(mode21_or_22_pixel(true, 0, 0, 100, 200, Some(0), Some(0), None, 64, 0), 125);
    assert_eq!(mode21_or_22_pixel(true, 0, 0, 100, 200, None, None, None, 64, 0), 125);
    assert_eq!(mode21_or_22_pixel(false, 0, 255, 100, 200, Some(0), Some(0), None, 128, 0), 127);
    assert_eq!(mode21_or_22_pixel(false, 0, 255, 100, 200, Some(0), Some(0), Some(255), 128, 256), 255);
}

use svpflow::plane_render::{render_plane_rows, RenderSetup};
use svpflow::renderer::{MaskPlanes, PlaneRenderInput, RenderError};

fn setup(table: &[i16; 2048]) -> RenderSetup<'_> {
    RenderSetup {
        params: params(),
        mask_params: None,
        threshold_lut: table,
        inverse_lut: table,
        grid_w: 2,
        grid_h: 2,
        threshold: 128,
        threshold_limit: 0,
        shifted: true,
    }
}

#[test]
fn plane_render_by_algorithm() {
    let s0 = vec![10u8; 64];
    let s1 = vec![30u8; 64];
    let still = vec![NEUTRAL; 4];
    let zeros = vec![0u8; 4];
    let table = lut();
    let m = MotionPlanes { x: &still, y: &still };
    let masks = MaskPlanes { a: &zeros, b: &zeros };
    let input = PlaneRenderInput {
        source0: Plane::linear(&s0, 8),
        source1: Plane::linear(&s1, 8),
        motion0: m,
        motion1: m,
        motion2: Some(m),
        motion3: Some(m),
        masks: Some(masks),
        final_mask: None,
    };
    let set = setup(&table);
    let mut dst = vec![0u8; 64];
    assert_eq!(render_plane_rows(1, true, &mut dst, 8, &input, &set, 0, 8), Ok(()));
    assert!(dst.iter().all(|&b| b == 10));
    assert_eq!(render_plane_rows(2, true, &mut dst, 8, &input, &set, 0, 8), Ok(()));
    assert!(dst.iter().all(|&b| b == 30));
    assert_eq!(render_plane_rows(11, true, &mut dst, 8, &input, &set, 0, 8), Ok(()));
    assert!(dst.iter().all(|&b| b == 20));
    assert_eq!(render_plane_rows(21, true, &mut dst, 8, &input, &set, 0, 8), Ok(()));
    assert!(dst.iter().all(|&b| b == 20));
    let mut dst = vec![0u8; 64];
    assert_eq!(render_plane_rows(23, true, &mut dst, 8, &input, &set, 0, 8), Ok(()));
    assert!(dst.iter().all(|&b| b == 20));
}

#[test]
fn plane_render_errors() {
    let s0 = vec![10u8; 64];
    let still = vec![NEUTRAL; 4];
    let zeros = vec![0u8; 4];
    let table = lut();
    let m = MotionPlanes { x: &still, y: &still };
    let mut input = PlaneRenderInput {
        source0: Plane::linear(&s0, 8),
        source1: Plane::linear(&s0, 8),
        motion0: m,
        motion1: m,
        motion2: None,
        motion3: None,
        masks: None,
        final_mask: None,
    };
    let set = setup(&table);
    let mut dst = vec![7u8; 64];
    assert_eq!(render_plane_rows(5, true, &mut dst, 8, &input, &set, 0, 8), Err(RenderError::UnsupportedMode));
    assert_eq!(render_plane_rows(21, true, &mut dst, 8, &input, &set, 0, 8), Err(RenderError::MissingMasks));
    assert_eq!(render_plane_rows(23, true, &mut dst, 8, &input, &set, 0, 8), Err(RenderError::MissingMotion));
    input.motion2 = Some(m);
    assert_eq!(render_plane_rows(23, true, &mut dst, 8, &input, &set, 0, 8), Err(RenderError::MissingMotion));
    input.motion3 = Some(m);
    assert_eq!(render_plane_rows(23, true, &mut dst, 8, &input, &set, 0, 8), Err(RenderError::MissingMasks));
    assert!(dst.iter().all(|&b| b == 7));
    input.masks = Some(MaskPlanes { a: &zeros, b: &zeros });
    assert_eq!(render_plane_rows(13, true, &mut dst, 8, &input, &set, 0, 8), Ok(()));
    assert!(dst.iter().all(|&b| b == 10));
}
