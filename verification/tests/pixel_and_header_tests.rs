use svpflow::analyse_opts::unpack_sdata;
use svpflow::analyse_search::exact_ok;
use svpflow::metadata::{super_data, vector_data, DecodedVector, SuperData, VectorData, VectorRecord, VectorShape};
use svpflow::mode23::{render_mode23_rows, Mode23Plane};
use svpflow::renderer::{
    fill_neutral, fill_prefix, layout_matches, load2, max_mask, mode11_or_13_pixel, mode11_pixel, mode1_pixel,
    mode21_pixel, mode22_pixel, BlendOrder, MaskPlanes, MotionPlanes, Plane, NEUTRAL,
};
use svpflow::scene::debug_motion_planes;
use svpflow::super_opts::SuperOpts;
use svpflow::warp::{sample_plane_pair, PlaneParams};

#[test]
fn mode1_weights_the_warped_sample() {
    assert_eq!(mode1_pixel(100, 200, 0), 200);
    assert_eq!(mode1_pixel(100, 200, 255), 100);
    assert_eq!(mode1_pixel(100, 200, 128), 150);
}

#[test]
fn mode11_mixes_and_clamps() {
    assert_eq!(mode11_pixel(10, 30, 128), 20);
    assert_eq!(mode11_pixel(10, 30, 64), 15);
    assert_eq!(mode11_pixel(10, 30, 300), 33);
    assert_eq!(mode11_pixel(10, 30, -100), 2);
    assert_eq!(mode11_pixel(0, 255, -10), 0);
}

#[test]
fn mode21_pulls_then_mixes() {
    assert_eq!(mode21_pixel(100, 200, 255, 0, 128), 200);
    assert_eq!(mode21_pixel(100, 200, 0, 0, 64), 125);
}

#[test]
fn mode22_keeps_the_base_between_the_samples() {
    assert_eq!(mode22_pixel(100, 200, 0, 255, 0, 0, 128), 127);
    assert_eq!(mode22_pixel(100, 200, 0, 0, 0, 0, 128), 100);
}

#[test]
fn mode11_or_13_with_and_without_mask() {
    assert_eq!(mode11_or_13_pixel(false, 0, 0, 10, 30, 128, 128, None, BlendOrder::Forward), 20);
    assert_eq!(mode11_or_13_pixel(false, 0, 0, 10, 30, 128, 128, Some(255), BlendOrder::Forward), 0);
    assert_eq!(mode11_or_13_pixel(true, 50, 150, 10, 30, 128, 128, None, BlendOrder::Forward), 30);
}

#[test]
fn fills() {
    let mut d = vec![1u8, 2, 3, 4];
    fill_prefix(&mut d, 2, 9);
    assert_eq!(d, vec![9, 9, 3, 4]);
    fill_prefix(&mut d, 10, 7);
    assert_eq!(d, vec![7, 7, 7, 7]);
    let mut a = vec![0u16; 3];
    let mut b = vec![5u16; 2];
    fill_neutral(&mut a, Some(&mut b));
    assert_eq!((a, b), (vec![NEUTRAL; 3], vec![NEUTRAL; 2]));
    let mut c = vec![0u16; 2];
    fill_neutral(&mut c, None);
    assert_eq!(c, vec![1024, 1024]);
}

#[test]
fn plane_layouts_and_loads() {
    let a = vec![1u8, 2, 3];
    let b = vec![4u8, 5, 6];
    let pa = Plane::linear(&a, 3);
    let pb = Plane::linear(&b, 3);
    assert!(layout_matches(pa, pb));
    assert!(!layout_matches(pa, Plane::linear(&b, 4)));
    assert_eq!(load2([pa, pb], 1, true), [2, 5]);
    assert_eq!(load2([pa, pb], 2, false), [3, 0]);
    let m = max_mask(MaskPlanes { a: &[1, 9, 3], b: &[4, 5] });
    assert_eq!(m, vec![4, 9]);
}

fn params(max: i32) -> PlaneParams {
    PlaneParams {
        width: 4,
        height: 4,
        block_w: 4,
        block_h: 4,
        origin_x: 0,
        origin_y: 0,
        x_shift: 2,
        y_shift: 2,
        x_div: 1,
        y_div: 1,
        source_step: 1,
        max_x: max,
        max_y: max,
        x_weights: [(2, 2); 32],
        y_weights: [(2, 2); 32],
    }
}

#[test]
fn sample_pairs_clamp_into_the_plane() {
    let a: Vec<u8> = (0..16).collect();
    let b: Vec<u8> = (100..116).collect();
    let planes = [Plane::linear(&a, 4), Plane::linear(&b, 4)];
    let p = params(3);
    assert_eq!(sample_plane_pair::<true>(planes, &p, 1, 1, 1, 1, false), [10, 110]);
    assert_eq!(sample_plane_pair::<true>(planes, &p, 1, 1, 5, -3, false), [3, 103]);
    assert_eq!(sample_plane_pair::<false>(planes, &p, 0, 0, 2, 1, true), [6, 0]);
    assert_eq!(sample_plane_pair::<true>(planes, &p, 0, 0, 2, 1, true), [6, 106]);
}

#[test]
fn super_plane_needs_a_shift() {
    let a = vec![0u8; 4];
    assert!(Plane::super_plane(&a, 2, 4, 0).is_none());
    let p = Plane::super_plane(&a, 2, 4, 1).unwrap();
    assert_eq!(p.layout(), (2, 4, 1));
}

#[test]
fn ok_means_inside_the_half_open_bounds() {
    assert!(exact_ok((0, 0), (-2, -2, 3, 3)));
    assert!(exact_ok((-2, 2), (-2, -2, 3, 3)));
    assert!(!exact_ok((3, 0), (-2, -2, 3, 3)));
    assert!(!exact_ok((0, -3), (-2, -2, 3, 3)));
}

fn header(fields: &[(usize, i32)]) -> Vec<u8> {
    let mut h = vec![0u8; 0x3C];
    h[0..4].copy_from_slice(&0xA0i32.to_le_bytes());
    for &(off, v) in fields {
        h[off..off + 4].copy_from_slice(&v.to_le_bytes());
    }
    h
}

#[test]
fn vector_headers() {
    assert!(matches!(vector_data(&[0u8; 0x3C]), VectorRecord::Invalid));
    assert!(matches!(vector_data(&[0u8; 8]), VectorRecord::Invalid));
    let h = header(&[(0x04, 3), (0x08, 16), (0x0C, 8), (0x10, 2), (0x1C, 1920), (0x20, 1080), (0x24, 4), (0x28, 2),
        (0x2C, 120), (0x30, 135), (0x34, 1), (0x38, 1)]);
    let VectorRecord::Ready(v) = vector_data(&h) else { panic!("header not read") };
    assert_eq!((v.flags, v.block.width, v.block.height, v.marker), (3, 16, 8, 2));
    assert_eq!((v.shape.width, v.shape.height, v.overlap_x, v.overlap_y), (1920, 1080, 4, 2));
    assert_eq!((v.grid.width, v.grid.height, v.selector, v.delta), (120, 135, 1, 1));
    assert!(!v.marker_is_one());
    assert!(!v.render_mode_one());
    assert!(!v.rejects_cubic());
    assert!(!v.has_odd_overlap());
    let b = v.effective_block();
    assert_eq!((b.width, b.height), (12, 6));
    // 12 * 120 + 4 = 1444 and 6 * 135 + 2 = 812 fall short of the frame:
    // one more column and row.
    let g = v.motion_grid();
    assert_eq!((g.width, g.height), (121, 136));
}

fn data(selector: i32, overlap_x: i32) -> VectorData {
    VectorData {
        flags: 3,
        block: VectorShape { width: 8, height: 8 },
        shape: VectorShape { width: 64, height: 48 },
        grid: VectorShape { width: 8, height: 6 },
        marker: 1,
        selector,
        delta: 1,
        overlap_x,
        overlap_y: 0,
    }
}

#[test]
fn vector_data_flags() {
    let d = data(0, 3);
    assert!(d.marker_is_one() && d.render_mode_one() && d.rejects_cubic() && d.has_odd_overlap());
    let b = d.effective_block();
    assert_eq!((b.width, b.height), (5, 8));
    let g = d.motion_grid();
    // 5 * 8 + 3 = 43 falls short of 64.
    assert_eq!((g.width, g.height), (9, 6));
    let d = data(2, -8);
    assert!(!d.render_mode_one() && !d.rejects_cubic());
    assert_eq!(d.effective_block().width, 16);
}

#[test]
fn generated_vector_layouts() {
    let r = VectorData::generated_rife(100, 33);
    assert_eq!((r.flags, r.block.width, r.grid.width, r.grid.height, r.marker, r.selector), (2, 16, 7, 3, 1, 1));
    let s = VectorData::generated_source_8bit(10, 9, 1);
    assert_eq!((s.flags, s.block.width, s.grid.width, s.grid.height, s.marker), (2, 4, 3, 3, 4));
    assert_eq!(VectorData::generated_source_8bit(10, 9, 0).flags, 3);
}

#[test]
fn super_handles() {
    let handle: i64 = 1080 | (1920 << 16) | (2 << 32) | (7 << 40) | (3 << 48) | (5 << 56);
    let s = super_data(handle);
    assert_eq!((s.height, s.width, s.marker, s.selector, s.limit), (1080, 1920, 2, 3, 5));
    assert_eq!(s.scale(), 2);
    let mut v = data(1, 0);
    v.marker = 2;
    v.shape = VectorShape { width: 1920, height: 1080 };
    assert!(s.matches_vectors(&v));
    v.selector = 0;
    assert!(s.matches_vectors(&v));
    let t = SuperData { selector: 1, limit: 0, ..s };
    assert!(!t.matches_vectors(&v));
    v.marker = 1;
    assert!(!s.matches_vectors(&v));
}

#[test]
fn super_handle_reads_back_in_the_analyser() {
    let o = SuperOpts { pel: 2, gpu: 1, scale_down: 4, scale_up: 0, full: false, rc: true, levels: 5, width: 1920, height: 1080 };
    let handle = o.pack_data();
    assert_eq!(handle, 1080 | (1920 << 16) | (2 << 32) | (5 << 40) | (1 << 48) | (3 << 56));
    assert_eq!(unpack_sdata(handle, None), Ok((1920, 1080, 2, 5, 1)));
}

#[test]
fn debug_planes_center_the_components() {
    let v = [DecodedVector { dx: -3, dy: 5, score: 0, luma: 0 }, DecodedVector { dx: -2000, dy: 0, score: 0, luma: 0 }];
    let (x, y) = debug_motion_planes(&v);
    assert_eq!(x, vec![1021, 0]);
    assert_eq!(y, vec![1029, 1024]);
}

#[test]
fn mode23_rows_of_flat_sources_stay_flat() {
    let src = vec![100u8; 64];
    let neutral = vec![NEUTRAL; 4];
    let lut = [0i16; 2048];
    let still = MotionPlanes { x: &neutral, y: &neutral };
    let zeros = vec![0u8; 4];
    let plane = Mode23Plane {
        source0: Plane::linear(&src, 8),
        source1: Plane::linear(&src, 8),
        base0: still,
        base1: still,
        next0: still,
        prev1: still,
        mask_a: &zeros,
        mask_b: &zeros,
        mask: None,
        mask_params: None,
        threshold_lut: &lut,
        inverse_lut: &lut,
        grid_w: 2,
        grid_h: 2,
        interp: true,
        threshold: 128,
        threshold_limit: 0,
    };
    let mut p = params(7);
    p.width = 8;
    p.height = 8;
    p.origin_x = 2;
    p.origin_y = 2;
    let mut dst = vec![0u8; 64];
    render_mode23_rows::<true>(&mut dst, 8, &plane, &p, 0, 8);
    assert!(dst.iter().all(|&b| b == 100));
}

#[test]
fn payload_vectors_for_the_renderer() {
    let v = [DecodedVector { dx: -3, dy: 5, score: 77, luma: 9 }, DecodedVector { dx: 1, dy: 0, score: 0x00ff_ffff, luma: 0 }];
    let r = svpflow::renderer::renderer_vectors(&v);
    assert_eq!(r.len(), 2);
    assert_eq!((r[0].dx, r[0].dy, r[0].magnitude), (-3, 5, 77));
    assert_eq!((r[1].dx, r[1].dy, r[1].magnitude), (1, 0, 0x00ff_ffff));
    assert!(svpflow::renderer::renderer_vectors(&[]).is_empty());
}
