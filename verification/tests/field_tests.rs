use svpflow::analyse_opts::{search_radius, exact_lambda, AnalyseOpts, AnalyseValues};
use svpflow::analyse_search::Vec8;
use svpflow::field_ops::{exact_interpolate_level, level_grid, rescale_scores};
use svpflow::global_motion::{exact_global_doubled, field_mode};
use svpflow::metadata::{decode_vectors, VectorShape};
use svpflow::order_refine::refine_search_order;
use svpflow::pyramid::{level_plan, start_field};
use svpflow::search_order::initial_search_order;
use svpflow::vector_pack::{pack_vdata_header, pack_vector_frame};

fn v(dx: i16, dy: i16) -> Vec8 {
    Vec8 { dx, dy, score: 0, luma: 0 }
}

fn vs(dx: i16, dy: i16, score: u32, luma: u8) -> Vec8 {
    Vec8 { dx, dy, score, luma }
}

fn opts() -> AnalyseOpts {
    AnalyseOpts {
        vectors: 3,
        block_w: 4,
        block_h: 4,
        overlap_mode: 0,
        overlap_x: 0,
        overlap_y: 0,
        delta: 1,
        pel: 1,
        selector: 0,
        levels: 1,
        super_levels: 1,
        width: 16,
        height: 16,
        lambda: 1000,
        lsad: 8000,
        plevel_mode: 0,
        pnew: 0,
        pglobal: 0,
        pzero: 0,
        pnbour: 0,
        prev: 0,
        search_type: 4,
        coarse_search_type: 4,
        distance: 2,
        coarse_distance: 0,
        coarse_trymany: false,
        coarse_bad_sad: 1000,
        coarse_bad_range: -24,
        fine_satd: false,
        coarse_satd: false,
        refine_thsad: None,
        refine_search_type: 4,
        refine_distance: 2,
        refine_satd: false,
        sort: true,
    }
}

#[test]
fn mode_is_the_most_frequent_component() {
    let field = vec![v(1, 2), v(1, 2), v(3, 2), v(0, 0)];
    assert_eq!(field_mode(&field, true), 1);
    assert_eq!(field_mode(&field, false), 2);
}

#[test]
fn mode_ties_go_to_the_smaller_value() {
    let field = vec![v(5, 0), v(-3, 0)];
    assert_eq!(field_mode(&field, true), -3);
    assert_eq!(field_mode(&[], true), 0);
}

#[test]
fn global_motion_is_twice_the_mean_of_near_vectors() {
    assert_eq!(exact_global_doubled(&[v(1, 2), v(1, 2), v(3, 2), v(0, 0)]), (2, 3));
    // (20, 20) lies too far from the modes (2, 0) to count.
    assert_eq!(exact_global_doubled(&[v(2, 0), v(2, 0), v(20, 20), v(3, 1)]), (4, 0));
    // The mean is rounded toward zero.
    assert_eq!(exact_global_doubled(&[v(-2, 0), v(-2, 0), v(-3, -1)]), (-4, 0));
    assert_eq!(exact_global_doubled(&[v(5, 0), v(-3, 0)]), (-6, 0));
    assert_eq!(exact_global_doubled(&[]), (0, 0));
}

#[test]
fn refined_order_puts_main_path_children_first() {
    let coarse = initial_search_order(2, 2);
    assert_eq!(coarse, vec![(0, 0), (0, 1), (1, 0), (1, 1)]);
    let order = refine_search_order(&coarse, 4, 4);
    assert_eq!(
        order,
        vec![
            (1, 1), (1, 2), (2, 1), (2, 2),
            (0, 0), (1, 0), (0, 1), (0, 2), (1, 3), (0, 3), (2, 0), (3, 0), (3, 1), (3, 2), (3, 3), (2, 3),
        ]
    );
}

#[test]
fn refined_order_appends_unreached_blocks() {
    let order = refine_search_order(&[(0, 0)], 4, 4);
    assert_eq!(
        order,
        vec![
            (1, 1), (0, 0), (1, 0), (0, 1),
            (2, 1), (1, 2), (2, 2), (0, 3), (1, 3), (2, 0), (2, 3), (3, 0), (3, 3), (3, 1), (0, 2), (3, 2),
        ]
    );
}

#[test]
fn refined_order_visits_each_block_once() {
    let coarse = initial_search_order(3, 2);
    let order = refine_search_order(&coarse, 5, 3);
    assert_eq!(order.len(), 15);
    let mut seen = vec![false; 15];
    for &(x, y) in &order {
        assert!((0..5).contains(&x) && (0..3).contains(&y));
        let i = (y * 5 + x) as usize;
        assert!(!seen[i]);
        seen[i] = true;
    }
}

#[test]
fn clip_header_words() {
    assert_eq!(pack_vdata_header(&opts()), vec![0xA0, 3, 4, 4, 1, 1, 0, 16, 16, 0, 0, 4, 4, 1, 1, 0]);
    let mut o = opts();
    o.vectors = 2;
    o.refine_thsad = Some(100);
    o.block_w = 8;
    o.block_h = 8;
    // Refinement halves the output blocks (at least 4) and reports 1 level.
    assert_eq!(pack_vdata_header(&o), vec![0xA0, 2, 4, 4, 1, 1, 0, 16, 16, 0, 0, 4, 4, 1, 1, 0]);
}

fn word(bytes: &[u8], off: usize) -> i32 {
    i32::from_le_bytes([bytes[off], bytes[off + 1], bytes[off + 2], bytes[off + 3]])
}

#[test]
fn packed_frame_layout() {
    let prev = vec![vs(1, -1, 5, 7), vs(2, 0, 0x1234_5678, 200)];
    let cur = vec![vs(-4, 3, 9, 1)];
    let out = pack_vector_frame(&opts(), Some(&prev), Some(&cur));
    assert_eq!(out.len(), 0x40 + 2 * (4 + 16 * 8));
    assert_eq!(word(&out, 0), 16);
    assert_eq!(word(&out, 4), 0xA0);
    assert_eq!(word(&out, 8), 3);
    assert_eq!(word(&out, 0x30), 4);
    assert_eq!(word(&out, 0x38), 1);
    assert_eq!(word(&out, 0x40), 33);
    assert_eq!(word(&out, 0x44) as u32, 0x0001_ffff);
    assert_eq!(word(&out, 0x48) as u32, 0x0700_0005);
    assert_eq!(word(&out, 0x40 + 4 + 16 * 8), 33);
}

#[test]
fn packed_frame_reads_back() {
    let prev = vec![vs(1, -1, 5, 7), vs(2, 0, 0x1234_5678, 200)];
    let cur = vec![vs(-4, 3, 9, 1)];
    let out = pack_vector_frame(&opts(), Some(&prev), Some(&cur));
    let d = decode_vectors(&out, 3, VectorShape { width: 4, height: 4 }, 3).unwrap();
    let p = d.previous.unwrap();
    let c = d.current.unwrap();
    assert_eq!(p.len(), 16);
    assert_eq!((p[0].dx, p[0].dy, p[0].score, p[0].luma), (1, -1, 5, 7));
    assert_eq!((p[1].dx, p[1].dy, p[1].score, p[1].luma), (2, 0, 0x34_5678, 200));
    assert_eq!((p[2].dx, p[2].dy, p[2].score, p[2].luma), (0, 0, 0, 0));
    assert_eq!((c[0].dx, c[0].dy, c[0].score, c[0].luma), (-4, 3, 9, 1));
    assert_eq!(c[15].score, 0);
}

#[test]
fn packed_frame_with_one_field() {
    let cur = vec![vs(1, 1, 1, 1)];
    let out = pack_vector_frame(&opts(), None, Some(&cur));
    assert_eq!(out.len(), 0x40 + 4 + 16 * 8);
    assert_eq!(word(&out, 8), 2);
    assert_eq!(word(&out, 0x40), 33);
    let none = pack_vector_frame(&opts(), None, None);
    assert_eq!(none.len(), 0x40);
    assert_eq!(word(&none, 8), 0);
}

#[test]
fn rescaled_scores() {
    let mut field = vec![vs(30, 0, 100, 3), vs(80, 0, 100, 4), vs(250, 0, 100, 5), vs(0, -70, 1000, 6), vs(300, 0, 0x1000_0000, 7)];
    rescale_scores(&mut field, 100, 4);
    let scores: Vec<u32> = field.iter().map(|e| e.score).collect();
    assert_eq!(scores, vec![100, 226, 2000, 1513, 0x00ff_ffff]);
    assert_eq!((field[1].dx, field[1].luma), (80, 4));
}

#[test]
fn pyramid_level_grids() {
    assert_eq!(level_grid(&opts(), 0, 4, 4, 0, 0), (4, 4));
    assert_eq!(level_grid(&opts(), 1, 4, 4, 0, 0), (2, 2));
    assert_eq!(level_grid(&opts(), 1, 8, 8, 2, 2), (1, 1));
}

#[test]
fn level_lambdas_and_radii() {
    let mut o = opts();
    assert_eq!(exact_lambda(&o, 2, 2), 250);
    o.plevel_mode = 1;
    assert_eq!(exact_lambda(&o, 2, 2), 1000);
    o.plevel_mode = 2;
    assert_eq!(exact_lambda(&o, 2, 2), 4000);
    assert_eq!(search_radius(&o, true, 0, 2), 2);
    assert_eq!(search_radius(&o, false, 0, 2), 0);
    assert_eq!(search_radius(&o, false, 1, 2), 10);
}

#[test]
fn interpolation_doubles_a_single_vector() {
    let coarse = vec![vs(3, -2, 10, 9)];
    let fine = exact_interpolate_level(&coarse, 1, 1, 2, 2, 4, 4, 0, 0, 1);
    assert_eq!(fine.len(), 4);
    for e in &fine {
        assert_eq!((e.dx, e.dy, e.score, e.luma), (6, -4, 10, 9));
    }
}

#[test]
fn interpolation_blends_neighbours() {
    let coarse = vec![vs(4, 0, 16, 1), vs(8, 0, 32, 2)];
    let fine = exact_interpolate_level(&coarse, 2, 1, 4, 2, 4, 4, 0, 0, 1);
    let row: Vec<(i16, u32, u8)> = fine[0..4].iter().map(|e| (e.dx, e.score, e.luma)).collect();
    assert_eq!(row, vec![(8, 16, 1), (10, 20, 1), (14, 28, 2), (16, 32, 2)]);
}

fn values() -> AnalyseValues {
    AnalyseValues {
        vectors: None,
        block_w: None,
        block_h: None,
        overlap: None,
        delta: None,
        lsad: None,
        pnew: None,
        pglobal: None,
        pzero: None,
        pnbour: None,
        prev: None,
        search_type: None,
        distance: None,
        coarse_type: None,
        coarse_distance: None,
        coarse_trymany: None,
        coarse_bad_sad: None,
        coarse_bad_range: None,
        fine_satd: None,
        coarse_satd: None,
        sort: None,
        refine_thsad: None,
        refine_type: None,
        refine_distance: None,
        refine_satd: None,
        levels: None,
    }
}

fn sdata(width: i64, height: i64, pel: i64, levels: i64) -> i64 {
    (width << 16) | height | (pel << 32) | (levels << 40)
}

#[test]
fn options_from_defaults() {
    let o = AnalyseOpts::from_values(&values(), sdata(64, 48, 1, 3), None, 1234, 1).unwrap();
    assert_eq!((o.vectors, o.block_w, o.block_h, o.overlap_x, o.overlap_y), (3, 16, 16, 4, 4));
    assert_eq!((o.width, o.height, o.pel, o.super_levels, o.delta), (64, 48, 1, 3, 1));
    assert_eq!((o.lambda, o.plevel_mode), (1234, 1));
    assert_eq!((o.lsad, o.coarse_bad_sad), (64000, 8000));
    assert_eq!((o.pnew, o.pglobal, o.pzero, o.pnbour, o.prev), (50, 50, 100, 50, 0));
    assert_eq!((o.search_type, o.coarse_search_type, o.distance, o.coarse_distance), (4, 4, 2, 0));
    assert!(o.coarse_satd && o.sort && !o.fine_satd && !o.coarse_trymany);
    assert_eq!(o.refine_thsad, None);
    assert!(1 <= o.levels && o.levels <= 3);
}

#[test]
fn options_refinement_threshold_scales_with_the_half_block() {
    let mut v = values();
    v.refine_thsad = Some(64);
    v.block_w = Some(8);
    let o = AnalyseOpts::from_values(&v, sdata(64, 48, 2, 3), None, 0, 0).unwrap();
    assert_eq!(o.refine_thsad, Some(64 * 16 / 32));
    assert_eq!((o.block_h, o.overlap_x, o.pel), (8, 2, 2));
}

#[test]
fn options_errors() {
    let mut v = values();
    v.vectors = Some(4);
    assert_eq!(AnalyseOpts::from_values(&v, sdata(64, 48, 1, 3), None, 0, 0).unwrap_err(), "SVAnalyse: vectors must be 1, 2 or 3");
    let mut v = values();
    v.block_w = Some(12);
    assert_eq!(AnalyseOpts::from_values(&v, sdata(64, 48, 1, 3), None, 0, 0).unwrap_err(), "SVAnalyse: block.w must be 4/8/16/32");
    let mut v = values();
    v.overlap = Some(7);
    assert!(AnalyseOpts::from_values(&v, sdata(64, 48, 1, 3), None, 0, 0).unwrap_err().starts_with("SVAnalyse: overlap must be"));
    assert_eq!(AnalyseOpts::from_values(&values(), 0, None, 0, 0).unwrap_err(), "SVAnalyse: invalid super clip params");
}

#[test]
fn level_plans_down_the_pyramid() {
    let mut o = opts();
    o.pel = 2;
    let (gw, gh, pel, top) = level_plan(&o, 1, &[]);
    assert_eq!((gw, gh, pel), (2, 2, 1));
    assert_eq!(top, initial_search_order(2, 2));
    let (gw, gh, pel, order) = level_plan(&o, 0, &top);
    assert_eq!((gw, gh, pel), (4, 4, 2));
    assert_eq!(order, refine_search_order(&top, 4, 4));
}

#[test]
fn start_fields() {
    let top = start_field(&opts(), &[], 0, 0, 2, 3, 1);
    assert_eq!(top.len(), 6);
    assert!(top.iter().all(|e| e.score == u32::MAX && e.dx == 0 && e.dy == 0));
    let coarse = vec![vs(3, -2, 10, 9)];
    let fine = start_field(&opts(), &coarse, 1, 1, 2, 2, 1);
    assert!(fine.iter().all(|e| (e.dx, e.dy, e.score, e.luma) == (6, -4, 10, 9)));
}
