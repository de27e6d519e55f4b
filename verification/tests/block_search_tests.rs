use svpflow::analyse_opts::AnalyseOpts;
use svpflow::analyse_search::{SuperPlanes, Vec8};
use svpflow::block_cost::{block_luma_dc, chroma_sad_x4, exact_sad, window_sad, window_satd, Window};
use svpflow::block_search::{
    exact_check, exact_expanding, exact_hex2, exact_search_block, BlockSearch, SearchBest, StartPenalties,
};
use svpflow::level_search::exact_search_level;

fn pattern(x: i32, y: i32) -> u8 {
    ((x * 37 + y * 91 + x * y * 13) % 251) as u8
}

/// A 16 x 16 frame (one level, pel 1) whose luma is `pattern` moved
/// right by `shift`, with flat chroma.
fn frame(shift: i32) -> (Vec<u8>, Vec<u8>, Vec<u8>) {
    let mut y = vec![0u8; 256];
    for row in 0..16 {
        for col in 0..16 {
            y[(row * 16 + col) as usize] = pattern(col - shift, row);
        }
    }
    (y, vec![128u8; 64], vec![128u8; 64])
}

fn planes<'a>(y: &'a [u8], u: &'a [u8], v: &'a [u8]) -> SuperPlanes<'a> {
    SuperPlanes {
        y,
        y_stride: 16,
        u,
        u_stride: 8,
        v,
        v_stride: 8,
        luma_w: 16,
        luma_h: 16,
        pel: 1,
        levels: 1,
        full: true,
    }
}

fn search<'a>(src: &'a SuperPlanes<'a>, refp: &'a SuperPlanes<'a>, px: i32, py: i32) -> BlockSearch<'a> {
    BlockSearch {
        src,
        refp,
        level: 0,
        px,
        py,
        bw: 4,
        bh: 4,
        pel: 1,
        satd: false,
        predictor: (0, 0),
        bounds: (-px, -py, 16 - px - 4, 16 - py - 4),
        lambda: 0,
        pnew: 0,
    }
}

#[test]
fn sad_of_a_constant_difference() {
    let cur = vec![10u8; 16];
    let refd = vec![13u8; 16];
    let win = Window { cur0: 0, ref0: 0, cx: 0, cy: 0, rx: 0, ry: 0, w: 4, h: 4, zero_outside: false };
    assert_eq!(window_sad(&cur, 4, &refd, 4, 0, win, 4, 4), 48);
    assert_eq!(window_sad(&cur, 4, &refd, 4, 0, win, 2, 3), 18);
}

#[test]
fn satd_of_a_constant_difference() {
    let cur = vec![11u8; 16];
    let refd = vec![10u8; 16];
    let win = Window { cur0: 0, ref0: 0, cx: 0, cy: 0, rx: 0, ry: 0, w: 4, h: 4, zero_outside: true };
    assert_eq!(window_satd(&cur, 4, &refd, 4, 0, win, 1), 8);
}

#[test]
fn reference_positions_are_clamped() {
    let cur: Vec<u8> = (0..16).collect();
    let refd: Vec<u8> = (0..16).collect();
    // Moved one column left, the first column reads the clamped column 0.
    let win = Window { cur0: 0, ref0: 0, cx: 0, cy: 0, rx: -1, ry: 0, w: 4, h: 4, zero_outside: false };
    assert_eq!(window_sad(&cur, 4, &refd, 4, 0, win, 4, 4), 12);
}

#[test]
fn exact_sad_finds_the_shift() {
    let (y0, u0, v0) = frame(0);
    let (y1, u1, v1) = frame(1);
    let src = planes(&y0, &u0, &v0);
    let refp = planes(&y1, &u1, &v1);
    assert_eq!(exact_sad(&src, &refp, 0, 4, 4, 4, 4, (1, 0), false, 1), 0);
    assert!(exact_sad(&src, &refp, 0, 4, 4, 4, 4, (0, 0), false, 1) > 0);
    assert_eq!(exact_sad(&src, &src, 0, 4, 4, 4, 4, (0, 0), true, 1), 0);
    assert_eq!(chroma_sad_x4(&src, &refp, 0, 1, 3, -2, 4, 4, 4, 4, 16, 16), 0);
}

#[test]
fn chroma_cost_is_four_times_the_uv_sad() {
    let (y0, u0, v0) = frame(0);
    let u1 = vec![130u8; 64];
    let v1 = vec![127u8; 64];
    let src = planes(&y0, &u0, &v0);
    let refp = planes(&y0, &u1, &v1);
    // A 4 x 4 block has a 2 x 2 chroma block: (2 + 1) * 4 per sample.
    assert_eq!(chroma_sad_x4(&src, &refp, 0, 1, 0, 0, 4, 4, 4, 4, 16, 16), 48);
}

#[test]
fn block_mean_luma() {
    let y = vec![200u8; 256];
    let (_, u, v) = frame(0);
    let src = planes(&y, &u, &v);
    assert_eq!(block_luma_dc(&src, 0, 4, 4, 4, 4), 200);
    // Only the part inside the level counts.
    assert_eq!(block_luma_dc(&src, 0, 14, 14, 4, 4), 200);
}

#[test]
fn check_takes_a_cheaper_vector_only() {
    let (y0, u0, v0) = frame(0);
    let (y1, u1, v1) = frame(1);
    let src = planes(&y0, &u0, &v0);
    let refp = planes(&y1, &u1, &v1);
    let s = search(&src, &refp, 4, 4);
    let mut best = SearchBest { mv: (0, 0), sad: 1000, cost: 1000 };
    exact_check(&s, (1, 0), &mut best);
    assert_eq!((best.mv, best.sad, best.cost), ((1, 0), 0, 0));
    exact_check(&s, (0, 1), &mut best);
    assert_eq!(best.mv, (1, 0));
    // Outside the bounds nothing is taken.
    let mut far = SearchBest { mv: (0, 0), sad: 1000, cost: 1000 };
    exact_check(&s, (100, 0), &mut far);
    assert_eq!(far.cost, 1000);
}

#[test]
fn expanding_square_reaches_the_shift() {
    let (y0, u0, v0) = frame(0);
    let (y1, u1, v1) = frame(1);
    let src = planes(&y0, &u0, &v0);
    let refp = planes(&y1, &u1, &v1);
    let s = search(&src, &refp, 4, 4);
    let start = exact_sad(&src, &refp, 0, 4, 4, 4, 4, (0, 0), false, 1);
    let mut best = SearchBest { mv: (0, 0), sad: start, cost: start as i64 };
    exact_expanding(&s, (0, 0), 1, 1, &mut best);
    assert_eq!(best.mv, (1, 0));
    assert_eq!(best.sad, 0);
}

#[test]
fn hexagon_search_ends_at_the_shift() {
    let (y0, u0, v0) = frame(0);
    let (y2, u2, v2) = frame(2);
    let src = planes(&y0, &u0, &v0);
    let refp = planes(&y2, &u2, &v2);
    let s = search(&src, &refp, 4, 4);
    let start = exact_sad(&src, &refp, 0, 4, 4, 4, 4, (0, 0), false, 1);
    let mut best = SearchBest { mv: (0, 0), sad: start, cost: start as i64 };
    exact_hex2(&s, 4, &mut best);
    assert_eq!((best.mv, best.sad), ((2, 0), 0));
}

#[test]
fn block_search_from_the_zero_vector() {
    let (y0, u0, v0) = frame(0);
    let (y1, u1, v1) = frame(1);
    let src = planes(&y0, &u0, &v0);
    let refp = planes(&y1, &u1, &v1);
    let s = search(&src, &refp, 4, 4);
    let pen = StartPenalties { pzero: 0, pglobal: 0, pnbour: 0 };
    let single = exact_search_block(&s, false, (0, 0), (0, 0), &[], pen, 4, 2, false);
    assert_eq!((single.mv, single.sad), ((1, 0), 0));
    let many = exact_search_block(&s, true, (0, 0), (0, 0), &[(2, 2)], pen, 4, 2, true);
    assert_eq!((many.mv, many.sad), ((1, 0), 0));
    // A neighbour at the shift is taken without any search.
    let seeded = exact_search_block(&s, false, (0, 0), (0, 0), &[(1, 0)], pen, 0, 0, false);
    assert_eq!((seeded.mv, seeded.sad), ((1, 0), 0));
}

fn opts() -> AnalyseOpts {
    AnalyseOpts {
        vectors: 3,
        block_w: 4,
        block_h: 4,
        overlap_mode: 0,
        overlap_x: 0,
        overlap_y: 0,
        delta: 1,
        pel: 1,
        selector: 0,
        levels: 1,
        super_levels: 1,
        width: 16,
        height: 16,
        lambda: 0,
        lsad: 8000,
        plevel_mode: 0,
        pnew: 0,
        pglobal: 0,
        pzero: 0,
        pnbour: 0,
        prev: 0,
        search_type: 4,
        coarse_search_type: 4,
        distance: 2,
        coarse_distance: 2,
        coarse_trymany: false,
        coarse_bad_sad: 1000,
        coarse_bad_range: -24,
        fine_satd: false,
        coarse_satd: false,
        refine_thsad: None,
        refine_search_type: 4,
        refine_distance: 2,
        refine_satd: false,
        sort: true,
    }
}

#[test]
fn level_search_fills_the_field() {
    let (y0, u0, v0) = frame(0);
    let (y1, u1, v1) = frame(1);
    let src = planes(&y0, &u0, &v0);
    let refp = planes(&y1, &u1, &v1);
    let unsearched = Vec8 { dx: 0, dy: 0, score: u32::MAX, luma: 0 };
    let mut field = vec![unsearched; 16];
    let order: Vec<(i32, i32)> = vec![(1, 1), (2, 1), (1, 2), (2, 2)];
    let lambdas = vec![0i32; 16];
    exact_search_level(&src, &refp, &opts(), 0, (0, 0), &mut field, 4, 4, &order, &lambdas);
    for &(bx, by) in &order {
        let v = field[(by * 4 + bx) as usize];
        assert_eq!((v.dx, v.dy, v.score), (1, 0, 0));
    }
    // Blocks not in the order keep their entry.
    assert_eq!(field[0].score, u32::MAX);
}

#[test]
fn level_search_keeps_vectors_in_bounds() {
    let (y0, u0, v0) = frame(0);
    let (y1, u1, v1) = frame(-1);
    let src = planes(&y0, &u0, &v0);
    let refp = planes(&y1, &u1, &v1);
    let unsearched = Vec8 { dx: 0, dy: 0, score: u32::MAX, luma: 0 };
    let mut field = vec![unsearched; 16];
    let mut order: Vec<(i32, i32)> = Vec::new();
    for by in 0..4 {
        for bx in 0..4 {
            order.push((bx, by));
        }
    }
    let lambdas = vec![0i32; 16];
    exact_search_level(&src, &refp, &opts(), 0, (0, 0), &mut field, 4, 4, &order, &lambdas);
    for &(bx, by) in &order {
        let v = field[(by * 4 + bx) as usize];
        let (px, py) = (bx * 4, by * 4);
        let (b0, b1) = (-px, -py);
        let (b2, b3) = ((16 - px - 4).max(0), (16 - py - 4).max(0));
        assert!(b0 <= i32::from(v.dx) && i32::from(v.dx) <= (b2 - 1).max(b0));
        assert!(b1 <= i32::from(v.dy) && i32::from(v.dy) <= (b3 - 1).max(b1));
    }
    // The leftmost blocks cannot follow the content one sample left.
    assert!(field[0].dx >= 0 && field[4].dx >= 0);
    // The others find it.
    assert_eq!((field[5].dx, field[5].dy), (-1, 0));
}
