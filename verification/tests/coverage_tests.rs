use svpflow::coverage::{add_point, coverage_mask, coverage_remaining, splat_coverage, window_3x3, TruncDiv};
use svpflow::renderer::{Vector, VectorContext};

fn context<'a>(a: &'a [Vector], b: &'a [Vector], grid_w: usize, grid_h: usize) -> VectorContext<'a> {
    VectorContext {
        block_w: 8,
        block_h: 8,
        scale_shift_base: 1,
        frame_w: 16,
        frame_h: 16,
        origin_x: 0,
        origin_y: 0,
        grid_w,
        grid_h,
        raw: false,
        a,
        b,
    }
}

#[test]
fn trunc_div_matches_division() {
    let d = TruncDiv::new(7);
    assert_eq!(d.div(20), 2);
    assert_eq!(d.div(-20), -2);
    assert_eq!(d.div(0), 0);
    assert_eq!(d.div(i32::MAX), i32::MAX / 7);
    let n = TruncDiv::new(-3);
    assert_eq!(n.div(10), -3);
    let z = TruncDiv::new(0);
    assert_eq!(z.div(10), 0);
}

#[test]
fn add_point_saturates_and_skips_outside() {
    let mut acc = vec![0i32; 16];
    add_point(&mut acc, 2, 1, 1, 5);
    assert_eq!(acc[5], 5);
    add_point(&mut acc, 2, -1, 1, 5);
    add_point(&mut acc, 2, 1, -1, 5);
    assert_eq!(acc.iter().sum::<i32>(), 5);
    acc[0] = i32::MAX - 1;
    add_point(&mut acc, 2, 0, 0, 5);
    assert_eq!(acc[0], i32::MAX);
    add_point(&mut acc, 2, 3, 3, 1);
    assert_eq!(acc[15], 1);
    add_point(&mut acc, 2, 0, 4, 1);
    assert_eq!(acc.len(), 16);
}

#[test]
fn window_sums_three_by_three() {
    let points = [1, 2, 3, 4, 5, 6, 7, 8, 9];
    let mut sums = [0i32; 9];
    window_3x3(&points, &mut sums, 3);
    assert_eq!(sums, [1, 3, 6, 5, 12, 21, 12, 27, 45]);
    let mut copy = [0i32; 9];
    window_3x3(&points, &mut copy, 1);
    assert_eq!(copy, points);
}

#[test]
fn splat_of_still_block_lands_on_its_cell() {
    let a = [Vector { dx: 0, dy: 0, magnitude: 0 }];
    let ctx = context(&a, &[], 1, 1);
    let mut acc = vec![0i32; 16];
    splat_coverage(&ctx, &a, &mut acc, 2, 2, 1);
    let mut expected = vec![0i32; 16];
    expected[0] = 64;
    assert_eq!(acc, expected);
}

#[test]
fn splat_of_moved_block_splits_weights() {
    let a = [Vector { dx: 4 * 256, dy: 0, magnitude: 0 }];
    let ctx = context(&a, &[], 1, 1);
    let mut acc = vec![0i32; 25];
    splat_coverage(&ctx, &a, &mut acc, 3, 3, 1);
    let mut expected = vec![0i32; 25];
    expected[0] = 32;
    expected[1] = 32;
    assert_eq!(acc, expected);
}

#[test]
fn splat_skips_empty_grid() {
    let ctx = context(&[], &[], 0, 1);
    let mut acc = vec![3i32; 9];
    splat_coverage(&ctx, &[], &mut acc, 1, 1, 1);
    assert_eq!(acc, vec![3i32; 9]);
}

#[test]
fn coverage_of_one_still_block() {
    let a = [Vector { dx: 0, dy: 0, magnitude: 0 }];
    let ctx = context(&a, &[], 1, 1);
    assert_eq!(coverage_mask(&ctx, 1, 2, 2, 1), vec![56, 56, 56, 56]);
    // Field `b` is empty: its one grid cell counts as a still vector.
    assert_eq!(coverage_mask(&ctx, 0, 2, 2, 1), vec![56, 56, 56, 56]);
}

#[test]
fn coverage_remaining_stops_at_missing_rows() {
    let a: [Vector; 0] = [];
    let ctx = context(&a, &a, 1, 1);
    let accum = vec![8i32; 16];
    let (rem, rows) = coverage_remaining(&ctx, &accum, 4, 2, 2);
    assert_eq!(rows, 2);
    assert_eq!(rem, vec![63, 63, 63, 63]);
    let (rem, rows) = coverage_remaining(&ctx, &accum, 3, 2, 2);
    assert_eq!(rows, 1);
    assert_eq!(rem, vec![63, 63]);
    let big = vec![1000i32; 16];
    let (rem, _) = coverage_remaining(&ctx, &big, 4, 2, 2);
    assert_eq!(rem, vec![0, 0, 0, 0]);
}
