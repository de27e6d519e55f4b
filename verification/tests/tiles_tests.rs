use svpflow::mode23::{render_mode23_tile, Mode23Input};
use svpflow::renderer::Plane;
use svpflow::tiles::render_tiles;
use svpflow::warp::{MotionSamples, PlaneParams, Tile};

fn params() -> PlaneParams {
    PlaneParams {
        width: 8,
        height: 8,
        block_w: 4,
        block_h: 4,
        origin_x: 2,
        origin_y: 2,
        x_shift: 2,
        y_shift: 2,
        x_div: 1,
        y_div: 1,
        source_step: 1,
        max_x: 7,
        max_y: 7,
        x_weights: [(2, 2); 32],
        y_weights: [(2, 2); 32],
    }
}

fn fields(t: &Tile) -> (i32, i32, i32, i32, i32, [usize; 4]) {
    (t.x, t.y, t.width, t.height, t.local_y, [t.i00, t.i01, t.i10, t.i11])
}

#[test]
fn tiles_cover_the_plane() {
    let tiles = render_tiles(&params(), 2, 2, 0, 8);
    let got: Vec<_> = tiles.iter().map(fields).collect();
    assert_eq!(
        got,
        vec![
            (0, 0, 2, 2, 0, [0, 0, 0, 0]),
            (2, 0, 4, 2, 0, [0, 1, 0, 1]),
            (6, 0, 2, 2, 0, [1, 1, 1, 1]),
            (0, 2, 2, 4, 0, [0, 0, 2, 2]),
            (2, 2, 4, 4, 0, [0, 1, 2, 3]),
            (6, 2, 2, 4, 0, [1, 1, 3, 3]),
            (0, 6, 2, 2, 0, [2, 2, 2, 2]),
            (2, 6, 4, 2, 0, [2, 3, 2, 3]),
            (6, 6, 2, 2, 0, [3, 3, 3, 3]),
        ]
    );
    let area: i32 = tiles.iter().map(|t| t.width * t.height).sum();
    assert_eq!(area, 64);
}

#[test]
fn tiles_clip_to_rows() {
    let tiles = render_tiles(&params(), 2, 2, 3, 5);
    let got: Vec<_> = tiles.iter().map(fields).collect();
    assert_eq!(
        got,
        vec![(0, 3, 2, 2, 1, [0, 0, 2, 2]), (2, 3, 4, 2, 1, [0, 1, 2, 3]), (6, 3, 2, 2, 1, [1, 1, 3, 3])]
    );
}

#[test]
fn no_tiles_without_grid() {
    assert!(render_tiles(&params(), 0, 2, 0, 8).is_empty());
    let mut p = params();
    p.block_w = 0;
    assert!(render_tiles(&p, 2, 2, 0, 8).is_empty());
}

#[test]
fn flat_sources_render_flat() {
    let src = vec![100u8; 64];
    let zeros = vec![0u8; 4];
    let still = MotionSamples { x: [0; 4], y: [0; 4] };
    let input = Mode23Input {
        source0: Plane::linear(&src, 8),
        source1: Plane::linear(&src, 8),
        motion: [still; 4],
        mask_a: &zeros,
        mask_b: &zeros,
        mask: None,
        mask_params: None,
        grid_w: 2,
        interp: true,
        direct: false,
        threshold: 128,
        threshold_limit: 0,
    };
    let p = params();
    let tile = render_tiles(&p, 2, 2, 0, 8)[4];
    let mut dst = vec![0u8; 64];
    render_mode23_tile::<true>(&mut dst, 8, &input, &p, &tile, 0);
    for y in 0..8 {
        for x in 0..8 {
            let inside = (2..6).contains(&x) && (2..6).contains(&y);
            assert_eq!(dst[y * 8 + x], if inside { 100 } else { 0 }, "pixel {x},{y}");
        }
    }
}
