use svpflow::nv12::{copy_row, pack_nv12};
use svpflow::search_order::{edge_shift_origins, hadamard4_satd, initial_search_order};

#[test]
fn initial_order_of_four_by_four() {
    let order = initial_search_order(4, 4);
    assert_eq!(
        order,
        vec![
            (2, 1),
            (1, 1),
            (1, 2),
            (2, 2),
            (0, 0),
            (0, 3),
            (1, 0),
            (1, 3),
            (2, 0),
            (2, 3),
            (3, 0),
            (3, 3),
            (0, 1),
            (3, 1),
            (0, 2),
            (3, 2),
        ]
    );
}

#[test]
fn initial_order_visits_every_cell_once() {
    for gw in 1..7 {
        for gh in 1..7 {
            let mut order = initial_search_order(gw, gh);
            assert_eq!(order.len(), (gw * gh) as usize);
            order.sort();
            order.dedup();
            assert_eq!(order.len(), (gw * gh) as usize, "grid {gw}x{gh}");
            assert!(order.iter().all(|&(x, y)| (0..gw).contains(&x) && (0..gh).contains(&y)));
        }
    }
}

#[test]
fn hadamard_costs() {
    assert_eq!(hadamard4_satd([[0; 4]; 4]), 0);
    assert_eq!(hadamard4_satd([[1; 4]; 4]), 8);
    let mut one = [[0; 4]; 4];
    one[0][0] = 2;
    assert_eq!(hadamard4_satd(one), 16);
    assert_eq!(hadamard4_satd([[-1; 4]; 4]), 8);
}

#[test]
fn edge_shift_moves_block_back() {
    // A vector staying inside the frame needs no shift.
    assert_eq!(edge_shift_origins(8, 8, 2, -3, 8, 8, 32, 32, 1), None);
    // Left of the frame: the origin moves right by the overshoot.
    assert_eq!(edge_shift_origins(4, 8, -6, 0, 8, 8, 32, 32, 1), Some((6, 8, 0, 8)));
    // Past the right edge at half-pel precision.
    assert_eq!(edge_shift_origins(20, 0, 12, 0, 8, 8, 32, 32, 2), Some((15, 0, 21, 0)));
}

#[test]
fn nv12_packing() {
    let y: Vec<u8> = (0..16).collect();
    let u = [100u8, 101, 102, 103];
    let v = [200u8, 201, 202, 203];
    let out = pack_nv12(&y, &u, &v, 4, 4, 4, 2);
    let mut expected: Vec<u8> = (0..16).collect();
    expected.extend([100, 200, 101, 201, 102, 202, 103, 203]);
    assert_eq!(out, expected);
    let short = pack_nv12(&y[..6], &u, &v, 4, 4, 4, 2);
    assert_eq!(&short[..8], &[0, 1, 2, 3, 0, 0, 0, 0]);
}

#[test]
fn row_copy_skips_short_buffers() {
    let src = [1u8, 2, 3, 4, 5, 6];
    let mut dst = [0u8; 6];
    copy_row(&src, 3, &mut dst, 2, 1, 2);
    assert_eq!(dst, [0, 0, 4, 5, 0, 0]);
    copy_row(&src, 3, &mut dst, 2, 2, 2);
    assert_eq!(dst, [0, 0, 4, 5, 0, 0]);
}
