use svpflow::metadata::{decode_vectors, encode_vector_payload, vector_count, DecodedVector, VectorData, VectorShape};

fn layout() -> VectorData {
    VectorData {
        flags: 3,
        block: VectorShape { width: 8, height: 8 },
        shape: VectorShape { width: 16, height: 8 },
        grid: VectorShape { width: 2, height: 1 },
        marker: 1,
        selector: 0,
        delta: 1,
        overlap_x: 0,
        overlap_y: 0,
    }
}

fn v(dx: i16, dy: i16, score: u32, luma: u8) -> DecodedVector {
    DecodedVector { dx, dy, score, luma }
}

fn parts(d: &DecodedVector) -> (i16, i16, u32, u8) {
    (d.dx, d.dy, d.score, d.luma)
}

#[test]
fn payload_roundtrip_masks_score() {
    let data = layout();
    let prev = [v(-3, 5, 0x1234_5678, 9), v(7, -1, 10, 200)];
    let cur = [v(i16::MIN, i16::MAX, 0x00FF_FFFF, 255), v(0, 0, 0, 0)];
    let payload = encode_vector_payload(data, Some(&prev), &cur);
    let decoded = decode_vectors(&payload, data.flags, data.grid, 3).unwrap();
    let p: Vec<_> = decoded.previous.unwrap().iter().map(parts).collect();
    let c: Vec<_> = decoded.current.unwrap().iter().map(parts).collect();
    assert_eq!(p, vec![(-3, 5, 0x0034_5678, 9), (7, -1, 10, 200)]);
    assert_eq!(c, vec![(i16::MIN, i16::MAX, 0x00FF_FFFF, 255), (0, 0, 0, 0)]);
}

#[test]
fn payload_current_only() {
    let data = layout();
    let cur = [v(1, 2, 3, 4), v(5, 6, 7, 8)];
    let payload = encode_vector_payload(data, None, &cur);
    let decoded = decode_vectors(&payload, data.flags, data.grid, 2).unwrap();
    assert!(decoded.previous.is_none());
    let c: Vec<_> = decoded.current.unwrap().iter().map(parts).collect();
    assert_eq!(c, vec![(1, 2, 3, 4), (5, 6, 7, 8)]);
}

#[test]
fn payload_with_other_layout_is_refused() {
    let data = layout();
    let payload = encode_vector_payload(data, None, &[v(1, 2, 3, 4), v(5, 6, 7, 8)]);
    assert!(decode_vectors(&payload, 2, data.grid, 2).is_none());
    assert!(decode_vectors(&payload[..4], data.flags, data.grid, 2).is_none());
}

#[test]
fn vector_counts() {
    assert_eq!(vector_count(VectorShape { width: 2, height: 3 }), Some(6));
    assert_eq!(vector_count(VectorShape { width: -2, height: 3 }), Some(0));
    assert_eq!(vector_count(VectorShape { width: 65536, height: 65536 }), None);
}
