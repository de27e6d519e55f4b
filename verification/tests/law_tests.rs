use svpflow::frame_math::{gcd, Timing};
use svpflow::metadata::{encode_vector_payload, vector_data, VectorData, VectorRecord, VectorShape};
use svpflow::portable::{Analyser, SuperBuilder};
use svpflow::renderer::threshold_luts;

#[test]
fn timing_is_in_lowest_terms() {
    for (sn, sd, absolute, rn, rd) in [
        (30000i64, 1001i64, false, 2i64, 1i64),
        (24000, 1001, true, 60000, 1001),
        (50, 2, false, 6, 4),
        (25, 1, true, 120, 2),
    ] {
        let t = Timing::new(sn, sd, absolute, rn, rd);
        assert!(t.fps_den > 0 && t.frame_den > 0);
        assert_eq!(gcd(t.fps_num as u64, t.fps_den as u64), 1);
        assert_eq!(gcd(t.frame_num as u64, t.frame_den as u64), 1);
        let (n, d) = if absolute { (rn, rd) } else { (sn * rn, sd * rd) };
        assert_eq!(t.fps_num * d, t.fps_den * n);
        assert_eq!(t.frame_num * sn * t.fps_den, t.frame_den * sd * t.fps_num);
    }
    let t = Timing::new(30000, 1001, false, 2, 1);
    assert_eq!((t.fps_num, t.fps_den, t.frame_num, t.frame_den), (60000, 1001, 2, 1));
    let t = Timing::new(50, 2, false, 6, 4);
    assert_eq!((t.fps_num, t.fps_den, t.frame_num, t.frame_den), (75, 2, 3, 2));
}

#[test]
fn output_phase_matches_phase_at_source_frame() {
    for t in [
        Timing::new(24000, 1001, false, 2, 1),
        Timing::new(25, 1, true, 60, 1),
        Timing::new(24, 1, true, 60, 1),
    ] {
        for frame in 0..40 {
            assert_eq!(t.output_phase_256(frame), t.phase_256(frame, t.source_frame(frame, false)));
        }
    }
    let t = Timing::new(25, 1, true, 60, 1);
    // Output frame 13 lies 13 * 5 / 12 = 5 5/12 source frames in.
    assert_eq!(t.output_phase_256(13), 107);
}

#[test]
fn payload_header_reads_back() {
    let d = VectorData {
        flags: 3,
        block: VectorShape { width: 16, height: 8 },
        shape: VectorShape { width: 720, height: 480 },
        grid: VectorShape { width: 3, height: 2 },
        marker: 1,
        selector: -2,
        delta: 2,
        overlap_x: 4,
        overlap_y: -1,
    };
    let payload = encode_vector_payload(d, None, &[]);
    match vector_data(&payload[4..]) {
        VectorRecord::Ready(v) => {
            assert_eq!((v.flags, v.marker, v.selector, v.delta), (3, 1, -2, 2));
            assert_eq!((v.block.width, v.block.height), (16, 8));
            assert_eq!((v.shape.width, v.shape.height), (720, 480));
            assert_eq!((v.grid.width, v.grid.height), (3, 2));
            assert_eq!((v.overlap_x, v.overlap_y), (4, -1));
        }
        _ => panic!("the payload header does not read back"),
    }
}

#[test]
fn builder_holds_the_automatic_levels() {
    let b = SuperBuilder::new(64, 64, 2).unwrap();
    assert_eq!((b.width(), b.height(), b.pel(), b.levels()), (64, 64, 2, 5));
    let frame = b.build(&vec![7u8; b.source_len()]).unwrap();
    assert_eq!(frame.bytes().len(), frame.len());
}

#[test]
fn motion_grid_at_the_largest_grid() {
    let d = VectorData {
        flags: 0,
        block: VectorShape { width: 1, height: 1 },
        shape: VectorShape { width: 0, height: 0 },
        grid: VectorShape { width: i32::MAX, height: 1 },
        marker: 1,
        selector: 0,
        delta: 1,
        overlap_x: 0,
        overlap_y: 0,
    };
    // The span reaches past the (empty) frame: no column is added.
    let g = d.motion_grid();
    assert_eq!((g.width, g.height), (i32::MAX, 1));
}

#[test]
fn threshold_tables() {
    let (t, inv) = threshold_luts(64);
    assert_eq!((t.len(), inv.len()), (2048, 2048));
    assert_eq!((t[0], inv[0]), (-256, -768));
    assert_eq!((t[1023], inv[1023]), (0, 0));
    assert_eq!((t[1024 + 256], inv[1024 + 256]), (64, 192));
    assert_eq!((t[2047], inv[2047]), (255, 767));
    let (t, inv) = threshold_luts(i32::MIN);
    // The complement to 256 saturates; the products saturate too.
    assert_eq!((t[0], inv[0]), (i16::MAX, i16::MIN));
}

#[test]
fn analyser_checks_its_arguments() {
    let b = SuperBuilder::new(64, 48, 2).unwrap();
    assert!(Analyser::new(&b, 8, 8, 2, 3).is_ok());
    assert!(Analyser::new(&b, 32, 4, 0, 1).is_ok());
    assert_eq!(Analyser::new(&b, 6, 8, 2, 3).err().unwrap(), "block dimensions must be 4, 8, 16 or 32");
    assert_eq!(Analyser::new(&b, 8, 64, 2, 3).err().unwrap(), "block dimensions must be 4, 8, 16 or 32");
    assert_eq!(Analyser::new(&b, 8, 8, 2, 0).err().unwrap(), "vectors must be 1, 2 or 3");
    assert_eq!(
        Analyser::new(&b, 8, 8, 4, 3).err().unwrap(),
        "SVAnalyse: overlap must be 0, 1 (=1/8*block), 2 (=1/4*block) or 3 (=1/2*block)"
    );
}

#[test]
fn analyser_knows_its_frames() {
    let b = SuperBuilder::new(64, 48, 2).unwrap();
    let a = Analyser::new(&b, 16, 16, 2, 3).unwrap();
    let f = b.build(&vec![9u8; b.source_len()]).unwrap();
    assert!(a.matches(&f, &f));
    let other = SuperBuilder::new(32, 32, 2).unwrap();
    let g = other.build(&vec![9u8; other.source_len()]).unwrap();
    assert!(!a.matches(&f, &g));
    let p = f.planes();
    assert_eq!((p.y_stride, p.u_stride, p.v_stride, p.luma_w, p.luma_h, p.pel), (64, 32, 32, 64, 48, 2));
    let o = a.opts();
    assert_eq!((o.block_w, o.block_h, o.overlap_x, o.overlap_y, o.vectors, o.lambda), (16, 16, 4, 4, 3, 8000));
    assert_eq!((o.width, o.height, o.pel), (64, 48, 2));
}
