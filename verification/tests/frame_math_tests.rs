use svpflow::frame_math::{gcd, normalize, Timing};

#[test]
fn timing_doubles_rate() {
    let t = Timing::new(24000, 1001, false, 2, 1);
    assert_eq!((t.fps_num, t.fps_den), (48000, 1001));
    assert_eq!((t.frame_num, t.frame_den), (2, 1));
    assert_eq!(t.source_frame(5, false), 2);
    assert_eq!(t.source_frame(5, true), 3);
    assert_eq!(t.phase_256(5, 2), 128);
    assert_eq!(t.output_phase_256(5), 128);
    assert_eq!(t.scale_frame_count(10), 19);
}

#[test]
fn timing_absolute_rate() {
    let t = Timing::new(25, 1, true, 60, 1);
    assert_eq!((t.fps_num, t.fps_den), (60, 1));
    assert_eq!((t.frame_num, t.frame_den), (12, 5));
    assert_eq!(t.source_frame(12, false), 5);
    assert_eq!(t.phase_256(13, 5), 107);
}

#[test]
fn timing_zero_rate_counts_as_one() {
    let t = Timing::new(30, 1, false, 0, 0);
    assert_eq!((t.fps_num, t.fps_den), (30, 1));
    assert_eq!((t.frame_num, t.frame_den), (1, 1));
}

#[test]
fn normalize_reduces() {
    assert_eq!(normalize(48000, 2002), (24000, 1001));
    assert_eq!(normalize(-6, 4), (-3, 2));
    assert_eq!(normalize(0, 5), (0, 1));
    assert_eq!(normalize(7, 0), (0, 1));
    assert_eq!(gcd(12, 18), 6);
    assert_eq!(gcd(0, 9), 9);
}

#[test]
fn phase_before_source_is_zero() {
    let t = Timing::new(24, 1, false, 2, 1);
    assert_eq!(t.phase_256(4, 2), 0);
    assert_eq!(t.phase_256(3, 2), 0);
}
