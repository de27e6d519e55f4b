use svpflow::renderer::{blend_255, blend_256, byte_from_i32, centered, clamp_between, cpu_map, trunc_div_256};

#[test]
fn blends() {
    assert_eq!(blend_255(0, 255, 255), 255);
    assert_eq!(blend_255(200, 100, 0), 200);
    assert_eq!(blend_255(100, 200, 128), 150);
    assert_eq!(blend_256(100, 200, 128), 150);
    assert_eq!(blend_256(100, 200, 0), 100);
    assert_eq!(blend_256(10, 20, 512), 30);
}

#[test]
fn clamps() {
    assert_eq!(clamp_between(5, 10, 20), 10);
    assert_eq!(clamp_between(25, 20, 10), 20);
    assert_eq!(clamp_between(15, 20, 10), 15);
    assert_eq!(byte_from_i32(-4), 0);
    assert_eq!(byte_from_i32(300), 255);
    assert_eq!(byte_from_i32(42), 42);
    assert_eq!(trunc_div_256(-300), -1);
    assert_eq!(trunc_div_256(i32::MAX), i16::MAX);
    assert_eq!(centered(-5), 1019);
    assert_eq!(centered(2000), 1024);
}

#[test]
fn cpu_modes() {
    assert_eq!(cpu_map(1), 0);
    assert_eq!(cpu_map(2), 1);
    assert_eq!(cpu_map(4), 2);
    assert_eq!(cpu_map(7), 3);
}
