use svpflow::portable::SuperBuilder;
use svpflow::super_build::{avg_epu8, build_plane};
use svpflow::super_opts::{auto_levels, reduce_dim, super_plane_height, SuperOpts};

#[test]
fn pyramid_sizes() {
    assert_eq!(reduce_dim(8, 1), 4);
    assert_eq!(reduce_dim(10, 1), 4);
    assert_eq!(reduce_dim(64, 3), 8);
    assert_eq!(reduce_dim(7, 0), 7);
    assert_eq!(auto_levels(8, 8), 2);
    assert_eq!(auto_levels(64, 64), 5);
    assert_eq!(auto_levels(3, 64), 0);
    assert_eq!(super_plane_height(8, 1, 2, true), 12);
    assert_eq!(super_plane_height(8, 2, 2, true), 36);
    assert_eq!(super_plane_height(8, 2, 2, false), 4);
}

#[test]
fn builder_refuses_bad_arguments() {
    assert_eq!(SuperBuilder::new(8, 8, 3).err().unwrap(), "pel must be 1, 2 or 4");
    assert_eq!(SuperBuilder::new(7, 8, 1).err().unwrap(), "dimensions must be positive and even");
    assert_eq!(SuperBuilder::new(8, 0, 2).err().unwrap(), "dimensions must be positive and even");
}

#[test]
fn builder_sizes() {
    let b = SuperBuilder::new(8, 8, 1).unwrap();
    assert_eq!((b.width(), b.height(), b.pel(), b.levels()), (8, 8, 1, 2));
    assert_eq!(b.source_len(), 96);
    assert_eq!(b.output_len(), 144);
    let b = SuperBuilder::new(8, 8, 2).unwrap();
    assert_eq!(b.output_len(), 432);
}

#[test]
fn build_refuses_wrong_length() {
    let b = SuperBuilder::new(8, 8, 1).unwrap();
    assert_eq!(b.build(&[0u8; 95]).err().unwrap(), "invalid source buffer length");
}

#[test]
fn build_of_flat_frame_is_flat() {
    for pel in [1, 2] {
        let b = SuperBuilder::new(8, 8, pel).unwrap();
        let frame = b.build(&vec![100u8; b.source_len()]).unwrap();
        assert_eq!(frame.len(), b.output_len());
        assert!(!frame.is_empty());
        assert_eq!(frame.bytes(), vec![100u8; b.output_len()]);
    }
}

#[test]
fn build_at_quarter_pel_fills_only_the_half_planes() {
    let b = SuperBuilder::new(8, 8, 4).unwrap();
    assert_eq!(b.output_len(), 1584);
    let bytes = b.build(&vec![100u8; b.source_len()]).unwrap().bytes();
    let mut expected = Vec::new();
    expected.extend(vec![100u8; 256]);
    expected.extend(vec![0u8; 768]);
    expected.extend(vec![100u8; 32]);
    for _ in 0..2 {
        expected.extend(vec![100u8; 64]);
        expected.extend(vec![0u8; 192]);
        expected.extend(vec![100u8; 8]);
    }
    assert_eq!(bytes, expected);
}

#[test]
fn build_copies_the_full_level() {
    let b = SuperBuilder::new(8, 8, 1).unwrap();
    let source: Vec<u8> = (0..96u8).collect();
    let bytes = b.build(&source).unwrap().bytes();
    assert_eq!(&bytes[..64], &source[..64]);
    // The chroma planes start after the 12 luma rows, with their own
    // full level first.
    assert_eq!(&bytes[96..112], &source[64..80]);
    assert_eq!(&bytes[120..136], &source[80..96]);
}

#[test]
fn build_plane_reduces_levels() {
    let mut opts = SuperOpts::defaults(8, 8);
    opts.pel = 1;
    let src = vec![40u8; 64];
    let mut dst = vec![0u8; 8 * 12];
    build_plane(&mut dst, 8, &src, 8, 8, 8, 8, 8, false, &opts);
    assert_eq!(dst, vec![40u8; 96]);
    let mut untouched = vec![9u8; 16];
    opts.levels = 0;
    build_plane(&mut untouched, 8, &src, 8, 8, 8, 8, 8, false, &opts);
    assert_eq!(untouched, vec![9u8; 16]);
}

#[test]
fn rounded_average() {
    assert_eq!(avg_epu8(1, 2), 2);
    assert_eq!(avg_epu8(255, 255), 255);
    assert_eq!(avg_epu8(0, 0), 0);
}
