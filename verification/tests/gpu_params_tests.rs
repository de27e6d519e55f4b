use svpflow::gpu_params::{gpu_plane_params, kernel_params, RenderGeometry, UploadPlane};

fn geometry() -> RenderGeometry {
    RenderGeometry { width: 1920, height: 1080, block_w: 16, block_h: 8, origin_x: -4, origin_y: 2, chroma_y_div: 2 }
}

#[test]
fn upload_needs_every_row() {
    let data = vec![0u8; 100];
    assert!(UploadPlane { data: &data, stride: 32, width: 4, height: 4 }.fits());
    assert!(!UploadPlane { data: &data, stride: 32, width: 5, height: 4 }.fits());
    assert!(!UploadPlane { data: &data, stride: 32, width: 5, height: 5 }.fits());
    assert!(UploadPlane { data: &data, stride: 1000, width: 100, height: 1 }.fits());
    assert!(UploadPlane { data: &data, stride: 1000, width: 100, height: 0 }.fits());
    assert!(!UploadPlane { data: &data, stride: usize::MAX, width: 1, height: 3 }.fits());
}

#[test]
fn luma_and_chroma_plane_params() {
    let y = gpu_plane_params(&geometry(), false);
    assert_eq!((y.width, y.height, y.x_div, y.y_div, y.source_step), (1920, 1080, 1, 1, 1));
    assert_eq!((y.block_w, y.block_h, y.origin_x, y.origin_y, y.x_shift, y.y_shift), (16, 8, -4, 2, 4, 3));
    let uv = gpu_plane_params(&geometry(), true);
    assert_eq!((uv.width, uv.height, uv.x_div, uv.y_div), (960, 540, 2, 2));
    assert_eq!((uv.block_w, uv.x_shift), (16, 4));
}

#[test]
fn kernel_arguments() {
    let uv = gpu_plane_params(&geometry(), true);
    let k = kernel_params(&uv, 13, 128, true, true);
    assert_eq!((k.algorithm, k.width, k.height, k.x_ratio, k.y_ratio, k.pel), (13, 960, 540, 2, 2, 1));
    assert_eq!((k.block_w, k.block_h, k.origin_x, k.origin_y, k.phase, k.has_sad, k.linear_luma), (16, 8, -4, 2, 128, 1, 0));
    let y = gpu_plane_params(&geometry(), false);
    let k = kernel_params(&y, 1, 0, false, false);
    assert_eq!((k.has_sad, k.linear_luma), (0, 1));
}

use svpflow::gpu_params::plane_params;

#[test]
fn tile_renderer_plane_params() {
    let w = [(3, 1); 32];
    let y = plane_params(&geometry(), 2, false, false, w, w);
    assert_eq!((y.width, y.height, y.block_w, y.block_h, y.origin_x, y.origin_y), (1920, 1080, 16, 8, -4, 2));
    assert_eq!((y.x_shift, y.y_shift, y.x_div, y.y_div, y.source_step), (4, 3, 1, 1, 2));
    assert_eq!((y.max_x, y.max_y, y.x_weights[5]), (3839, 2159, (3, 1)));
    let uv = plane_params(&geometry(), 1, true, false, w, w);
    assert_eq!((uv.width, uv.height, uv.block_w, uv.block_h, uv.origin_x, uv.origin_y), (960, 540, 8, 4, -2, 1));
    assert_eq!((uv.x_shift, uv.y_shift, uv.x_div, uv.y_div, uv.max_x, uv.max_y), (3, 2, 2, 2, 959, 539));
    let z = plane_params(&geometry(), 1, true, true, w, w);
    assert_eq!((z.origin_x, z.origin_y), (0, 0));
    let mut g = geometry();
    g.width = 0;
    assert_eq!(plane_params(&g, 1, false, false, w, w).max_x, 0);
}
