use svpflow::scene::{
    blend_qmap_byte, blend_vector_byte, blended_scene, debug_motion_value, neighbor_keys, qmode_color,
    usize_height, vector_color, vector_offset, Mode, PhaseRule, SceneBlend, SceneConfig,
};

fn config(mode: Mode, scene_mode: i64, blend: bool, force13: bool) -> SceneConfig {
    SceneConfig { mode, scene_mode, blend, force13, adaptive: [0, -1, 2] }
}

#[test]
fn mode_raw_roundtrip() {
    for mode in [Mode::SmoothFps, Mode::Nvof, Mode::Rife] {
        assert_eq!(Mode::from_raw(mode.raw()), mode);
    }
    for raw in 0..3 {
        assert_eq!(Mode::from_raw(raw).raw(), raw);
    }
    assert_eq!(Mode::from_raw(7), Mode::SmoothFps);
    assert_eq!(Mode::from_raw(-1), Mode::SmoothFps);
}

#[test]
fn blended_scene_averages_calm_neighbours() {
    let r = blended_scene(1, [Some(0), Some(1), Some(2), Some(2)]);
    assert_eq!(r, SceneBlend { class: 1, dir0: true, dir1: true });
    let r = blended_scene(0, [Some(0), Some(0), Some(0), None]);
    assert_eq!(r, SceneBlend { class: 0, dir0: true, dir1: true });
    let r = blended_scene(2, [Some(2), Some(2), Some(2), Some(2)]);
    assert_eq!(r, SceneBlend { class: 2, dir0: true, dir1: true });
}

#[test]
fn blended_scene_keeps_class_next_to_a_cut() {
    let r = blended_scene(2, [None, Some(3), Some(0), None]);
    assert_eq!(r, SceneBlend { class: 2, dir0: false, dir1: true });
    let r = blended_scene(1, [Some(0), None, Some(1), Some(0)]);
    assert_eq!(r, SceneBlend { class: 1, dir0: false, dir1: true });
    let r = blended_scene(3, [Some(0), Some(0), Some(0), Some(0)]);
    assert_eq!(r, SceneBlend { class: 1, dir0: false, dir1: false });
}

#[test]
fn effective_scene_on_source_frame_is_still() {
    let cfg = config(Mode::SmoothFps, 0, true, false);
    let still = SceneBlend { class: 0, dir0: false, dir1: false };
    assert_eq!(cfg.effective_scene(2, 0, [None; 4]), still);
    assert_eq!(cfg.effective_scene(2, 256, [None; 4]), still);
    assert_eq!(cfg.effective_scene(2, 100, [None, Some(3), Some(0), None]), SceneBlend { class: 2, dir0: false, dir1: true });
    let plain = config(Mode::SmoothFps, 0, false, false);
    assert_eq!(plain.effective_scene(2, 100, [None; 4]), SceneBlend { class: 2, dir0: false, dir1: false });
}

#[test]
fn effective_algorithm_forces_13() {
    let cfg = config(Mode::SmoothFps, 0, false, true);
    assert_eq!(cfg.effective_algorithm(23, 1), 13);
    assert_eq!(cfg.effective_algorithm(23, 2), 13);
    assert_eq!(cfg.effective_algorithm(23, 0), 23);
    assert_eq!(cfg.effective_algorithm(23, 3), 23);
    assert_eq!(cfg.effective_algorithm(2, 1), 2);
    let rife = config(Mode::Rife, 0, false, true);
    assert_eq!(rife.effective_algorithm(23, 1), 23);
}

#[test]
fn render_algorithm_skips_source_frames() {
    let cfg = config(Mode::SmoothFps, 0, false, false);
    assert_eq!(cfg.render_algorithm(23, 0, 0), None);
    assert_eq!(cfg.render_algorithm(23, 0, 256), None);
    assert_eq!(cfg.render_algorithm(2, 0, 200), Some(1));
    assert_eq!(cfg.render_algorithm(2, 0, 100), Some(2));
    let adaptive = config(Mode::SmoothFps, 3, true, false);
    assert_eq!(adaptive.render_algorithm(23, 0, 0), Some(23));
    let rife = config(Mode::Rife, 0, false, false);
    assert_eq!(rife.render_algorithm(23, 0, 0), Some(23));
}

#[test]
fn render_scene_keeps_raw_cut_in_adaptive_blend() {
    let cfg = config(Mode::Nvof, 3, true, false);
    assert_eq!(cfg.render_scene(4, 100, [None; 4]), (SceneBlend { class: 4, dir0: false, dir1: false }, true));
    assert_eq!(cfg.render_scene(1, 0, [None; 4]), (SceneBlend { class: 0, dir0: false, dir1: false }, false));
}

#[test]
fn adaptive_phase_rules() {
    let cfg = config(Mode::SmoothFps, 3, false, false);
    assert_eq!(cfg.adaptive_phase(1, false, 0, 77), PhaseRule::Snapped(0));
    assert_eq!(cfg.adaptive_phase(1, false, 1, 77), PhaseRule::Fixed(77));
    assert_eq!(cfg.adaptive_phase(1, false, 2, 77), PhaseRule::Snapped(2));
    assert_eq!(cfg.adaptive_phase(1, true, 2, 77), PhaseRule::Fixed(0));
    assert_eq!(cfg.adaptive_phase(0, true, 2, 77), PhaseRule::Fixed(77));
    assert_eq!(cfg.adaptive_phase(1, false, 3, 77), PhaseRule::Fixed(77));
    let other = config(Mode::SmoothFps, 1, false, false);
    assert_eq!(other.adaptive_phase(1, false, 0, 77), PhaseRule::Fixed(77));
}

#[test]
fn scene_mode_applies_to_vector_engines_only() {
    let cfg = config(Mode::SmoothFps, 2, false, false);
    assert_eq!(cfg.request_scene_mode(0), 2);
    assert_eq!(cfg.request_scene_mode(1), 2);
    assert_eq!(cfg.request_scene_mode(2), 0);
    assert_eq!(cfg.scene_adaptive(0), Some(0));
    assert_eq!(cfg.scene_adaptive(1), None);
    assert_eq!(cfg.scene_adaptive(3), None);
    assert_eq!(cfg.scene_adaptive(-1), None);
    assert!(!cfg.round_nearest(5));
    let round = config(Mode::SmoothFps, 1, false, false);
    assert!(round.round_nearest(5));
    assert!(!round.round_nearest(0));
}

#[test]
fn blend_direction_drops_unusable_motion() {
    let cfg = config(Mode::SmoothFps, 0, true, false);
    let mut x0 = vec![1u16, 2];
    let mut y0 = vec![3u16, 4];
    let mut x1 = vec![5u16, 6];
    let mut y1 = vec![7u16, 8];
    let all = cfg.apply_scene_blend_direction(SceneBlend { class: 1, dir0: true, dir1: false }, &mut x0, &mut y0, &mut x1, &mut y1);
    assert!(!all);
    assert_eq!(x0, vec![1, 2]);
    assert_eq!(y0, vec![3, 4]);
    assert_eq!(x1, vec![1024, 1024]);
    assert_eq!(y1, vec![1024, 1024]);
    let all = cfg.apply_scene_blend_direction(SceneBlend { class: 1, dir0: false, dir1: false }, &mut x0, &mut y0, &mut x1, &mut y1);
    assert!(all);
    assert_eq!(x0, vec![1024, 1024]);
    assert!(cfg.scene_blend_invert_threshold(SceneBlend { class: 1, dir0: true, dir1: false }));
    assert!(!cfg.scene_blend_invert_threshold(SceneBlend { class: 1, dir0: true, dir1: true }));
}

#[test]
fn overlay_colours() {
    assert_eq!(qmode_color(0), [0x1D, 0xFF, 0x6B]);
    assert_eq!(qmode_color(2), [0xFF, 0x00, 0x94]);
    assert_eq!(qmode_color(9), [0, 0, 0]);
    assert_eq!(vector_color(0), [254, 127, 127]);
    assert_eq!(vector_color(255), [75, 83, 254]);
    assert_eq!(blend_vector_byte(100, 200), 154);
    assert_eq!(blend_qmap_byte(100, 200), 107);
}

#[test]
fn small_helpers() {
    assert_eq!(debug_motion_value(-2000), 0);
    assert_eq!(debug_motion_value(100), 1124);
    assert_eq!(vector_offset(5, 7, 100, 0, true), 303);
    assert_eq!(vector_offset(5, 7, 100, 1, false), 711);
    assert_eq!(vector_offset(-3, -1, 10, 0, false), 0);
    assert_eq!(neighbor_keys(1), [0, 0, 2, 3]);
    assert_eq!(neighbor_keys(i32::MAX), [i32::MAX as i64 - 2, i32::MAX as i64 - 1, i32::MAX as i64, i32::MAX as i64]);
    assert_eq!(usize_height(-5), 0);
    assert_eq!(usize_height(7), 7);
}
