//! Scene-change decisions of the frame-rate filter: which interpolation
//! mode runs, how a scene class is blended with its neighbours, which
//! algorithm and motion fields a frame is rendered with, and the colours
//! of the debugging overlays.
use vstd::prelude::*;
use crate::arith::tdiv;
use crate::renderer::{NEUTRAL, fill_u16};
use crate::frame_math::Timing;

verus! {

/// The interpolation engine of the filter.
#[derive(Clone, Copy, Debug, PartialEq, Eq, Structural)]
pub enum Mode {
    SmoothFps,
    Nvof,
    Rife,
}

/// The mode with raw number `raw`: 1 and 2 select the optical-flow and
/// RIFE engines, anything else the block-vector engine.
pub open spec fn mode_of(raw: int) -> Mode {
    if raw == 1 {
        Mode::Nvof
    } else if raw == 2 {
        Mode::Rife
    } else {
        Mode::SmoothFps
    }
}

/// The raw number of a mode.
pub open spec fn raw_of(mode: Mode) -> int {
    match mode {
        Mode::SmoothFps => 0,
        Mode::Nvof => 1,
        Mode::Rife => 2,
    }
}

/// Whether the mode interpolates from motion vectors (block vectors or
/// optical flow) rather than from RIFE frames.
pub open spec fn uses_vectors(mode: Mode) -> bool {
    mode is SmoothFps || mode is Nvof
}

impl Mode {
    pub fn from_raw(raw: i32) -> (r: Self)
        ensures
            r == mode_of(raw as int),
    {
        match raw {
            1 => Mode::Nvof,
            2 => Mode::Rife,
            _ => Mode::SmoothFps,
        }
    }

    pub fn raw(self) -> (r: i32)
        ensures
            r == raw_of(self),
    {
        match self {
            Mode::SmoothFps => 0,
            Mode::Nvof => 1,
            Mode::Rife => 2,
        }
    }
}

/// A mode survives the trip through its raw number, and the raw numbers
/// 0, 1 and 2 survive the trip through their modes.
pub proof fn lemma_mode_raw_roundtrip(mode: Mode, raw: int)
    ensures
        mode_of(raw_of(mode)) == mode,
        0 <= raw <= 2 ==> raw_of(mode_of(raw)) == raw,
{
}

/// A scene class together with the directions (towards the previous and
/// the next source frame) whose motion may still be used.
#[derive(Clone, Copy, Debug, PartialEq, Eq, Structural)]
pub struct SceneBlend {
    pub class: i32,
    pub dir0: bool,
    pub dir1: bool,
}

/// Whether a neighbour's class is known and below the scene-change class 3.
pub open spec fn calm(o: Option<i32>) -> bool {
    o matches Some(v) && v < 3
}

/// The sum of the classes that `blended_scene` averages and their count:
/// the frame and its two direct neighbours, then the previous-but-one
/// (and the next-but-one, when known) if they are calm too.
pub open spec fn blend_sum_count(raw: int, n: [Option<i32>; 4]) -> (int, int) {
    let base = raw + n[1]->0 + n[2]->0;
    if calm(n[0]) && (n[3] is None || calm(n[3])) {
        match n[3] {
            Some(x2) => (base + n[0]->0 + x2, 5),
            None => (base + n[0]->0, 4),
        }
    } else {
        (base, 3)
    }
}

/// What `blended_scene` returns: the frame's class with both directions
/// usable where the frame and that neighbour are calm; when both direct
/// neighbours are calm, the rounded average of the calm classes around it.
pub open spec fn blended_spec(raw: int, n: [Option<i32>; 4]) -> SceneBlend {
    let dir0 = raw < 3 && calm(n[1]);
    let dir1 = raw < 3 && calm(n[2]);
    if calm(n[1]) && calm(n[2]) {
        let (sum, count) = blend_sum_count(raw, n);
        SceneBlend { class: tdiv(sum * 2 + count, count * 2) as i32, dir0, dir1 }
    } else {
        SceneBlend { class: raw as i32, dir0, dir1 }
    }
}

/// Whether the sums of `blended_scene` stay within `i32`.
pub open spec fn blended_fits(raw: int, n: [Option<i32>; 4]) -> bool {
    calm(n[1]) && calm(n[2]) ==> {
        let base = raw + n[1]->0 + n[2]->0;
        let (sum, count) = blend_sum_count(raw, n);
        &&& i32::MIN <= raw + n[1]->0 <= i32::MAX
        &&& i32::MIN <= base <= i32::MAX
        &&& i32::MIN <= base + n[0]->0 <= i32::MAX
        &&& i32::MIN <= sum <= i32::MAX
        &&& i32::MIN <= sum * 2 <= i32::MAX
        &&& i32::MIN <= sum * 2 + count <= i32::MAX
    }
}

/// Blends the scene class of a frame with those of its neighbours
/// (previous-but-one, previous, next, next-but-one; `None` when unknown).
pub fn blended_scene(raw: i32, neighbors: [Option<i32>; 4]) -> (r: SceneBlend)
    requires
        blended_fits(raw as int, neighbors),
    ensures
        r == blended_spec(raw as int, neighbors),
{
    let prev2 = neighbors[0];
    let prev1 = neighbors[1];
    let next1 = neighbors[2];
    let next2 = neighbors[3];
    let dir0 = raw < 3 && match prev1 {
        Some(p) => p < 3,
        None => false,
    };
    let dir1 = raw < 3 && match next1 {
        Some(n) => n < 3,
        None => false,
    };
    let (p1, n1) = match (prev1, next1) {
        (Some(p), Some(n)) => (p, n),
        _ => {
            return SceneBlend { class: raw, dir0, dir1 };
        },
    };
    if p1 >= 3 || n1 >= 3 {
        return SceneBlend { class: raw, dir0, dir1 };
    }
    let mut sum = raw + p1 + n1;
    let mut count: i32 = 3;
    match prev2 {
        Some(p2) => {
            let next_ok = match next2 {
                Some(n2) => n2 < 3,
                None => true,
            };
            if p2 < 3 && next_ok {
                sum = sum + p2;
                count = count + 1;
                match next2 {
                    Some(n2) => {
                        sum = sum + n2;
                        count = count + 1;
                    },
                    None => {},
                }
            }
        },
        None => {},
    }
    let class = crate::arith::div_i32(sum * 2 + count, count * 2);
    SceneBlend { class, dir0, dir1 }
}

/// What the scene decisions read of the filter's options.
#[derive(Clone, Copy, Debug)]
pub struct SceneConfig {
    pub mode: Mode,
    /// The requested scene-change handling (0 none, 1 and 2 phase
    /// snapping, 3 adaptive).
    pub scene_mode: i64,
    pub blend: bool,
    pub force13: bool,
    /// Per scene class below 3, the phase snapping of the adaptive mode
    /// (negative for none).
    pub adaptive: [i32; 3],
}

/// The scene mode that applies to the engine with raw number `mode_raw`.
pub open spec fn request_scene_mode_spec(cfg: SceneConfig, mode_raw: int) -> int {
    if mode_raw <= 1 { cfg.scene_mode as int } else { 0 }
}

/// The neutral scene: class 0, no direction usable.
pub open spec fn still_scene(class: int) -> SceneBlend {
    SceneBlend { class: class as i32, dir0: false, dir1: false }
}

/// What `effective_scene` returns.
pub open spec fn effective_scene_spec(cfg: SceneConfig, raw: int, phase: int, n: [Option<i32>; 4]) -> SceneBlend {
    if phase == 0 || phase == 256 {
        still_scene(0)
    } else if cfg.blend {
        blended_spec(raw, n)
    } else {
        still_scene(raw)
    }
}

impl SceneConfig {
    /// The scene mode for the engine with raw number `mode_raw`: the
    /// configured one for the vector engines, 0 for RIFE.
    pub fn request_scene_mode(&self, mode_raw: i32) -> (r: i64)
        ensures
            r == request_scene_mode_spec(*self, mode_raw as int),
    {
        if mode_raw <= 1 {
            self.scene_mode
        } else {
            0
        }
    }

    /// The phase snapping for scene class `class`, if one is set.
    pub fn scene_adaptive(&self, class: i32) -> (r: Option<i32>)
        ensures
            r == (if 0 <= class < 3 && self.adaptive[class as int] >= 0 {
                Some(self.adaptive[class as int])
            } else {
                None
            }),
    {
        if class < 0 || class >= 3 {
            return None;
        }
        let value = self.adaptive[class as usize];
        if value >= 0 {
            Some(value)
        } else {
            None
        }
    }

    /// The algorithm a frame is rendered with: the vector engines force
    /// algorithm 13 on a mild scene change (class 1 or 2) when asked to,
    /// for any requested algorithm from 11 up.
    pub fn effective_algorithm(&self, requested: i32, scene_class: i32) -> (r: i32)
        ensures
            r == (if uses_vectors(self.mode) && 1 <= scene_class < 3 && requested >= 11 && self.force13 {
                13
            } else {
                requested
            }),
    {
        let vectors = match self.mode {
            Mode::SmoothFps => true,
            Mode::Nvof => true,
            Mode::Rife => false,
        };
        if vectors && 1 <= scene_class && scene_class < 3 && requested >= 11 && self.force13 {
            13
        } else {
            requested
        }
    }

    /// The scene of a frame at `phase`: none on a source frame, else the
    /// raw class, blended with its neighbours when blending is on.
    pub fn effective_scene(&self, raw: i32, phase: i32, neighbors: [Option<i32>; 4]) -> (r: SceneBlend)
        requires
            blended_fits(raw as int, neighbors),
        ensures
            r == effective_scene_spec(*self, raw as int, phase as int, neighbors),
    {
        if phase == 0 || phase == 256 {
            SceneBlend { class: 0, dir0: false, dir1: false }
        } else if self.blend {
            blended_scene(raw, neighbors)
        } else {
            SceneBlend { class: raw, dir0: false, dir1: false }
        }
    }

    /// Whether the threshold of the renderer is inverted: blending a mild
    /// scene from the previous frame only.
    pub fn scene_blend_invert_threshold(&self, scene: SceneBlend) -> (r: bool)
        ensures
            r == (uses_vectors(self.mode) && self.blend && scene.class < 3 && scene.dir0 && !scene.dir1),
    {
        let vectors = match self.mode {
            Mode::SmoothFps => true,
            Mode::Nvof => true,
            Mode::Rife => false,
        };
        vectors && self.blend && scene.class < 3 && scene.dir0 && !scene.dir1
    }

    /// Drops the motion of the directions that a blended scene cannot use
    /// (sets their planes to `NEUTRAL`); returns whether all motion was
    /// dropped because neither direction is usable.
    pub fn apply_scene_blend_direction(
        &self,
        scene: SceneBlend,
        x0: &mut Vec<u16>,
        y0: &mut Vec<u16>,
        x1: &mut Vec<u16>,
        y1: &mut Vec<u16>,
    ) -> (r: bool)
        ensures
            ({
                let active = uses_vectors(self.mode) && self.blend;
                let drop0 = active && (!scene.dir0 && !scene.dir1 || scene.class < 3 && !scene.dir0);
                let drop1 = active && (!scene.dir0 && !scene.dir1 || scene.class < 3 && !scene.dir1);
                &&& r == (active && !scene.dir0 && !scene.dir1)
                &&& final(x0)@ == (if drop0 { Seq::new(old(x0)@.len(), |i: int| NEUTRAL) } else { old(x0)@ })
                &&& final(y0)@ == (if drop0 { Seq::new(old(y0)@.len(), |i: int| NEUTRAL) } else { old(y0)@ })
                &&& final(x1)@ == (if drop1 { Seq::new(old(x1)@.len(), |i: int| NEUTRAL) } else { old(x1)@ })
                &&& final(y1)@ == (if drop1 { Seq::new(old(y1)@.len(), |i: int| NEUTRAL) } else { old(y1)@ })
            }),
    {
        let vectors = match self.mode {
            Mode::SmoothFps => true,
            Mode::Nvof => true,
            Mode::Rife => false,
        };
        if !vectors || !self.blend {
            return false;
        }
        if !scene.dir0 && !scene.dir1 {
            fill_u16(x0.as_mut_slice(), NEUTRAL);
            fill_u16(y0.as_mut_slice(), NEUTRAL);
            fill_u16(x1.as_mut_slice(), NEUTRAL);
            fill_u16(y1.as_mut_slice(), NEUTRAL);
            return true;
        }
        if scene.class >= 3 {
            return false;
        }
        if !scene.dir0 {
            fill_u16(x0.as_mut_slice(), NEUTRAL);
            fill_u16(y0.as_mut_slice(), NEUTRAL);
        }
        if !scene.dir1 {
            fill_u16(x1.as_mut_slice(), NEUTRAL);
            fill_u16(y1.as_mut_slice(), NEUTRAL);
        }
        false
    }
}


/// How the blend phase of an output frame is found: a fixed value, or the
/// exact phase snapped with the given snapping mode.
#[derive(Clone, Copy, Debug, PartialEq, Eq, Structural)]
pub enum PhaseRule {
    Fixed(i32),
    Snapped(i64),
}

/// Whether output frames round to the nearest source frame: the vector
/// engines past the first frame, without blending, in scene mode 1 or 3.
pub open spec fn round_nearest_spec(cfg: SceneConfig, frame: int) -> bool {
    let sm = request_scene_mode_spec(cfg, raw_of(cfg.mode));
    uses_vectors(cfg.mode) && frame > 0 && !cfg.blend && sm != 0 && sm != 2
}

/// What `render_scene` returns.
pub open spec fn render_scene_spec(cfg: SceneConfig, raw: int, phase: int, n: [Option<i32>; 4]) -> (SceneBlend, bool) {
    let keep = uses_vectors(cfg.mode) && cfg.blend && request_scene_mode_spec(cfg, raw_of(cfg.mode)) == 3 && raw >= 3;
    if keep {
        (still_scene(raw), true)
    } else {
        (effective_scene_spec(cfg, raw, phase, n), false)
    }
}

impl SceneConfig {
    /// Whether output `frame` rounds to the nearest source frame.
    pub fn round_nearest(&self, frame: i32) -> (r: bool)
        ensures
            r == round_nearest_spec(*self, frame as int),
    {
        let vectors = match self.mode {
            Mode::SmoothFps => true,
            Mode::Nvof => true,
            Mode::Rife => false,
        };
        let sm = self.request_scene_mode(self.mode.raw());
        vectors && frame > 0 && !self.blend && sm != 0 && sm != 2
    }

    /// The source frame of output `frame` under `timing`.
    pub fn source_frame(&self, timing: Timing, frame: i32) -> (r: i32)
        requires
            timing.frame_num == -1 ==> timing.source_dividend(frame as int, round_nearest_spec(*self, frame as int)) != i64::MIN,
        ensures
            r == timing.source_frame_spec(frame as int, round_nearest_spec(*self, frame as int)),
    {
        let round = self.round_nearest(frame);
        timing.source_frame(frame, round)
    }

    /// How the phase of output `frame` is found: 0 without a rate, snapped
    /// in scene modes 1 (mode 0) and 2 (mode 2), else the plain phase.
    pub fn phase_256(&self, timing: Timing, frame: i32, source_frame: i32) -> (r: PhaseRule)
        ensures
            ({
                let sm = request_scene_mode_spec(*self, raw_of(self.mode));
                r == (if timing.frame_num <= 0 {
                    PhaseRule::Fixed(0)
                } else if sm == 1 {
                    PhaseRule::Snapped(0)
                } else if sm == 2 {
                    PhaseRule::Snapped(2)
                } else {
                    PhaseRule::Fixed(timing.phase_256_spec(frame as int, source_frame as int) as i32)
                })
            }),
    {
        if timing.frame_num <= 0 {
            return PhaseRule::Fixed(0);
        }
        let sm = self.request_scene_mode(self.mode.raw());
        if sm == 1 {
            return PhaseRule::Snapped(0);
        }
        if sm == 2 {
            return PhaseRule::Snapped(2);
        }
        PhaseRule::Fixed(timing.phase_256(frame, source_frame))
    }

    /// How the adaptive scene mode changes `phase` for a frame of class
    /// `scene_class`: unchanged outside that mode, for a scene change or
    /// without a rate; 0 when the output rate is below twice the source
    /// rate (`below_double`); else snapped as the class asks, if it does.
    pub fn adaptive_phase(&self, frame_den: i64, below_double: bool, scene_class: i32, phase: i32) -> (r: PhaseRule)
        ensures
            r == (if request_scene_mode_spec(*self, raw_of(self.mode)) != 3 || scene_class >= 3 || frame_den == 0 {
                PhaseRule::Fixed(phase)
            } else if below_double {
                PhaseRule::Fixed(0)
            } else if 0 <= scene_class && self.adaptive[scene_class as int] >= 0 {
                PhaseRule::Snapped(self.adaptive[scene_class as int] as i64)
            } else {
                PhaseRule::Fixed(phase)
            }),
    {
        if self.request_scene_mode(self.mode.raw()) != 3 || scene_class >= 3 {
            return PhaseRule::Fixed(phase);
        }
        if frame_den == 0 {
            return PhaseRule::Fixed(phase);
        }
        if below_double {
            return PhaseRule::Fixed(0);
        }
        match self.scene_adaptive(scene_class) {
            Some(mode) => PhaseRule::Snapped(mode as i64),
            None => PhaseRule::Fixed(phase),
        }
    }

    /// The scene a frame at `phase` is rendered with, and whether its raw
    /// scene change is blended as it is (the adaptive mode's class-3
    /// blend, which keeps the phase).
    pub fn render_scene(&self, raw: i32, phase: i32, neighbors: [Option<i32>; 4]) -> (r: (SceneBlend, bool))
        requires
            blended_fits(raw as int, neighbors),
        ensures
            r == render_scene_spec(*self, raw as int, phase as int, neighbors),
    {
        let vectors = match self.mode {
            Mode::SmoothFps => true,
            Mode::Nvof => true,
            Mode::Rife => false,
        };
        let keep = vectors && self.blend && self.request_scene_mode(self.mode.raw()) == 3 && raw >= 3;
        if keep {
            (SceneBlend { class: raw, dir0: false, dir1: false }, true)
        } else {
            (self.effective_scene(raw, phase, neighbors), false)
        }
    }

    /// The algorithm a frame at `phase` (after any adaptive snapping) is
    /// rendered with, or `None` when a vector engine lands on a source
    /// frame and the frame is copied instead (unless the adaptive mode
    /// blends scenes); algorithm 2 past half-way becomes 1.
    pub fn render_algorithm(&self, requested: i32, scene_class: i32, phase: i32) -> (r: Option<i32>)
        ensures
            ({
                let vectors = uses_vectors(self.mode);
                let sm = request_scene_mode_spec(*self, raw_of(self.mode));
                let algo = if vectors && 1 <= scene_class < 3 && requested >= 11 && self.force13 { 13 } else { requested as int };
                r == (if vectors && (phase == 0 || phase == 256) && !(self.blend && sm == 3) {
                    None
                } else if algo == 2 && phase > 128 {
                    Some(1i32)
                } else {
                    Some(algo as i32)
                })
            }),
    {
        let vectors = match self.mode {
            Mode::SmoothFps => true,
            Mode::Nvof => true,
            Mode::Rife => false,
        };
        if vectors && (phase == 0 || phase == 256) && !(self.blend && self.request_scene_mode(self.mode.raw()) == 3) {
            return None;
        }
        let mut algo = self.effective_algorithm(requested, scene_class);
        if algo == 2 && phase > 128 {
            algo = 1;
        }
        Some(algo)
    }
}

/// The keys of the four neighbouring source frames (two before, clamped
/// at 0, and two after) whose scene classes are blended.
pub fn neighbor_keys(source_frame: i32) -> (r: [i64; 4])
    ensures
        r[0] == crate::arith::clamp(crate::arith::sat_i32(source_frame - 2), 0, i32::MAX as int),
        r[1] == crate::arith::clamp(crate::arith::sat_i32(source_frame - 1), 0, i32::MAX as int),
        r[2] == crate::arith::sat_i32(source_frame + 1),
        r[3] == crate::arith::sat_i32(source_frame + 2),
{
    let a = crate::arith::sat_sub_i32(source_frame, 2);
    let b = crate::arith::sat_sub_i32(source_frame, 1);
    [
        if a < 0 { 0 } else { a as i64 },
        if b < 0 { 0 } else { b as i64 },
        crate::arith::sat_add_i32(source_frame, 1) as i64,
        crate::arith::sat_add_i32(source_frame, 2) as i64,
    ]
}

/// A height as a row count: negative values count as 0.
pub fn usize_height(value: i32) -> (r: usize)
    ensures
        r == (if value < 0 { 0 } else { value as int }),
{
    if value < 0 {
        0
    } else {
        value as usize
    }
}

/// The RGB colour that marks scene class `scene_class` on the debugging
/// overlay (black past class 3).
pub fn qmode_color(scene_class: i32) -> (r: [u8; 3])
    ensures
        r@ == (if scene_class == 0 {
            seq![0x1Du8, 0xFFu8, 0x6Bu8]
        } else if scene_class == 1 {
            seq![0x95u8, 0x2Bu8, 0x15u8]
        } else if scene_class == 2 {
            seq![0xFFu8, 0x00u8, 0x94u8]
        } else if scene_class == 3 {
            seq![0x4Cu8, 0x54u8, 0xFFu8]
        } else {
            seq![0u8, 0u8, 0u8]
        }),
{
    let r: [u8; 3] = match scene_class {
        0 => [0x1D, 0xFF, 0x6B],
        1 => [0x95, 0x2B, 0x15],
        2 => [0xFF, 0x00, 0x94],
        3 => [0x4C, 0x54, 0xFF],
        _ => [0, 0, 0],
    };
    assert(r@ =~= (if scene_class == 0 {
            seq![0x1Du8, 0xFFu8, 0x6Bu8]
        } else if scene_class == 1 {
            seq![0x95u8, 0x2Bu8, 0x15u8]
        } else if scene_class == 2 {
            seq![0xFFu8, 0x00u8, 0x94u8]
        } else if scene_class == 3 {
            seq![0x4Cu8, 0x54u8, 0xFFu8]
        } else {
            seq![0u8, 0u8, 0u8]
        }));
    r
}

/// The colour of a motion vector drawn with opacity `alpha`: from the
/// YUV of grey-blue (transparent) to that of red (opaque), in 1/256 steps.
pub fn vector_color(alpha: u8) -> (r: [u8; 3])
    ensures
        r[0] == ((255 - alpha) * 255 + alpha * 76) / 256,
        r[1] == ((255 - alpha) * 128 + alpha * 84) / 256,
        r[2] == ((255 - alpha) * 128 + alpha * 255) / 256,
{
    let inv = alpha ^ 0xFF;
    assert(inv == 255 - alpha) by (bit_vector)
        requires
            inv == alpha ^ 0xFFu8,
    ;
    let a = (inv as u16) * 255 + (alpha as u16) * 76;
    let b = (inv as u16) * 128 + (alpha as u16) * 84;
    let c = (inv as u16) * 128 + (alpha as u16) * 255;
    assert(a >> 8u16 == a / 256) by (bit_vector);
    assert(b >> 8u16 == b / 256) by (bit_vector);
    assert(c >> 8u16 == c / 256) by (bit_vector);
    [(a >> 8) as u8, (b >> 8) as u8, (c >> 8) as u8]
}

/// A vector-overlay sample over `dst`: 140/256 of `value` and 115/256 of
/// `dst`.
pub fn blend_vector_byte(dst: u8, value: u8) -> (r: u8)
    ensures
        r == (value * 140 + dst * 115) / 256,
{
    let s = (value as u16) * 140 + (dst as u16) * 115;
    assert(s >> 8u16 == s / 256) by (bit_vector);
    (s >> 8) as u8
}

/// A scene-map overlay sample over `dst`: 20/256 of `value` and 235/256
/// of `dst`.
pub fn blend_qmap_byte(dst: u8, value: u8) -> (r: u8)
    ensures
        r == (value * 20 + dst * 235) / 256,
{
    let s = (value as u16) * 20 + (dst as u16) * 235;
    assert(s >> 8u16 == s / 256) by (bit_vector);
    (s >> 8) as u8
}

/// A decoded vector component as a debugging motion-plane sample:
/// offset by `NEUTRAL`, clamped to `u16`.
pub fn debug_motion_value(value: i16) -> (r: u16)
    ensures
        r == crate::arith::clamp(NEUTRAL + value, 0, u16::MAX as int),
{
    let v = NEUTRAL as i32 + value as i32;
    if v < 0 {
        0
    } else if v > 65535 {
        65535
    } else {
        v as u16
    }
}

/// The debugging motion planes of decoded vectors: each component as
/// `debug_motion_value` gives it.
pub fn debug_motion_planes(vectors: &[crate::metadata::DecodedVector]) -> (r: (Vec<u16>, Vec<u16>))
    ensures
        r.0@.len() == vectors@.len(),
        r.1@.len() == vectors@.len(),
        forall|i: int| 0 <= i < vectors@.len() ==> #[trigger] r.0@[i] == crate::arith::clamp(NEUTRAL + vectors@[i].dx, 0, u16::MAX as int)
            && r.1@[i] == crate::arith::clamp(NEUTRAL + vectors@[i].dy, 0, u16::MAX as int),
{
    let mut x: Vec<u16> = Vec::new();
    let mut y: Vec<u16> = Vec::new();
    let n = vectors.len();
    let mut i: usize = 0;
    while i < n
        invariant
            n == vectors@.len(),
            0 <= i <= n,
            x@.len() == i,
            y@.len() == i,
            forall|k: int| 0 <= k < i ==> #[trigger] x@[k] == crate::arith::clamp(NEUTRAL + vectors@[k].dx, 0, u16::MAX as int)
                && y@[k] == crate::arith::clamp(NEUTRAL + vectors@[k].dy, 0, u16::MAX as int),
        decreases n - i,
    {
        x.push(debug_motion_value(vectors[i].dx));
        y.push(debug_motion_value(vectors[i].dy));
        i = i + 1;
    }
    (x, y)
}

/// Byte offset of overlay pixel (`x`, `y`) in a plane of `stride` bytes:
/// chroma planes at half resolution, 16-bit samples (`depth` not 0) two
/// bytes wide, plus one; saturating, negatives counted as 0.
pub fn vector_offset(x: i32, y: i32, stride: usize, depth: i32, chroma: bool) -> (r: usize)
    ensures
        ({
            let row: int = if chroma { (y as int) / 2 } else { y as int };
            let col: int = if chroma {
                if depth == 0 { (x as int) / 2 } else { x as int }
            } else if depth == 0 {
                x as int
            } else {
                crate::analyse_search::wrap_i32(x + x)
            };
            let c1 = crate::arith::sat_i32(col + 1);
            r == crate::arith::sat_usize(
                crate::arith::sat_usize((if row < 0 { 0 } else { row }) * stride) + (if c1 < 0 { 0 } else { c1 }),
            )
        }),
{
    let row = if chroma {
        y >> 1
    } else {
        y
    };
    proof {
        assert(y >> 1 == (y as int) / 2) by (bit_vector);
        assert(x >> 1 == (x as int) / 2) by (bit_vector);
    }
    let col = if chroma {
        if depth == 0 {
            x >> 1
        } else {
            x
        }
    } else if depth == 0 {
        x
    } else {
        x.wrapping_add(x)
    };
    let row_u: usize = if row < 0 {
        0
    } else {
        row as usize
    };
    let c1 = crate::arith::sat_add_i32(col, 1);
    let col_u: usize = if c1 < 0 {
        0
    } else {
        c1 as usize
    };
    crate::arith::sat_add_usize(crate::arith::sat_mul_usize(row_u, stride), col_u)
}

/// The rounded mean of `count` classes summing to `sum`: the class `c`
/// with `c - 1/2 <= sum / count < c + 1/2`.
pub open spec fn is_rounded_mean(c: int, sum: int, count: int) -> bool {
    c * 2 * count <= 2 * sum + count < (c + 1) * 2 * count
}

/// How `blended_scene` blends, for non-negative classes: each direction
/// stays usable when the frame and that direct neighbour are calm; a frame
/// without two calm direct neighbours keeps its class; one with them gets
/// the rounded mean of its class and theirs, with the previous-but-one
/// added when it is calm and the next-but-one is unknown or calm too, and
/// then the next-but-one when it is known.
pub proof fn lemma_blended_scene_mean(raw: i32, n: [Option<i32>; 4])
    requires
        0 <= raw,
        forall|i: int| 0 <= i < 4 ==> (#[trigger] n[i] matches Some(v) ==> v >= 0),
    ensures
        ({
            let r = blended_spec(raw as int, n);
            &&& r.dir0 == (raw < 3 && calm(n[1]))
            &&& r.dir1 == (raw < 3 && calm(n[2]))
            &&& !(calm(n[1]) && calm(n[2])) ==> r.class == raw
            &&& calm(n[1]) && calm(n[2]) && !(calm(n[0]) && (n[3] is None || calm(n[3]))) ==>
                is_rounded_mean(r.class as int, raw + n[1]->0 + n[2]->0, 3)
            &&& calm(n[1]) && calm(n[2]) && calm(n[0]) && n[3] is None ==>
                is_rounded_mean(r.class as int, raw + n[0]->0 + n[1]->0 + n[2]->0, 4)
            &&& calm(n[1]) && calm(n[2]) && calm(n[0]) && calm(n[3]) ==>
                is_rounded_mean(r.class as int, raw + n[0]->0 + n[1]->0 + n[2]->0 + n[3]->0, 5)
        }),
{
    assert(n[0] matches Some(v) ==> v >= 0);
    assert(n[1] matches Some(v) ==> v >= 0);
    assert(n[2] matches Some(v) ==> v >= 0);
    assert(n[3] matches Some(v) ==> v >= 0);
    if calm(n[1]) && calm(n[2]) {
        let (sum, count) = blend_sum_count(raw as int, n);
        assert(3 <= count <= 5 && sum >= 0 && sum <= raw + 12);
        let q = (sum * 2 + count) / (count * 2);
        vstd::arithmetic::div_mod::lemma_fundamental_div_mod(sum * 2 + count, count * 2);
        vstd::arithmetic::div_mod::lemma_div_pos_is_pos(sum * 2 + count, count * 2);
        assert(tdiv(sum * 2 + count, count * 2) == q);
        assert(6 * q <= sum * 2 + count) by (nonlinear_arith)
            requires
                sum * 2 + count == count * 2 * q + (sum * 2 + count) % (count * 2),
                0 <= (sum * 2 + count) % (count * 2),
                3 <= count,
                sum >= 0,
                q >= 0,
        ;
        assert(q <= i32::MAX);
        assert(is_rounded_mean(q, sum, count)) by (nonlinear_arith)
            requires
                sum * 2 + count == count * 2 * q + (sum * 2 + count) % (count * 2),
                0 <= (sum * 2 + count) % (count * 2) < count * 2,
        ;
    }
}

} // verus!
