//! Pieces of the block-matching motion search: the vector record, level
//! geometry of a super clip, motion-vector bounds and penalties, the 4x4
//! Hadamard cost, and writing vectors into a payload.
use vstd::prelude::*;
use crate::arith::{abs, clamp, tdiv};
use crate::bytes::{put_u32, put_i32, write_u32_slice, write_i32_slice};
use crate::metadata::{DecodedVector, packed_motion, packed_score, encode_entries, entry_offset};
use crate::super_opts::{reduce_dim, reduce_dim_spec};
use crate::analyse_opts::in_i32;

verus! {

/// One block's search result: vector, cost and mean luma.
#[derive(Clone, Copy, Debug, Default)]
pub struct Vec8 {
    pub dx: i16,
    pub dy: i16,
    pub score: u32,
    pub luma: u8,
}

/// The planes of a super clip frame and its pyramid layout.
pub struct SuperPlanes<'a> {
    pub y: &'a [u8],
    pub y_stride: usize,
    pub u: &'a [u8],
    pub u_stride: usize,
    pub v: &'a [u8],
    pub v_stride: usize,
    pub luma_w: usize,
    pub luma_h: usize,
    pub pel: i32,
    pub levels: i32,
    pub full: bool,
}

/// First row of level `level` of a luma pyramid: the heights of the levels
/// above it, the full level counted `pel * pel` times when kept.
pub open spec fn level_offset_spec(luma_h: int, pel: int, full: bool, level: int) -> int
    decreases level,
{
    if level <= 0 {
        0
    } else {
        let lv = level - 1;
        let h = reduce_dim_spec(luma_h, lv);
        let sub = if lv == 0 && full { pel * pel } else { 1 };
        level_offset_spec(luma_h, pel, full, lv) + h * sub
    }
}

/// First row of level `level` of a chroma pyramid, each level at least one
/// row high.
pub open spec fn chroma_offset_spec(luma_h: int, pel: int, full: bool, level: int) -> int
    decreases level,
{
    if level <= 0 {
        0
    } else {
        let lv = level - 1;
        let h = reduce_dim_spec(luma_h, lv) / 2;
        let sub = if lv == 0 && full { pel * pel } else { 1 };
        chroma_offset_spec(luma_h, pel, full, lv) + (if h < 1 { 1 } else { h }) * sub
    }
}

impl<'a> SuperPlanes<'a> {
    /// Whether the pyramid geometry is in range for the level arithmetic.
    pub open spec fn geometry_ok(&self, level: int) -> bool {
        &&& self.luma_h <= i32::MAX
        &&& self.luma_w <= i32::MAX
        &&& self.pel >= 0
        &&& (self.pel as int) * (self.pel as int) <= usize::MAX
        &&& forall|l: int| 0 <= l <= level ==> #[trigger] level_offset_spec(self.luma_h as int, self.pel as int, self.full, l) <= usize::MAX
        &&& forall|l: int| 0 <= l <= level ==> #[trigger] chroma_offset_spec(self.luma_h as int, self.pel as int, self.full, l) <= usize::MAX
    }

    /// First luma row of pyramid level `level`.
    pub fn level_y_offset(&self, level: i32) -> (r: usize)
        requires
            self.geometry_ok(level as int),
        ensures
            r == level_offset_spec(self.luma_h as int, self.pel as int, self.full, level as int),
    {
        let mut y: usize = 0;
        let pel = self.pel as usize;
        let mut lv: i32 = 0;
        while lv < level
            invariant
                0 <= lv,
                level >= 0 ==> lv <= level,
                level < 0 ==> lv == 0,
                self.geometry_ok(level as int),
                pel == self.pel,
                y == level_offset_spec(self.luma_h as int, self.pel as int, self.full, lv as int),
            decreases level - lv,
        {
            proof {
                crate::super_opts::lemma_reduce_nonneg(self.luma_h as int, lv as int);
                lemma_offsets_grow(self.luma_h as int, self.pel as int, self.full, lv as int);
                assert(level_offset_spec(self.luma_h as int, self.pel as int, self.full, lv + 1) <= usize::MAX);
            }
            let h = reduce_dim(self.luma_h as i32, lv) as usize;
            let sub = if lv == 0 && self.full {
                pel * pel
            } else {
                1
            };
            y = y + h * sub;
            lv = lv + 1;
        }
        y
    }

    /// First chroma row of pyramid level `level`.
    pub fn chroma_level_offset(&self, level: i32) -> (r: usize)
        requires
            self.geometry_ok(level as int),
        ensures
            r == chroma_offset_spec(self.luma_h as int, self.pel as int, self.full, level as int),
    {
        let mut y: usize = 0;
        let pel = self.pel as usize;
        let mut lv: i32 = 0;
        while lv < level
            invariant
                0 <= lv,
                level >= 0 ==> lv <= level,
                level < 0 ==> lv == 0,
                self.geometry_ok(level as int),
                pel == self.pel,
                y == chroma_offset_spec(self.luma_h as int, self.pel as int, self.full, lv as int),
            decreases level - lv,
        {
            proof {
                crate::super_opts::lemma_reduce_nonneg(self.luma_h as int, lv as int);
                lemma_chroma_offsets_grow(self.luma_h as int, self.pel as int, self.full, lv as int);
                assert(chroma_offset_spec(self.luma_h as int, self.pel as int, self.full, lv + 1) <= usize::MAX);
            }
            let h = reduce_dim(self.luma_h as i32, lv) as usize / 2;
            let sub = if lv == 0 && self.full {
                pel * pel
            } else {
                1
            };
            let hh = if h < 1 {
                1
            } else {
                h
            };
            y = y + hh * sub;
            lv = lv + 1;
        }
        y
    }

    /// Width and height of pyramid level `level`.
    pub fn level_size(&self, level: i32) -> (r: (usize, usize))
        requires
            self.luma_h <= i32::MAX,
            self.luma_w <= i32::MAX,
        ensures
            r.0 == reduce_dim_spec(self.luma_w as int, level as int),
            r.1 == reduce_dim_spec(self.luma_h as int, level as int),
    {
        proof {
            crate::super_opts::lemma_reduce_nonneg(self.luma_w as int, level as int);
            crate::super_opts::lemma_reduce_nonneg(self.luma_h as int, level as int);
        }
        (reduce_dim(self.luma_w as i32, level) as usize, reduce_dim(self.luma_h as i32, level) as usize)
    }
}

/// The offset of the next level is that of this level plus a non-negative
/// height.
proof fn lemma_offsets_grow(luma_h: int, pel: int, full: bool, lv: int)
    requires
        luma_h >= 0,
        pel >= 0,
        lv >= 0,
    ensures
        level_offset_spec(luma_h, pel, full, lv + 1) >= level_offset_spec(luma_h, pel, full, lv),
        reduce_dim_spec(luma_h, lv) * (if lv == 0 && full { pel * pel } else { 1 }) >= 0,
{
    crate::super_opts::lemma_reduce_nonneg(luma_h, lv);
    let h = reduce_dim_spec(luma_h, lv);
    assert(h * (pel * pel) >= 0) by (nonlinear_arith)
        requires
            h >= 0,
    ;
}

proof fn lemma_chroma_offsets_grow(luma_h: int, pel: int, full: bool, lv: int)
    requires
        luma_h >= 0,
        pel >= 0,
        lv >= 0,
    ensures
        chroma_offset_spec(luma_h, pel, full, lv + 1) >= chroma_offset_spec(luma_h, pel, full, lv),
{
    crate::super_opts::lemma_reduce_nonneg(luma_h, lv);
    let h = reduce_dim_spec(luma_h, lv) / 2;
    let hh = if h < 1 { 1 } else { h };
    assert(hh * (pel * pel) >= 0) by (nonlinear_arith)
        requires
            hh >= 1,
    ;
}

/// A vector that has not been searched: zero motion, worst score.
pub fn unsearched_vector() -> (r: Vec8)
    ensures
        r.dx == 0 && r.dy == 0 && r.luma == 0,
        r.score == u32::MAX,
{
    Vec8 { dx: 0, dy: 0, score: u32::MAX, luma: 0 }
}

/// `lambda` times the squared distance from the predictor, over 256
/// (rounded down).
pub open spec fn motion_penalty_spec(lambda: int, predictor: (i32, i32), mv: (i32, i32)) -> int {
    let dx = predictor.0 - mv.0;
    let dy = predictor.1 - mv.1;
    (lambda * (dx * dx + dy * dy)) / 256
}

pub open spec fn motion_penalty_fits(lambda: int, predictor: (i32, i32), mv: (i32, i32)) -> bool {
    let dx = predictor.0 - mv.0;
    let dy = predictor.1 - mv.1;
    &&& in_i32(dx)
    &&& in_i32(dy)
    &&& dx * dx + dy * dy <= i64::MAX
    &&& i64::MIN <= lambda * (dx * dx + dy * dy) <= i64::MAX
}

pub fn exact_motion_penalty(lambda: i32, predictor: (i32, i32), mv: (i32, i32)) -> (r: i64)
    requires
        motion_penalty_fits(lambda as int, predictor, mv),
    ensures
        r == motion_penalty_spec(lambda as int, predictor, mv),
{
    let dx = (predictor.0 - mv.0) as i64;
    let dy = (predictor.1 - mv.1) as i64;
    assert(0 <= dx * dx && 0 <= dy * dy) by (nonlinear_arith);
    assert(dx * dx <= dx * dx + dy * dy);
    let v = (lambda as i64) * (dx * dx + dy * dy);
    assert(v >= 0 ==> (v >> 8u64) == v / 256) by (bit_vector);
    assert(v < 0 ==> (v >> 8u64) == -(((-1 - v) / 256)) - 1) by (bit_vector);
    v >> 8u64
}

/// The vector clamped into `[min_x, max(max_x - 1, min_x)]` by
/// `[min_y, max(max_y - 1, min_y)]`.
pub open spec fn exact_clip_spec(mv: (i32, i32), bounds: (i32, i32, i32, i32)) -> (int, int) {
    let max_x = if bounds.2 - 1 < bounds.0 { bounds.0 as int } else { bounds.2 - 1 };
    let max_y = if bounds.3 - 1 < bounds.1 { bounds.1 as int } else { bounds.3 - 1 };
    (clamp(mv.0 as int, bounds.0 as int, max_x), clamp(mv.1 as int, bounds.1 as int, max_y))
}

pub fn exact_clip(mv: (i32, i32), bounds: (i32, i32, i32, i32)) -> (r: (i32, i32))
    requires
        bounds.2 > i32::MIN,
        bounds.3 > i32::MIN,
    ensures
        (r.0 as int, r.1 as int) == exact_clip_spec(mv, bounds),
{
    let max_x = if bounds.2 - 1 < bounds.0 {
        bounds.0
    } else {
        bounds.2 - 1
    };
    let max_y = if bounds.3 - 1 < bounds.1 {
        bounds.1
    } else {
        bounds.3 - 1
    };
    let x = if mv.0 < bounds.0 {
        bounds.0
    } else if mv.0 > max_x {
        max_x
    } else {
        mv.0
    };
    let y = if mv.1 < bounds.1 {
        bounds.1
    } else if mv.1 > max_y {
        max_y
    } else {
        mv.1
    };
    (x, y)
}

/// Whether the vector lies inside the half-open bounds.
pub fn exact_ok(mv: (i32, i32), bounds: (i32, i32, i32, i32)) -> (r: bool)
    ensures
        r == (mv.0 >= bounds.0 && mv.1 >= bounds.1 && mv.0 < bounds.2 && mv.1 < bounds.3),
{
    mv.0 >= bounds.0 && mv.1 >= bounds.1 && mv.0 < bounds.2 && mv.1 < bounds.3
}

/// A sum of two `i32` values wrapped into the `i32` range.
pub open spec fn wrap_i32(v: int) -> int {
    if v > i32::MAX { v - 0x1_0000_0000 } else if v < i32::MIN { v + 0x1_0000_0000 } else { v }
}

/// The global vectors of the two directions with their common part (the
/// halved wrapping sum, rounded toward zero) taken out of each.
pub open spec fn reconcile_spec(fwd: (i32, i32), bwd: (i32, i32)) -> ((int, int), (int, int)) {
    let ax = tdiv(wrap_i32(fwd.0 + bwd.0), 2);
    let ay = tdiv(wrap_i32(fwd.1 + bwd.1), 2);
    ((fwd.0 - ax, fwd.1 - ay), (bwd.0 - ax, bwd.1 - ay))
}

pub fn reconcile_bidir_gmv(fwd: (i32, i32), bwd: (i32, i32)) -> (r: ((i32, i32), (i32, i32)))
    requires
        ({
            let s = reconcile_spec(fwd, bwd);
            in_i32(s.0.0) && in_i32(s.0.1) && in_i32(s.1.0) && in_i32(s.1.1)
        }),
    ensures
        ((r.0.0 as int, r.0.1 as int), (r.1.0 as int, r.1.1 as int)) == reconcile_spec(fwd, bwd),
{
    let sx = fwd.0.wrapping_add(bwd.0);
    let sy = fwd.1.wrapping_add(bwd.1);
    assert(sx as int == wrap_i32(fwd.0 + bwd.0));
    assert(sy as int == wrap_i32(fwd.1 + bwd.1));
    let ax = crate::arith::div_i32(sx, 2);
    let ay = crate::arith::div_i32(sy, 2);
    ((fwd.0 - ax, fwd.1 - ay), (bwd.0 - ax, bwd.1 - ay))
}

/// Range of vectors (in sub-pixel units) that keep a block at `(px, py)`
/// inside a `lw` x `lh` level: `(min_x, min_y, max_x, max_y)`.
pub open spec fn mv_bounds_spec(px: int, py: int, bw: int, bh: int, lw: int, lh: int, pel: int) -> (int, int, int, int) {
    let p = if pel < 1 { 1 } else { pel };
    let rx = lw - px - bw;
    let ry = lh - py - bh;
    (-p * px, -p * py, p * (if rx < 0 { 0 } else { rx }), p * (if ry < 0 { 0 } else { ry }))
}

pub open spec fn mv_bounds_fits(px: int, py: int, bw: int, bh: int, lw: int, lh: int, pel: int) -> bool {
    let p = if pel < 1 { 1 } else { pel };
    let rx = lw - px - bw;
    let ry = lh - py - bh;
    &&& in_i32(-p) && in_i32(-p * px) && in_i32(-p * py)
    &&& in_i32(lw - px) && in_i32(rx) && in_i32(lh - py) && in_i32(ry)
    &&& in_i32(p * (if rx < 0 { 0 } else { rx }))
    &&& in_i32(p * (if ry < 0 { 0 } else { ry }))
}

pub fn mv_bounds(px: i32, py: i32, bw: i32, bh: i32, lw: i32, lh: i32, pel: i32) -> (r: (i32, i32, i32, i32))
    requires
        mv_bounds_fits(px as int, py as int, bw as int, bh as int, lw as int, lh as int, pel as int),
    ensures
        (r.0 as int, r.1 as int, r.2 as int, r.3 as int) == mv_bounds_spec(px as int, py as int, bw as int, bh as int, lw as int, lh as int, pel as int),
{
    let pel = if pel < 1 {
        1
    } else {
        pel
    };
    let rx = lw - px - bw;
    let ry = lh - py - bh;
    (-pel * px, -pel * py, pel * (if rx < 0 {
        0
    } else {
        rx
    }), pel * (if ry < 0 {
        0
    } else {
        ry
    }))
}

/// Chroma block origin after the luma block was moved from `(px, py)` to
/// `(cx, cy)`: the halved origin less the halved shift (both rounded
/// down).
pub open spec fn chroma_origin_spec(p: int, c: int) -> int {
    p / 2 - (p - c) / 2
}

pub fn chroma_origins_after_luma_shift(px: i32, py: i32, cx: i32, cy: i32) -> (r: (i32, i32))
    requires
        in_i32(px - cx),
        in_i32(py - cy),
    ensures
        r.0 == chroma_origin_spec(px as int, cx as int),
        r.1 == chroma_origin_spec(py as int, cy as int),
{
    proof {
        lemma_shr1_floor(px);
        lemma_shr1_floor(py);
        lemma_shr1_floor((px - cx) as i32);
        lemma_shr1_floor((py - cy) as i32);
    }
    ((px >> 1u32) - ((px - cx) >> 1u32), (py >> 1u32) - ((py - cy) >> 1u32))
}

/// An arithmetic right shift by one is floor division by 2.
pub proof fn lemma_shr1_floor(x: i32)
    ensures
        (x >> 1u32) as int == (x as int) / 2,
{
    assert(x >= 0 ==> (x >> 1u32) == x / 2) by (bit_vector);
    assert(x < 0 ==> (x >> 1u32) == -(((-1 - x) / 2)) - 1) by (bit_vector);
}

/// Writes `v` at `off` when four bytes fit there.
pub fn write_u32(buf: &mut [u8], off: usize, v: u32)
    requires
        off <= usize::MAX - 4,
    ensures
        final(buf)@ == put_u32(old(buf)@, off as int, v),
{
    write_u32_slice(buf, off, v);
}

/// Writes `v` at `off` when four bytes fit there.
pub fn write_i32(buf: &mut [u8], off: usize, v: i32)
    requires
        off <= usize::MAX - 4,
    ensures
        final(buf)@ == put_i32(old(buf)@, off as int, v),
{
    write_i32_slice(buf, off, v);
}

/// The payload form of a search result.
pub open spec fn as_decoded(v: Vec8) -> DecodedVector {
    DecodedVector { dx: v.dx, dy: v.dy, score: v.score, luma: v.luma }
}

/// The first `count` search results (zero vectors past the end of `vecs`)
/// as payload vectors.
pub open spec fn padded_vecs(vecs: Seq<Vec8>, count: int) -> Seq<DecodedVector> {
    Seq::new(count as nat, |i: int| if i < vecs.len() { as_decoded(vecs[i]) } else {
        DecodedVector { dx: 0, dy: 0, score: 0, luma: 0 }
    })
}

/// Writes `count` vectors from `cursor` on, eight bytes each, the same
/// words that `encode_region` writes; returns the cursor past them.
pub fn write_vecs(out: &mut [u8], cursor: usize, vecs: &[Vec8], count: usize) -> (r: usize)
    requires
        cursor + 8 * count <= usize::MAX,
        cursor >= 4,
    ensures
        r == cursor + 8 * count,
        final(out)@ == encode_entries(old(out)@, cursor - 4, padded_vecs(vecs@, count as int), count as nat),
{
    let mut c = cursor;
    let mut i: usize = 0;
    let ghost vs = padded_vecs(vecs@, count as int);
    while i < count
        invariant
            0 <= i <= count,
            cursor + 8 * count <= usize::MAX,
            cursor >= 4,
            c == cursor + 8 * i,
            vs == padded_vecs(vecs@, count as int),
            out@ == encode_entries(old(out)@, cursor - 4, vs, i as nat),
        decreases count - i,
    {
        let v = if i < vecs.len() {
            vecs[i]
        } else {
            Vec8 { dx: 0, dy: 0, score: 0, luma: 0 }
        };
        let d0 = ((v.dx as u32) << 16u32) | ((v.dy as u16) as u32);
        let d1 = (v.score & 0x00ff_ffffu32) | ((v.luma as u32) << 24u32);
        let dx = v.dx;
        let dy = v.dy;
        let luma = v.luma;
        let score = v.score;
        assert(((dx as u32) << 16u32) | ((dy as u16) as u32) == ((dy as u16) as u32) | (((dx as u16) as u32) << 16u32)) by (bit_vector);
        assert((score & 0x00ff_ffffu32) | ((luma as u32) << 24u32) == ((luma as u32) << 24u32) | (score & 0x00ff_ffffu32)) by (bit_vector);
        assert(d0 == packed_motion(vs[i as int]));
        assert(d1 == packed_score(vs[i as int]));
        assert(entry_offset(cursor - 4, i as int) == c);
        write_u32(out, c, d0);
        write_u32(out, c + 4, d1);
        c = c + 8;
        i = i + 1;
    }
    c
}


/// Level offsets grow by at most `16` full heights for the first level and
/// one height for each further level.
pub proof fn lemma_offsets_small(luma_h: int, pel: int, full: bool, level: int)
    requires
        0 <= luma_h,
        0 <= pel <= 4,
        0 <= level,
    ensures
        0 <= level_offset_spec(luma_h, pel, full, level) <= (16 + level) * luma_h,
        0 <= chroma_offset_spec(luma_h, pel, full, level) <= (16 + level) * (luma_h + 1),
    decreases level,
{
    if level > 0 {
        let lv = level - 1;
        lemma_offsets_small(luma_h, pel, full, lv);
        crate::super_build::lemma_reduce_bounds(luma_h, lv);
        let h = reduce_dim_spec(luma_h, lv);
        let sub = if lv == 0 && full { pel * pel } else { 1 };
        assert(0 <= pel * pel <= 16) by (nonlinear_arith)
            requires
                0 <= pel <= 4,
        ;
        assert(0 <= h * sub <= 16 * luma_h) by (nonlinear_arith)
            requires
                0 <= h <= luma_h,
                0 <= sub <= 16,
        ;
        let hc = if h / 2 < 1 { 1 } else { h / 2 };
        assert(0 <= hc * sub <= 16 * (luma_h + 1)) by (nonlinear_arith)
            requires
                1 <= hc <= luma_h + 1,
                0 <= sub <= 16,
        ;
        if lv > 0 {
            assert(sub == 1);
        }
        assert((16 + level) * luma_h == (16 + lv) * luma_h + luma_h) by (nonlinear_arith)
            requires
                lv == level - 1,
        ;
        assert((16 + level) * (luma_h + 1) == (16 + lv) * (luma_h + 1) + (luma_h + 1)) by (nonlinear_arith)
            requires
                lv == level - 1,
        ;
        assert(16 * luma_h <= (16 + level) * luma_h) by (nonlinear_arith)
            requires
                luma_h >= 0,
                level >= 1,
        ;
        assert(16 * (luma_h + 1) <= (16 + level) * (luma_h + 1)) by (nonlinear_arith)
            requires
                luma_h >= 0,
                level >= 1,
        ;
    }
}

impl<'a> SuperPlanes<'a> {
    /// Whether the planes are small enough for the matching arithmetic:
    /// at most 65536 samples a side and a pel of at most 4.
    pub open spec fn small(&self) -> bool {
        &&& self.luma_w <= 0x10000
        &&& self.luma_h <= 0x10000
        &&& 0 <= self.pel <= 4
    }

    /// Small planes have a level geometry in range up to level 16, and
    /// their level offsets stay below `2^21`.
    pub proof fn lemma_small_geometry(&self, level: int)
        requires
            self.small(),
            0 <= level <= 16,
        ensures
            self.geometry_ok(level),
            0 <= level_offset_spec(self.luma_h as int, self.pel as int, self.full, level) <= 0x200000,
            0 <= chroma_offset_spec(self.luma_h as int, self.pel as int, self.full, level) <= 0x200020,
    {
        let h = self.luma_h as int;
        assert forall|l: int| 0 <= l <= level implies #[trigger] level_offset_spec(h, self.pel as int, self.full, l) <= usize::MAX by {
            lemma_offsets_small(h, self.pel as int, self.full, l);
            assert((16 + l) * h <= 32 * 0x10000) by (nonlinear_arith)
                requires
                    0 <= l <= 16,
                    0 <= h <= 0x10000,
            ;
        }
        assert forall|l: int| 0 <= l <= level implies #[trigger] chroma_offset_spec(h, self.pel as int, self.full, l) <= usize::MAX by {
            lemma_offsets_small(h, self.pel as int, self.full, l);
            assert((16 + l) * (h + 1) <= 32 * 0x10001) by (nonlinear_arith)
                requires
                    0 <= l <= 16,
                    0 <= h <= 0x10000,
            ;
        }
        lemma_offsets_small(h, self.pel as int, self.full, level);
        assert((16 + level) * h <= 32 * 0x10000) by (nonlinear_arith)
            requires
                0 <= level <= 16,
                0 <= h <= 0x10000,
        ;
        assert((16 + level) * (h + 1) <= 32 * 0x10001) by (nonlinear_arith)
            requires
                0 <= level <= 16,
                0 <= h <= 0x10000,
        ;
        assert((self.pel as int) * (self.pel as int) <= 16) by (nonlinear_arith)
            requires
                0 <= self.pel <= 4,
        ;
    }
}

/// A vector inside a block's motion bounds keeps the block's left (top)
/// edge inside the level, and moves it right (down) only as far as keeps
/// its right (bottom) edge inside: with `p` the pel (at least 1), the
/// bounds along an axis admit `v` only when `p * px + v >= 0` and either
/// `v < 0` or `p * (px + bw) + v < p * lw`.
pub proof fn lemma_bounds_keep_block(px: int, bw: int, lw: int, pel: int, v: int)
    requires
        pel >= 1,
        px >= 0,
        mv_bounds_spec(px, 0, bw, 0, lw, 0, pel).0 <= v < mv_bounds_spec(px, 0, bw, 0, lw, 0, pel).2,
    ensures
        0 <= pel * px + v,
        v < 0 || pel * (px + bw) + v < pel * lw,
{
    let rx = lw - px - bw;
    assert(-pel * px == -(pel * px)) by (nonlinear_arith);
    if rx >= 0 {
        assert(pel * rx == pel * lw - pel * (px + bw)) by (nonlinear_arith)
            requires
                rx == lw - px - bw,
        ;
    }
}

} // verus!
