//! Option helpers of the analyser: the super clip handle it reads, the
//! block overlap modes and the automatic number of search levels.
use vstd::prelude::*;
use crate::arith::tdiv;
use crate::super_opts::SuperOpts;

verus! {

pub open spec fn in_i32(v: int) -> bool {
    i32::MIN <= v <= i32::MAX
}

/// Fields of a super clip handle: `(width, height, pel, levels, selector)`.
pub open spec fn sdata_fields(raw: u64) -> (int, int, int, int, int) {
    (
        ((raw >> 16u64) & 0xffff) as int,
        (raw & 0xffff) as int,
        ((raw >> 32u64) & 0xff) as int,
        ((raw >> 40u64) & 0xff) as int,
        ((raw >> 48u64) & 0xff) as int,
    )
}

/// Whether a handle describes a usable super clip.
pub open spec fn sdata_valid(raw: u64) -> bool {
    let (w, h, pel, levels, sel) = sdata_fields(raw);
    w > 0 && h > 0 && 1 <= pel <= 4 && levels > 0
}

/// The fields of a handle lie within their 16- and 8-bit parts.
pub proof fn lemma_sdata_fields_small(raw: u64)
    ensures
        (raw & 0xffff) <= 0xffff && ((raw >> 16u64) & 0xffff) <= 0xffff && ((raw >> 32u64) & 0xff) <= 0xff
            && ((raw >> 40u64) & 0xff) <= 0xff && ((raw >> 48u64) & 0xff) <= 0xff,
{
    assert((raw & 0xffff) <= 0xffff && ((raw >> 16u64) & 0xffff) <= 0xffff && ((raw >> 32u64) & 0xff) <= 0xff
        && ((raw >> 40u64) & 0xff) <= 0xff && ((raw >> 48u64) & 0xff) <= 0xff) by (bit_vector);
}

/// Reads a super clip handle; when it is unusable, takes the options of
/// the super clip at hand instead, or fails without one.
pub fn unpack_sdata(sdata: i64, hint: Option<&SuperOpts>) -> (r: Result<(i32, i32, i32, i32, i32), String>)
    ensures
        sdata_valid(sdata as u64) ==> (r matches Ok(t) && (t.0 as int, t.1 as int, t.2 as int, t.3 as int, t.4 as int) == sdata_fields(sdata as u64)),
        sdata_fields(sdata as u64).0 <= 0xffff && sdata_fields(sdata as u64).1 <= 0xffff,
        !sdata_valid(sdata as u64) ==> match hint {
            Some(h) => r == Ok::<(i32, i32, i32, i32, i32), String>((h.width, h.height, h.pel, h.levels, h.gpu)),
            None => r matches Err(e) && e@ == "SVAnalyse: invalid super clip params"@,
        },
{
    let raw = sdata as u64;
    let height = (raw & 0xffff) as i32;
    let width = ((raw >> 16u64) & 0xffff) as i32;
    let pel = ((raw >> 32u64) & 0xff) as i32;
    let levels = ((raw >> 40u64) & 0xff) as i32;
    let selector = ((raw >> 48u64) & 0xff) as i32;
    proof {
        lemma_sdata_fields_small(raw);
    }
    if width <= 0 || height <= 0 || !(1 <= pel && pel <= 4) || levels <= 0 {
        match hint {
            Some(h) => {
                return Ok((h.width, h.height, h.pel, h.levels, h.gpu));
            },
            None => {
                return Err("SVAnalyse: invalid super clip params".to_owned());
            },
        }
    }
    Ok((width, height, pel, levels, selector))
}

/// Block overlap per mode: none, 1/8, 1/4 or 1/2 of the block.
pub open spec fn overlap_spec(bw: int, bh: int, mode: int) -> Option<(int, int)> {
    if mode == 0 {
        Some((0, 0))
    } else if mode == 1 {
        Some((tdiv(bw, 8), tdiv(bh, 8)))
    } else if mode == 2 {
        Some((tdiv(bw, 4), tdiv(bh, 4)))
    } else if mode == 3 {
        Some((tdiv(bw, 2), tdiv(bh, 2)))
    } else {
        None
    }
}

pub fn overlap_from_mode(bw: i32, bh: i32, mode: i32) -> (r: Result<(i32, i32), String>)
    ensures
        match overlap_spec(bw as int, bh as int, mode as int) {
            Some(o) => r matches Ok(v) && (v.0 as int, v.1 as int) == o,
            None => r matches Err(e) && e@ == "SVAnalyse: overlap must be 0, 1 (=1/8*block), 2 (=1/4*block) or 3 (=1/2*block)"@,
        },
{
    match mode {
        0 => Ok((0, 0)),
        1 => Ok((crate::arith::div_i32(bw, 8), crate::arith::div_i32(bh, 8))),
        2 => Ok((crate::arith::div_i32(bw, 4), crate::arith::div_i32(bh, 4))),
        3 => Ok((crate::arith::div_i32(bw, 2), crate::arith::div_i32(bh, 2))),
        _ => Err(
            "SVAnalyse: overlap must be 0, 1 (=1/8*block), 2 (=1/4*block) or 3 (=1/2*block)".to_owned(),
        ),
    }
}

pub open spec fn max1(v: int) -> int {
    if v < 1 { 1 } else { v }
}

pub open spec fn max0(v: int) -> int {
    if v < 0 { 0 } else { v }
}

/// Number of levels, from `l` on, at which the grid still has a block on
/// each axis; at most 13.
pub open spec fn level_count(end_x: int, end_y: int, ox: int, oy: int, sx: int, sy: int, l: int) -> int
    decreases 13 - l,
{
    if l > 12 || l < 0 {
        l
    } else {
        let gw = tdiv(((end_x as i32) >> (l as u32)) - ox, sx);
        let gh = tdiv(((end_y as i32) >> (l as u32)) - oy, sy);
        if gw <= 0 || gh <= 0 {
            l
        } else if l + 1 > 12 {
            l + 1
        } else {
            level_count(end_x, end_y, ox, oy, sx, sy, l + 1)
        }
    }
}

/// Number of search levels for a `w` x `h` frame with `bw` x `bh` blocks
/// overlapping by `ox`, `oy`: how many halvings of the covered area keep at
/// least one block on each axis (1 to 13).
pub open spec fn auto_search_levels_spec(w: int, h: int, bw: int, bh: int, ox: int, oy: int) -> int {
    let sx = max1(bw - ox);
    let sy = max1(bh - oy);
    let gw = max0(tdiv(w - ox, sx));
    let gh = max0(tdiv(h - oy, sy));
    if gw <= 0 || gh <= 0 {
        1
    } else {
        max1(level_count(ox + sx * gw, oy + sy * gh, ox, oy, sx, sy, 0))
    }
}

/// Whether the covered span at level `l`, less the overlap, fits in `i32`
/// on both axes.
pub open spec fn level_fits(end_x: int, ox: int, end_y: int, oy: int, l: u32) -> bool {
    in_i32(((end_x as i32) >> l) - ox) && in_i32(((end_y as i32) >> l) - oy)
}

/// Whether every subtraction of `auto_search_levels` stays within `i32`.
pub open spec fn auto_search_levels_fits(w: int, h: int, bw: int, bh: int, ox: int, oy: int) -> bool {
    &&& in_i32(bw - ox)
    &&& in_i32(bh - oy)
    &&& in_i32(w - ox)
    &&& in_i32(h - oy)
    &&& {
        let sx = max1(bw - ox);
        let sy = max1(bh - oy);
        let gw = max0(tdiv(w - ox, sx));
        let gh = max0(tdiv(h - oy, sy));
        let end_x = ox + sx * gw;
        let end_y = oy + sy * gh;
        gw > 0 && gh > 0 ==> forall|l: u32| 0 <= l <= 12 ==> #[trigger] level_fits(end_x, ox, end_y, oy, l)
    }
}

pub fn auto_search_levels(w: i32, h: i32, bw: i32, bh: i32, ox: i32, oy: i32) -> (r: i32)
    requires
        auto_search_levels_fits(w as int, h as int, bw as int, bh as int, ox as int, oy as int),
    ensures
        r == auto_search_levels_spec(w as int, h as int, bw as int, bh as int, ox as int, oy as int),
{
    let sx = if bw - ox < 1 {
        1
    } else {
        bw - ox
    };
    let sy = if bh - oy < 1 {
        1
    } else {
        bh - oy
    };
    let gw0 = w - ox;
    let gw = if gw0 / sx < 0 {
        0
    } else {
        gw0 / sx
    };
    let gh0 = h - oy;
    let gh = if gh0 / sy < 0 {
        0
    } else {
        gh0 / sy
    };
    if gw <= 0 || gh <= 0 {
        return 1;
    }
    proof {
        lemma_cover_fits(gw0 as int, sx as int);
        lemma_cover_fits(gh0 as int, sy as int);
    }

    let end_x = ox + sx * gw;
    let end_y = oy + sy * gh;
    assert(sx == max1(bw - ox));
    assert(sy == max1(bh - oy));
    assert(gw == max0(tdiv(w - ox, sx as int)));
    assert(gh == max0(tdiv(h - oy, sy as int)));
    let mut levels: i32 = 0;
    loop
        invariant_except_break
            0 <= levels <= 12,
            level_count(end_x as int, end_y as int, ox as int, oy as int, sx as int, sy as int, levels as int)
                == level_count(end_x as int, end_y as int, ox as int, oy as int, sx as int, sy as int, 0),
        invariant
            forall|l: u32| 0 <= l <= 12 ==> #[trigger] level_fits(end_x as int, ox as int, end_y as int, oy as int, l),
            sx >= 1,
            sy >= 1,
        ensures
            levels == level_count(end_x as int, end_y as int, ox as int, oy as int, sx as int, sy as int, 0),
        decreases 13 - levels,
    {
        assert(level_fits(end_x as int, ox as int, end_y as int, oy as int, levels as u32));
        let gw_l = ((end_x >> (levels as u32)) - ox) / sx;
        let gh_l = ((end_y >> (levels as u32)) - oy) / sy;
        if gw_l <= 0 || gh_l <= 0 {
            break;
        }
        levels = levels + 1;
        if levels > 12 {
            break;
        }
    }
    if levels < 1 {
        1
    } else {
        levels
    }
}

/// `v / s` whole cells of width `s` fit in `v`: their span is between 0
/// and `v`.
proof fn lemma_cover_fits(v: int, s: int)
    requires
        s >= 1,
        v / s > 0,
    ensures
        0 <= s * (v / s) <= v,
{
    vstd::arithmetic::div_mod::lemma_fundamental_div_mod(v, s);
    assert(0 <= s * (v / s)) by (nonlinear_arith)
        requires
            s >= 1,
            v / s > 0,
    ;
}


/// The analyser's options. The level penalty is a float in the options
/// text; the search reads only whether it is exactly 1 or exactly 2, which
/// `plevel_mode` holds (1, 2, or 0 for any other value).
#[derive(Clone, Copy, Debug)]
pub struct AnalyseOpts {
    pub vectors: i32,
    pub block_w: i32,
    pub block_h: i32,
    pub overlap_mode: i32,
    pub overlap_x: i32,
    pub overlap_y: i32,
    pub delta: i32,
    pub pel: i32,
    pub selector: i32,
    pub levels: i32,
    pub super_levels: i32,
    pub width: i32,
    pub height: i32,
    pub lambda: i32,
    pub lsad: i32,
    pub plevel_mode: i32,
    pub pnew: i32,
    pub pglobal: i32,
    pub pzero: i32,
    pub pnbour: i32,
    pub prev: i32,
    pub search_type: i32,
    pub coarse_search_type: i32,
    pub distance: i32,
    pub coarse_distance: i32,
    pub coarse_trymany: bool,
    pub coarse_bad_sad: i32,
    pub coarse_bad_range: i32,
    pub fine_satd: bool,
    pub coarse_satd: bool,
    pub refine_thsad: Option<i32>,
    pub refine_search_type: i32,
    pub refine_distance: i32,
    pub refine_satd: bool,
    pub sort: bool,
}

/// The search radius of a level: the fine or coarse distance, by size;
/// a zero distance means 0 on the finest of several levels and 10 else.
pub open spec fn search_radius_spec(opts: AnalyseOpts, fine: bool, level: int, nlevels: int) -> int {
    let d = if fine { opts.distance as int } else { opts.coarse_distance as int };
    if d == 0 {
        if level == 0 && nlevels > 1 { 0 } else { 10 }
    } else if d < 0 {
        -d
    } else {
        d
    }
}

/// The search radius of a level (see `search_radius_spec`).
pub fn search_radius(opts: &AnalyseOpts, fine: bool, level: i32, nlevels: i32) -> (r: i32)
    requires
        opts.distance > i32::MIN,
        opts.coarse_distance > i32::MIN,
    ensures
        r == search_radius_spec(*opts, fine, level as int, nlevels as int),
{
    let d = if fine { opts.distance } else { opts.coarse_distance };
    if d == 0 {
        if level == 0 && nlevels > 1 { 0 } else { 10 }
    } else if d < 0 {
        -d
    } else {
        d
    }
}

/// `2^e`.
pub open spec fn pow2(e: nat) -> int
    decreases e,
{
    if e == 0 { 1 } else { 2 * pow2((e - 1) as nat) }
}

/// The lambda of a level: the options' lambda over `pel * pel` (rounded
/// toward zero), times `2^level` (level penalty 1) or `4^level` (level
/// penalty 2), saturated to `i32`.
pub open spec fn exact_lambda_spec(opts: AnalyseOpts, level: int, pel: int) -> int {
    let pp = if pel * pel < 1 { 1 } else { pel * pel };
    let value = tdiv(opts.lambda as int, pp);
    if opts.plevel_mode == 1 {
        crate::arith::sat_i32(value * pow2(level as nat))
    } else if opts.plevel_mode == 2 {
        crate::arith::sat_i32(value * pow2((2 * level) as nat))
    } else {
        value
    }
}

proof fn lemma_pow2_shift(e: u32)
    requires
        e < 31,
    ensures
        (1i32 << e) as int == pow2(e as nat),
        1 <= pow2(e as nat),
    decreases e,
{
    if e > 0 {
        lemma_pow2_shift((e - 1) as u32);
        assert((1i32 << e) == 2 * (1i32 << ((e - 1) as u32))) by (bit_vector)
            requires
                0 < e < 31,
        ;
    } else {
        assert((1i32 << 0u32) == 1) by (bit_vector);
    }
}

/// The lambda of a level (see `exact_lambda_spec`).
pub fn exact_lambda(opts: &AnalyseOpts, level: i32, pel: i32) -> (r: i32)
    requires
        -0x8000 <= pel <= 0x8000,
        opts.plevel_mode == 1 ==> 0 <= level < 31,
        opts.plevel_mode == 2 ==> 0 <= level < 16,
    ensures
        r == exact_lambda_spec(*opts, level as int, pel as int),
{
    proof {
        assert(0 <= pel * pel <= 0x40000000) by (nonlinear_arith)
            requires
                -0x8000 <= pel <= 0x8000,
        ;
    }
    let pp = if pel * pel < 1 { 1 } else { pel * pel };
    let value = crate::arith::div_i32(opts.lambda, pp);
    if opts.plevel_mode == 1 {
        proof {
            lemma_pow2_shift(level as u32);
        }
        crate::arith::sat_mul_i32(value, 1i32 << (level as u32))
    } else if opts.plevel_mode == 2 {
        proof {
            lemma_pow2_shift((2 * level) as u32);
        }
        crate::arith::sat_mul_i32(value, 1i32 << ((2 * level) as u32))
    } else {
        value
    }
}

impl AnalyseOpts {
    /// The block size and overlap of the output vectors: halved (at least
    /// 4, overlaps at least 0) when a refinement pass is asked for.
    pub fn output_block(&self) -> (r: (i32, i32, i32, i32))
        ensures
            self.refine_thsad is Some ==> r == (
                if self.block_w / 2 < 4 { 4i32 } else { (self.block_w / 2) as i32 },
                if self.block_h / 2 < 4 { 4i32 } else { (self.block_h / 2) as i32 },
                if self.overlap_x / 2 < 0 { 0i32 } else { (self.overlap_x / 2) as i32 },
                if self.overlap_y / 2 < 0 { 0i32 } else { (self.overlap_y / 2) as i32 },
            ),
            self.refine_thsad is None ==> r == (self.block_w, self.block_h, self.overlap_x, self.overlap_y),
    {
        if self.refine_thsad.is_some() {
            let bw = self.block_w / 2;
            let bh = self.block_h / 2;
            let ox = self.overlap_x / 2;
            let oy = self.overlap_y / 2;
            (if bw < 4 { 4 } else { bw }, if bh < 4 { 4 } else { bh }, if ox < 0 { 0 } else { ox }, if oy < 0 { 0 } else { oy })
        } else {
            (self.block_w, self.block_h, self.overlap_x, self.overlap_y)
        }
    }
}


/// The analyser's options as read from the options text, `None` where
/// absent. The floating-point ones (lambda, level penalty) are not here.
#[derive(Clone, Copy, Debug)]
pub struct AnalyseValues {
    pub vectors: Option<i64>,
    pub block_w: Option<i64>,
    pub block_h: Option<i64>,
    pub overlap: Option<i64>,
    pub delta: Option<i64>,
    pub lsad: Option<i64>,
    pub pnew: Option<i64>,
    pub pglobal: Option<i64>,
    pub pzero: Option<i64>,
    pub pnbour: Option<i64>,
    pub prev: Option<i64>,
    pub search_type: Option<i64>,
    pub distance: Option<i64>,
    pub coarse_type: Option<i64>,
    pub coarse_distance: Option<i64>,
    pub coarse_trymany: Option<bool>,
    pub coarse_bad_sad: Option<i64>,
    pub coarse_bad_range: Option<i64>,
    pub fine_satd: Option<bool>,
    pub coarse_satd: Option<bool>,
    pub sort: Option<bool>,
    pub refine_thsad: Option<i64>,
    pub refine_type: Option<i64>,
    pub refine_distance: Option<i64>,
    pub refine_satd: Option<bool>,
    pub levels: Option<i64>,
}

/// An integer option, its default when absent, cut to `i32`.
pub open spec fn opt_i32(v: Option<i64>, d: i64) -> i32 {
    (match v { Some(x) => x, None => d }) as i32
}

/// A yes/no option, its default when absent.
pub open spec fn opt_bool(v: Option<bool>, d: bool) -> bool {
    match v { Some(x) => x, None => d }
}

/// Reads an integer option (see `opt_i32`).
fn get_i32(v: Option<i64>, d: i64) -> (r: i32)
    ensures
        r == opt_i32(v, d),
{
    (match v { Some(x) => x, None => d }) as i32
}

/// Reads a yes/no option (see `opt_bool`).
fn get_bool(v: Option<bool>, d: bool) -> (r: bool)
    ensures
        r == opt_bool(v, d),
{
    match v { Some(x) => x, None => d }
}

/// What a super clip handle (or, when unusable, the super clip's own
/// options) gives: width, height, pel, levels and selector.
pub open spec fn unpack_spec(sdata: i64, hint: Option<SuperOpts>) -> Option<(int, int, int, int, int)> {
    if sdata_valid(sdata as u64) {
        Some(sdata_fields(sdata as u64))
    } else {
        match hint {
            Some(h) => Some((h.width as int, h.height as int, h.pel as int, h.levels as int, h.gpu as int)),
            None => None,
        }
    }
}

/// `max(a, 1)` times ... the area of the block halves, at least 1.
pub open spec fn half_area(bw: int, bh: int) -> int {
    max1(tdiv(bw, 2) * tdiv(bh, 2))
}

/// The options the values give for a `dims` super clip with overlap
/// (`ox`, `oy`), lambda `lambda` and level penalty mode `plevel_mode`,
/// once they passed the checks.
pub open spec fn values_opts(v: AnalyseValues, dims: (int, int, int, int, int), ox: int, oy: int, lambda: i32, plevel_mode: i32) -> AnalyseOpts {
    let (width, height, pel, super_levels, selector) = dims;
    let bw = opt_i32(v.block_w, 16) as int;
    let bh = opt_i32(v.block_h, opt_i32(v.block_w, 16) as i64) as int;
    let search_type = opt_i32(v.search_type, 4);
    let distance = opt_i32(v.distance, 2);
    let fine_satd = opt_bool(v.fine_satd, false);
    let auto = auto_search_levels_spec(width, height, bw, bh, ox, oy);
    let capped = max1(if auto < super_levels { auto } else { super_levels });
    let levels = match v.levels {
        Some(ml) if ml > 0 => max1(if (ml as i32) < super_levels { ml as i32 as int } else { super_levels }),
        _ => capped,
    };
    let area_scale = tdiv(max1(bw * bh), 32);
    AnalyseOpts {
        vectors: opt_i32(v.vectors, 3),
        block_w: bw as i32,
        block_h: bh as i32,
        overlap_mode: opt_i32(v.overlap, 2),
        overlap_x: ox as i32,
        overlap_y: oy as i32,
        delta: opt_i32(v.delta, 1),
        pel: pel as i32,
        selector: selector as i32,
        levels: levels as i32,
        super_levels: super_levels as i32,
        width: width as i32,
        height: height as i32,
        lambda,
        lsad: crate::arith::sat_i32(opt_i32(v.lsad, 8000) * area_scale) as i32,
        plevel_mode,
        pnew: opt_i32(v.pnew, 50),
        pglobal: opt_i32(v.pglobal, 50),
        pzero: opt_i32(v.pzero, 100),
        pnbour: opt_i32(v.pnbour, 50),
        prev: opt_i32(v.prev, 0),
        search_type,
        coarse_search_type: opt_i32(v.coarse_type, search_type as i64),
        distance,
        coarse_distance: opt_i32(v.coarse_distance, 0),
        coarse_trymany: opt_bool(v.coarse_trymany, false),
        coarse_bad_sad: crate::arith::sat_i32(opt_i32(v.coarse_bad_sad, 1000) * area_scale) as i32,
        coarse_bad_range: opt_i32(v.coarse_bad_range, -24i64),
        fine_satd,
        coarse_satd: opt_bool(v.coarse_satd, true),
        refine_thsad: match v.refine_thsad {
            Some(x) => Some(tdiv((x as i32) * half_area(bw, bh), 32) as i32),
            None => None,
        },
        refine_search_type: opt_i32(v.refine_type, search_type as i64),
        refine_distance: opt_i32(v.refine_distance, distance as i64),
        refine_satd: opt_bool(v.refine_satd, fine_satd),
        sort: opt_bool(v.sort, true),
    }
}

/// Whether reading the values stays within `i32`: a super clip of at
/// most 65535 x 65535 (from its handle or its options), a block height
/// within `2^20`, and the refinement threshold times the half-block area
/// within `i32`.
pub open spec fn values_ok(v: AnalyseValues, hint: Option<SuperOpts>) -> bool {
    let bw = opt_i32(v.block_w, 16) as int;
    let bh = opt_i32(v.block_h, opt_i32(v.block_w, 16) as i64) as int;
    &&& (hint matches Some(h) ==> 0 <= h.width <= 0xffff && 0 <= h.height <= 0xffff)
    &&& -0x100000 <= bh <= 0x100000
    &&& (v.refine_thsad matches Some(x) ==> in_i32((x as i32) * half_area(bw, bh)))
}

impl AnalyseOpts {
    /// The analyser's options from the values read from the options text,
    /// the super clip handle `sdata` (or the super clip's own options when
    /// the handle is unusable), the scaled lambda and the level penalty
    /// mode. Fails when the super clip is unknown, `vectors` is not 1 to
    /// 3, the block width not 4, 8, 16 or 32, or the overlap mode unknown.
    #[verifier::rlimit(60)]
    #[verifier::spinoff_prover]
    pub fn from_values(v: &AnalyseValues, sdata: i64, hint: Option<&SuperOpts>, lambda: i32, plevel_mode: i32) -> (r: Result<AnalyseOpts, String>)
        requires
            values_ok(*v, match hint { Some(h) => Some(*h), None => None }),
        ensures
            ({
                let hs = match hint { Some(h) => Some(*h), None => None };
                let vectors = opt_i32(v.vectors, 3);
                let bw = opt_i32(v.block_w, 16);
                let bh = opt_i32(v.block_h, bw as i64);
                let mode = opt_i32(v.overlap, 2);
                match unpack_spec(sdata, hs) {
                    None => r matches Err(e) && e@ == "SVAnalyse: invalid super clip params"@,
                    Some(dims) => if !(1 <= vectors <= 3) {
                        r matches Err(e) && e@ == "SVAnalyse: vectors must be 1, 2 or 3"@
                    } else if !(bw == 4 || bw == 8 || bw == 16 || bw == 32) {
                        r matches Err(e) && e@ == "SVAnalyse: block.w must be 4/8/16/32"@
                    } else {
                        match overlap_spec(bw as int, bh as int, mode as int) {
                            None => r matches Err(e) && e@ == "SVAnalyse: overlap must be 0, 1 (=1/8*block), 2 (=1/4*block) or 3 (=1/2*block)"@,
                            Some((ox, oy)) => r == Ok::<AnalyseOpts, String>(values_opts(*v, dims, ox, oy, lambda, plevel_mode)),
                        }
                    },
                }
            }),
    {
        let (width, height, pel, super_levels, selector) = match unpack_sdata(sdata, hint) {
            Ok(t) => t,
            Err(e) => return Err(e),
        };
        let vectors = get_i32(v.vectors, 3);
        if !(1 <= vectors && vectors <= 3) {
            return Err("SVAnalyse: vectors must be 1, 2 or 3".to_owned());
        }
        let block_w = get_i32(v.block_w, 16);
        let block_h = get_i32(v.block_h, block_w as i64);
        if !(block_w == 4 || block_w == 8 || block_w == 16 || block_w == 32) {
            return Err("SVAnalyse: block.w must be 4/8/16/32".to_owned());
        }
        let overlap_mode = get_i32(v.overlap, 2);
        let (overlap_x, overlap_y) = match overlap_from_mode(block_w, block_h, overlap_mode) {
            Ok(o) => o,
            Err(e) => return Err(e),
        };
        let search_type = get_i32(v.search_type, 4);
        let distance = get_i32(v.distance, 2);
        let fine_satd = get_bool(v.fine_satd, false);
        proof {
            lemma_levels_fit(width as int, height as int, block_w as int, block_h as int, overlap_x as int, overlap_y as int);
        }
        let auto = auto_search_levels(width, height, block_w, block_h, overlap_x, overlap_y);
        let capped = if auto < super_levels { auto } else { super_levels };
        let mut levels = if capped < 1 { 1 } else { capped };
        if let Some(ml) = v.levels {
            if ml > 0 {
                let m = ml as i32;
                let c = if m < super_levels { m } else { super_levels };
                levels = if c < 1 { 1 } else { c };
            }
        }
        proof {
            assert(-0x2000000 <= block_w * block_h <= 0x2000000) by (nonlinear_arith)
                requires
                    4 <= block_w <= 32,
                    -0x100000 <= block_h <= 0x100000,
            ;
        }
        let area = block_w * block_h;
        let area_scale = (if area < 1 { 1 } else { area }) / 32;
        let lsad = crate::arith::sat_mul_i32(get_i32(v.lsad, 8000), area_scale);
        let coarse_bad_sad = crate::arith::sat_mul_i32(get_i32(v.coarse_bad_sad, 1000), area_scale);
        let refine_thsad = match v.refine_thsad {
            Some(x) => {
                proof {
                    assert(-0x10000000 <= crate::arith::tdiv(block_w as int, 2) * crate::arith::tdiv(block_h as int, 2) <= 0x10000000) by (nonlinear_arith)
                        requires
                            0 <= crate::arith::tdiv(block_w as int, 2) <= 16,
                            -0x80000 <= crate::arith::tdiv(block_h as int, 2) <= 0x80000,
                    ;
                }
                let half = (block_w / 2) * crate::arith::div_i32(block_h, 2);
                let h = if half < 1 { 1 } else { half };
                Some(crate::arith::div_i32((x as i32) * h, 32))
            },
            None => None,
        };
        Ok(AnalyseOpts {
            vectors,
            block_w,
            block_h,
            overlap_mode,
            overlap_x,
            overlap_y,
            delta: get_i32(v.delta, 1),
            pel,
            selector,
            levels,
            super_levels,
            width,
            height,
            lambda,
            lsad,
            plevel_mode,
            pnew: get_i32(v.pnew, 50),
            pglobal: get_i32(v.pglobal, 50),
            pzero: get_i32(v.pzero, 100),
            pnbour: get_i32(v.pnbour, 50),
            prev: get_i32(v.prev, 0),
            search_type,
            coarse_search_type: get_i32(v.coarse_type, search_type as i64),
            distance,
            coarse_distance: get_i32(v.coarse_distance, 0),
            coarse_trymany: get_bool(v.coarse_trymany, false),
            coarse_bad_sad,
            coarse_bad_range: get_i32(v.coarse_bad_range, -24),
            fine_satd,
            coarse_satd: get_bool(v.coarse_satd, true),
            refine_thsad,
            refine_search_type: get_i32(v.refine_type, search_type as i64),
            refine_distance: get_i32(v.refine_distance, distance as i64),
            refine_satd: get_bool(v.refine_satd, fine_satd),
            sort: get_bool(v.sort, true),
        })
    }
}

/// Right shifts move a value toward zero without passing it.
pub proof fn lemma_shr_range(x: i32, l: u32)
    requires
        l < 32,
    ensures
        0 <= x ==> 0 <= (x >> l) <= x,
        x < 0 ==> x <= (x >> l) < 0,
{
    assert((0 <= x ==> 0 <= (x >> l) <= x) && (x < 0 ==> x <= (x >> l) < 0)) by (bit_vector)
        requires
            l < 32,
    ;
}

/// The span covered by whole grid steps lies within the frame.
pub proof fn lemma_span(w: int, ox: int, sx: int)
    requires
        sx >= 1,
    ensures
        0 <= sx * max0(tdiv(w - ox, sx)) <= max0(w - ox),
{
    let d = w - ox;
    if d > 0 {
        assert(tdiv(d, sx) == d / sx);
        vstd::arithmetic::div_mod::lemma_fundamental_div_mod(d, sx);
        assert(d / sx >= 0);
        assert(sx * (d / sx) >= 0) by (nonlinear_arith)
            requires
                sx >= 1,
                d / sx >= 0,
        ;
    } else {
        assert(tdiv(d, sx) <= 0);
    }
}

/// A frame of at most 65535 x 65535 with blocks of 4 to 32 keeps the
/// automatic level count in range.
pub proof fn lemma_levels_fit(w: int, h: int, bw: int, bh: int, ox: int, oy: int)
    requires
        0 <= w <= 0xffff,
        0 <= h <= 0xffff,
        4 <= bw <= 32,
        -0x100000 <= bh <= 0x100000,
        0 <= ox <= 16,
        -0x80000 <= oy <= 0x80000,
    ensures
        auto_search_levels_fits(w, h, bw, bh, ox, oy),
{
    let sx = max1(bw - ox);
    let sy = max1(bh - oy);
    lemma_span(w, ox, sx);
    lemma_span(h, oy, sy);
    let gw = max0(tdiv(w - ox, sx));
    let gh = max0(tdiv(h - oy, sy));
    let end_x = ox + sx * gw;
    let end_y = oy + sy * gh;
    assert forall|l: u32| 0 <= l <= 12 implies #[trigger] level_fits(end_x, ox, end_y, oy, l) by {
        lemma_shr_range(end_x as i32, l);
        lemma_shr_range(end_y as i32, l);
    }
}

/// The bit fields of a packed handle read back as packed.
proof fn lemma_handle_fields(h: u64, w: u64, p: u64, l: u64, g: u64, rc: bool, full: bool)
    requires
        h <= 0xffff,
        w <= 0xffff,
        p <= 0xff,
        l <= 0xff,
        g <= 0xff,
    ensures
        ({
            let f: u64 = (if rc { 1u64 } else { 0u64 }) | (if !full { 2u64 } else { 0u64 });
            let raw = ((h | (w << 16u64) | (p << 32u64) | (l << 40u64) | (g << 48u64) | (f << 56u64)) as i64) as u64;
            &&& raw & 0xffff == h
            &&& (raw >> 16u64) & 0xffff == w
            &&& (raw >> 32u64) & 0xff == p
            &&& (raw >> 40u64) & 0xff == l
            &&& (raw >> 48u64) & 0xff == g
        }),
{
    assert({
        let f: u64 = (if rc { 1u64 } else { 0u64 }) | (if !full { 2u64 } else { 0u64 });
        let raw = ((h | (w << 16u64) | (p << 32u64) | (l << 40u64) | (g << 48u64) | (f << 56u64)) as i64) as u64;
        &&& raw & 0xffff == h
        &&& (raw >> 16u64) & 0xffff == w
        &&& (raw >> 32u64) & 0xff == p
        &&& (raw >> 40u64) & 0xff == l
        &&& (raw >> 48u64) & 0xff == g
    }) by (bit_vector)
        requires
            h <= 0xffff,
            w <= 0xffff,
            p <= 0xff,
            l <= 0xff,
            g <= 0xff,
    ;
}

/// The handle a super clip packs reads back in the analyser as the clip's
/// size, pel, level count and GPU mode, whatever options the analyser
/// holds besides.
pub proof fn lemma_handle_roundtrip(o: SuperOpts, hint: Option<SuperOpts>)
    requires
        1 <= o.width <= 0xffff,
        1 <= o.height <= 0xffff,
        1 <= o.pel <= 4,
        1 <= o.levels <= 0xff,
        0 <= o.gpu <= 0xff,
    ensures
        unpack_spec(crate::super_opts::pack_data_spec(o) as i64, hint)
            == Some((o.width as int, o.height as int, o.pel as int, o.levels as int, o.gpu as int)),
{
    lemma_handle_fields(o.height as u64, o.width as u64, o.pel as u64, o.levels as u64, o.gpu as u64, o.rc, o.full);
    assert((o.height as u16) as u64 == o.height as u64);
    assert((o.width as u16) as u64 == o.width as u64);
    assert((o.pel as u8) as u64 == o.pel as u64);
    assert((o.levels as u8) as u64 == o.levels as u64);
    assert((o.gpu as u8) as u64 == o.gpu as u64);
}

/// The overlap of each mode is its fraction of the block: none (mode 0),
/// an eighth (mode 1), a quarter (mode 2) or a half (mode 3) of each side,
/// rounded down for non-negative sides; other modes have none.
pub proof fn lemma_overlap_fractions(bw: int, bh: int, mode: int)
    requires
        bw >= 0,
        bh >= 0,
    ensures
        (0 <= mode <= 3) == (overlap_spec(bw, bh, mode) is Some),
        overlap_spec(bw, bh, mode) matches Some((ox, oy)) ==> ({
            let part = if mode == 0 { 0int } else if mode == 1 { 8int } else if mode == 2 { 4int } else { 2int };
            &&& mode == 0 ==> ox == 0 && oy == 0
            &&& mode != 0 ==> part * ox <= bw < part * (ox + 1) && part * oy <= bh < part * (oy + 1)
        }),
{
    if 1 <= mode <= 3 {
        let part = if mode == 1 { 8int } else if mode == 2 { 4int } else { 2int };
        vstd::arithmetic::div_mod::lemma_fundamental_div_mod(bw, part);
        vstd::arithmetic::div_mod::lemma_fundamental_div_mod(bh, part);
        assert(tdiv(bw, part) == bw / part);
        assert(tdiv(bh, part) == bh / part);
    }
}

/// The level lambda starts from the options' lambda over `pel * pel` on
/// the finest level and, unless it saturates, doubles from one level to
/// the next under level penalty 1, quadruples under level penalty 2, and
/// stays the same otherwise.
pub proof fn lemma_lambda_levels(opts: AnalyseOpts, level: int, pel: int)
    requires
        0 <= level,
        pel * pel >= 1,
        -0x8000_0000 <= tdiv(opts.lambda as int, pel * pel) * pow2((2 * (level + 1)) as nat) <= 0x7fff_ffff,
    ensures
        exact_lambda_spec(opts, 0, pel) == tdiv(opts.lambda as int, pel * pel),
        opts.plevel_mode == 1 ==> exact_lambda_spec(opts, level + 1, pel) == 2 * exact_lambda_spec(opts, level, pel),
        opts.plevel_mode == 2 ==> exact_lambda_spec(opts, level + 1, pel) == 4 * exact_lambda_spec(opts, level, pel),
        opts.plevel_mode != 1 && opts.plevel_mode != 2 ==> exact_lambda_spec(opts, level + 1, pel) == exact_lambda_spec(opts, level, pel),
{
    let v = tdiv(opts.lambda as int, pel * pel);
    lemma_pow2_pos((2 * level) as nat);
    assert(pow2((level + 1) as nat) == 2 * pow2(level as nat));
    assert(pow2((2 * (level + 1)) as nat) == 2 * pow2((2 * level + 1) as nat));
    assert(pow2((2 * level + 1) as nat) == 2 * pow2((2 * level) as nat));
    lemma_pow2_mono(level as nat, (2 * level) as nat);
    lemma_pow2_mono((level + 1) as nat, (2 * (level + 1)) as nat);
    let a = pow2(level as nat);
    let b = pow2((level + 1) as nat);
    let c = pow2((2 * level) as nat);
    let d = pow2((2 * (level + 1)) as nat);
    assert(-0x8000_0000 <= v * b <= 0x7fff_ffff && -0x8000_0000 <= v * a <= 0x7fff_ffff && -0x8000_0000 <= v * c <= 0x7fff_ffff) by (nonlinear_arith)
        requires
            -0x8000_0000 <= v * d <= 0x7fff_ffff,
            1 <= a <= b <= d,
            1 <= c <= d,
    ;
    assert(v * b == 2 * (v * a)) by (nonlinear_arith)
        requires
            b == 2 * a,
    ;
    assert(v * d == 4 * (v * c)) by (nonlinear_arith)
        requires
            d == 4 * c,
    ;
    assert(pow2(0) == 1);
}

/// Powers of two are positive.
proof fn lemma_pow2_pos(e: nat)
    ensures
        pow2(e) >= 1,
    decreases e,
{
    if e > 0 {
        lemma_pow2_pos((e - 1) as nat);
    }
}

/// Powers of two grow with the exponent.
proof fn lemma_pow2_mono(a: nat, b: nat)
    requires
        a <= b,
    ensures
        1 <= pow2(a) <= pow2(b),
    decreases b,
{
    lemma_pow2_pos(a);
    if a < b {
        lemma_pow2_mono(a, (b - 1) as nat);
    }
}

} // verus!
