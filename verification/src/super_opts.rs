//! Options of the super clip: sub-pixel precision, pyramid levels and the
//! packed 64-bit handle that describes them to the analyser.
use vstd::prelude::*;
use crate::arith::tdiv;

verus! {

/// Settings of a super clip (the pyramid of downscaled and sub-pixel
/// shifted copies of a frame).
#[derive(Clone, Copy, Debug)]
pub struct SuperOpts {
    pub pel: i32,
    pub gpu: i32,
    pub scale_down: i32,
    pub scale_up: i32,
    pub full: bool,
    pub rc: bool,
    pub levels: i32,
    pub width: i32,
    pub height: i32,
}

/// `dim` after `n` halvings, each rounded down to an even number.
pub open spec fn reduce_dim_spec(dim: int, n: int) -> int
    decreases n,
{
    if n <= 0 {
        dim
    } else {
        reduce_dim_spec(2 * tdiv(dim, 4), n - 1)
    }
}

/// Number of pyramid levels: how many times both sizes can be halved (as
/// `reduce_dim` does) before one drops below 4.
pub open spec fn levels_spec(w: int, h: int) -> int
    decreases h,
{
    if h < 4 || w < 4 {
        0
    } else {
        proof {
            lemma_halve_shrinks(h);
        }
        1 + levels_spec(2 * tdiv(w, 4), 2 * tdiv(h, 4))
    }
}

/// Sum of the heights of levels `1 .. levels` of a pyramid on `base_h`.
pub open spec fn levels_height(base_h: int, levels: int) -> int
    decreases levels,
{
    if levels <= 1 {
        0
    } else {
        levels_height(base_h, levels - 1) + reduce_dim_spec(base_h, levels - 1)
    }
}

/// Height of a super plane: the full-size level with its `pel * pel`
/// sub-pixel copies (when kept), then every smaller level.
pub open spec fn super_plane_height_spec(base_h: int, pel: int, levels: int, full: bool) -> int {
    (if full { pel * pel * base_h } else { 0 }) + levels_height(base_h, levels)
}

/// Whether `super_plane_height` stays within `i32` all along.
pub open spec fn super_plane_height_fits(base_h: int, pel: int, levels: int, full: bool) -> bool {
    &&& (full ==> {
        &&& i32::MIN <= pel * pel <= i32::MAX
        &&& i32::MIN <= pel * pel * base_h <= i32::MAX
    })
    &&& forall|lv: int|
        1 <= lv <= levels ==> i32::MIN <= #[trigger] super_plane_height_spec(base_h, pel, lv, full)
            <= i32::MAX
}

/// A halving step takes a value of at least 4 down, staying positive.
pub proof fn lemma_halve_shrinks(h: int)
    requires
        h >= 4,
    ensures
        0 <= 2 * tdiv(h, 4) < h,
{
    vstd::arithmetic::div_mod::lemma_fundamental_div_mod(h, 4);
}

/// The level count is never negative, and is positive only for a frame of
/// at least 4 x 4.
pub proof fn lemma_levels_facts(w: int, h: int)
    ensures
        levels_spec(w, h) >= 0,
        levels_spec(w, h) >= 1 ==> w >= 4 && h >= 4,
    decreases h,
{
    if h >= 4 && w >= 4 {
        lemma_halve_shrinks(h);
        lemma_levels_facts(2 * tdiv(w, 4), 2 * tdiv(h, 4));
    }
}

/// Levels of a pyramid on a positive height are never negative.
pub proof fn lemma_levels_height_nonneg(base_h: int, levels: int)
    requires
        base_h >= 0,
    ensures
        levels_height(base_h, levels) >= 0,
    decreases levels,
{
    if levels > 1 {
        lemma_levels_height_nonneg(base_h, levels - 1);
        lemma_reduce_nonneg(base_h, levels - 1);
    }
}

/// Reducing a non-negative size keeps it non-negative.
pub proof fn lemma_reduce_nonneg(dim: int, n: int)
    requires
        dim >= 0,
    ensures
        reduce_dim_spec(dim, n) >= 0,
    decreases n,
{
    if n > 0 {
        vstd::arithmetic::div_mod::lemma_fundamental_div_mod(dim, 4);
        lemma_reduce_nonneg(2 * tdiv(dim, 4), n - 1);
    }
}

/// A super plane on a positive height with positive pel is not negative.
pub proof fn lemma_super_height_positive(base_h: int, pel: int, levels: int)
    requires
        base_h > 0,
        pel > 0,
    ensures
        super_plane_height_spec(base_h, pel, levels, true) >= 0,
{
    lemma_levels_height_nonneg(base_h, levels);
    assert(pel * pel * base_h >= 0) by (nonlinear_arith)
        requires
            pel > 0,
            base_h > 0,
    ;
}

/// One halving step, rounded down to an even number.
pub open spec fn halve(dim: int) -> int {
    2 * tdiv(dim, 4)
}

/// Reducing after `n` steps is one more step on the result of `n - 1`.
pub proof fn lemma_reduce_dim_step(dim: int, n: int)
    requires
        n >= 1,
    ensures
        reduce_dim_spec(dim, n) == halve(reduce_dim_spec(dim, n - 1)),
    decreases n,
{
    assert(reduce_dim_spec(dim, n) == reduce_dim_spec(halve(dim), n - 1));
    if n > 1 {
        lemma_reduce_dim_step(halve(dim), n - 1);
        assert(reduce_dim_spec(dim, n - 1) == reduce_dim_spec(halve(dim), n - 2));
    } else {
        assert(reduce_dim_spec(dim, 0) == dim);
        assert(reduce_dim_spec(halve(dim), 0) == halve(dim));
    }
}

/// One halving step never leaves the `i32` range or grows a positive
/// value, and shrinks any value of at least 4.
pub proof fn lemma_halve_bounds(d: int)
    requires
        i32::MIN <= d <= i32::MAX,
    ensures
        i32::MIN <= halve(d) <= i32::MAX,
        d >= 0 ==> 0 <= halve(d) <= d,
        d >= 4 ==> 2 * halve(d) <= d,
{
    if d >= 0 {
        vstd::arithmetic::div_mod::lemma_fundamental_div_mod(d, 4);
    } else {
        vstd::arithmetic::div_mod::lemma_fundamental_div_mod(-d, 4);
    }
}

/// `dim` after `n` halving steps.
pub fn reduce_dim(dim: i32, n: i32) -> (r: i32)
    ensures
        r == reduce_dim_spec(dim as int, n as int),
{
    let mut d = dim;
    let mut i: i32 = 0;
    while i < n
        invariant
            0 <= i,
            n > 0 ==> i <= n,
            reduce_dim_spec(d as int, n as int - i as int) == reduce_dim_spec(dim as int, n as int),
        decreases n - i,
    {
        proof {
            lemma_halve_bounds(d as int);
        }
        d = 2 * (d / 4);
        i = i + 1;
    }
    d
}

/// Number of pyramid levels for a `width` x `height` frame.
pub fn auto_levels(width: i32, height: i32) -> (r: i32)
    ensures
        r == levels_spec(width as int, height as int),
{
    let mut w = width;
    let mut h = height;
    let mut i: i32 = 0;
    let ghost mut p: int = 1;
    while !(h < 4 || w < 4)
        invariant
            0 <= i,
            p >= i + 1,
            h >= 0 ==> h * p <= height,
            height <= i32::MAX,
            i + levels_spec(w as int, h as int) == levels_spec(width as int, height as int),
        decreases h,
    {
        proof {
            lemma_halve_bounds(h as int);
            lemma_halve_bounds(w as int);
            assert(h * p <= 0x7fff_ffff);
            assert(4 * p <= h * p) by (nonlinear_arith)
                requires
                    h >= 4,
                    p >= 1,
            ;
            assert(2 * halve(h as int) * p <= h * p) by (nonlinear_arith)
                requires
                    2 * halve(h as int) <= h,
                    p >= 1,
            ;
        }
        let ghost old_h = h as int;
        w = 2 * (w / 4);
        h = 2 * (h / 4);
        i = i + 1;
        proof {
            assert(h == halve(old_h));
            assert(h * (2 * p) == 2 * halve(old_h) * p) by (nonlinear_arith)
                requires
                    h == halve(old_h),
            ;
            p = 2 * p;
        }
    }
    i
}

/// Height of a super plane with `levels` levels on `base_h` rows.
pub fn super_plane_height(base_h: i32, pel: i32, levels: i32, full: bool) -> (r: i32)
    requires
        super_plane_height_fits(base_h as int, pel as int, levels as int, full),
    ensures
        r == super_plane_height_spec(base_h as int, pel as int, levels as int, full),
{
    let mut total: i32 = if full {
        pel * pel * base_h
    } else {
        0
    };
    let mut lv: i32 = 1;
    while lv < levels
        invariant
            1 <= lv,
            levels >= 1 ==> lv <= levels,
            levels < 1 ==> lv == 1,
            super_plane_height_fits(base_h as int, pel as int, levels as int, full),
            total == super_plane_height_spec(base_h as int, pel as int, lv as int, full),
        decreases levels - lv,
    {
        assert(super_plane_height_spec(base_h as int, pel as int, lv + 1, full) == total
            + reduce_dim_spec(base_h as int, lv as int));
        assert(i32::MIN <= super_plane_height_spec(base_h as int, pel as int, lv + 1, full) <= i32::MAX);
        let r = reduce_dim(base_h, lv);
        total = total + r;
        lv = lv + 1;
    }
    if levels < 1 {
        assert(levels_height(base_h as int, levels as int) == 0);
        assert(levels_height(base_h as int, 1) == 0);
        assert(total == super_plane_height_spec(base_h as int, pel as int, 1, full));
    } else {
        assert(lv == levels);
    }
    total
}

/// The 64-bit handle: height, width, pel, levels, gpu and the flag bits
/// (`rc` in bit 56, not-`full` in bit 57), low to high.
pub open spec fn pack_data_spec(o: SuperOpts) -> u64 {
    let flags: u64 = (if o.rc { 1u64 } else { 0u64 }) | (if !o.full { 2u64 } else { 0u64 });
    ((o.height as u16) as u64) | (((o.width as u16) as u64) << 16u64) | (((o.pel as u8) as u64)
        << 32u64) | (((o.levels as u8) as u64) << 40u64) | (((o.gpu as u8) as u64) << 48u64) | (
    flags << 56u64)
}

impl SuperOpts {
    /// The options with the defaults that `SVSuper` takes when given none:
    /// pel 2, GPU mode 1 (hence no upscale filter), full level kept.
    pub fn defaults(width: i32, height: i32) -> (r: Self)
        ensures
            r.pel == 2 && r.gpu == 1 && r.scale_down == 4 && r.scale_up == 0,
            r.full && !r.rc,
            r.levels == levels_spec(width as int, height as int),
            r.width == width && r.height == height,
    {
        let levels = auto_levels(width, height);
        SuperOpts {
            pel: 2,
            gpu: 1,
            scale_down: 4,
            scale_up: 0,
            full: true,
            rc: false,
            levels,
            width,
            height,
        }
    }

    /// Builds options from the values given (each `None` when absent):
    /// checks pel and gpu, drops the upscale filter in GPU modes, and
    /// refuses to drop the full level with sub-pixel precision.
    pub fn from_values(
        pel: Option<i64>,
        gpu: Option<i64>,
        scale_down: Option<i64>,
        scale_up: Option<i64>,
        full: Option<bool>,
        rc: Option<bool>,
        width: i32,
        height: i32,
    ) -> (r: Result<Self, String>)
        ensures
            ({
                let p = (match pel { Some(v) => v, None => 2 }) as i32;
                let g = (match gpu { Some(v) => v, None => 1 }) as i32;
                let f = match full { Some(v) => v, None => true };
                &&& !(p == 1 || p == 2 || p == 4) ==> (r matches Err(e) && e@ == "SVSuper: pel has to be 1 or 2 or 4"@)
                &&& (p == 1 || p == 2 || p == 4) && !(0 <= g <= 2) ==> (r matches Err(e) && e@ == "SVSuper: gpu has to be 0 or 1 or 2"@)
                &&& (p == 1 || p == 2 || p == 4) && 0 <= g <= 2 && p >= 2 && !f ==> (r matches Err(e) && e@ == "SVSuper: can't ignore finest level with high pel value"@)
                &&& (p == 1 || p == 2 || p == 4) && 0 <= g <= 2 && !(p >= 2 && !f) ==> (r matches Ok(o) && {
                    &&& o.pel == p && o.gpu == g
                    &&& o.scale_down == (match scale_down { Some(v) => v, None => 4 }) as i32
                    &&& o.scale_up == (if g != 0 { 0 } else { (match scale_up { Some(v) => v, None => 2 }) as i32 })
                    &&& o.full == f
                    &&& o.rc == (match rc { Some(v) => v, None => false })
                    &&& o.levels == levels_spec(width as int, height as int)
                    &&& o.width == width && o.height == height
                })
            }),
    {
        let pel = (match pel {
            Some(v) => v,
            None => 2,
        }) as i32;
        if !(pel == 1 || pel == 2 || pel == 4) {
            return Err("SVSuper: pel has to be 1 or 2 or 4".to_owned());
        }
        let gpu = (match gpu {
            Some(v) => v,
            None => 1,
        }) as i32;
        if !(0 <= gpu && gpu <= 2) {
            return Err("SVSuper: gpu has to be 0 or 1 or 2".to_owned());
        }
        let scale_down = (match scale_down {
            Some(v) => v,
            None => 4,
        }) as i32;
        let mut scale_up = (match scale_up {
            Some(v) => v,
            None => 2,
        }) as i32;
        if gpu != 0 {
            scale_up = 0;
        }
        let full = match full {
            Some(v) => v,
            None => true,
        };
        if pel >= 2 && !full {
            return Err("SVSuper: can't ignore finest level with high pel value".to_owned());
        }
        let rc = match rc {
            Some(v) => v,
            None => false,
        };
        let levels = auto_levels(width, height);
        Ok(SuperOpts { pel, gpu, scale_down, scale_up, full, rc, levels, width, height })
    }

    /// The options packed into the 64-bit super clip handle.
    pub fn pack_data(&self) -> (r: i64)
        ensures
            r == pack_data_spec(*self) as i64,
    {
        let flags: u64 = (if self.rc {
            1u64
        } else {
            0u64
        }) | (if !self.full {
            2u64
        } else {
            0u64
        });
        let raw = ((self.height as u16) as u64) | (((self.width as u16) as u64) << 16u64) | (((
        self.pel as u8) as u64) << 32u64) | (((self.levels as u8) as u64) << 40u64) | (((
        self.gpu as u8) as u64) << 48u64) | (flags << 56u64);
        raw as i64
    }

    /// Height of a super plane for these options.
    pub fn super_height(&self) -> (r: i32)
        requires
            super_plane_height_fits(self.height as int, self.pel as int, self.levels as int, self.full),
        ensures
            r == super_plane_height_spec(self.height as int, self.pel as int, self.levels as int, self.full),
    {
        super_plane_height(self.height, self.pel, self.levels, self.full)
    }
}

/// The automatic pyramid has exactly as many levels as both sides can be
/// halved (each halving rounded down to an even number) while staying at
/// least 4: every level below that count keeps both sides at 4 or more,
/// and at the count one side has dropped below 4.
pub proof fn lemma_levels_count(w: int, h: int, k: int)
    requires
        0 <= k,
    ensures
        k < levels_spec(w, h) ==> reduce_dim_spec(w, k) >= 4 && reduce_dim_spec(h, k) >= 4,
        k == levels_spec(w, h) ==> reduce_dim_spec(w, k) < 4 || reduce_dim_spec(h, k) < 4,
    decreases h, k,
{
    lemma_levels_facts(w, h);
    if h >= 4 && w >= 4 {
        lemma_halve_shrinks(h);
        lemma_levels_facts(2 * tdiv(w, 4), 2 * tdiv(h, 4));
        if k > 0 {
            lemma_levels_count(2 * tdiv(w, 4), 2 * tdiv(h, 4), k - 1);
            assert(reduce_dim_spec(w, k) == reduce_dim_spec(2 * tdiv(w, 4), k - 1));
            assert(reduce_dim_spec(h, k) == reduce_dim_spec(2 * tdiv(h, 4), k - 1));
        }
    }
}

} // verus!
