//! The portable entry points: building super frames (source pyramids) of a
//! fixed size and pel.
use vstd::prelude::*;
use crate::super_opts::{
    SuperOpts, levels_spec, super_plane_height_fits, super_plane_height_spec,
};
use crate::super_build::{
    build_plane, build_spec, build_fits, level_top, level_dim, reduce_fits, lemma_level_top_luma,
    lemma_level_top_chroma, lemma_level_top_mono, lemma_reduce_bounds, lemma_build_spec_len,
};
use crate::super_opts::{reduce_dim_spec, lemma_levels_facts};
use crate::analyse_search::SuperPlanes;
use crate::analyse_opts::{
    AnalyseOpts, AnalyseValues, values_opts, unpack_spec, overlap_spec, overlap_from_mode, auto_search_levels,
    auto_search_levels_spec, max1, lemma_levels_fit,
};
use crate::super_opts::pack_data_spec;

verus! {

/// Builds super frames for one frame size and pel.
#[derive(Clone, Copy)]
pub struct SuperBuilder {
    opts: SuperOpts,
    source_y_len: usize,
    source_chroma_len: usize,
    output_y_len: usize,
    output_chroma_len: usize,
}

/// One super frame: the luma and chroma pyramids.
pub struct SuperFrame {
    opts: SuperOpts,
    y: Vec<u8>,
    u: Vec<u8>,
    v: Vec<u8>,
}

/// `rayon::join` runs both closures (possibly on two threads) and returns
/// their two results; each closure runs once, so each result is one that
/// its closure may return.
pub assume_specification<A, B, RA, RB>[rayon::join::<A, B, RA, RB>](oper_a: A, oper_b: B) -> (r: (RA, RB))
    where
        A: FnOnce() -> RA + Send,
        B: FnOnce() -> RB + Send,
        RA: Send,
        RB: Send,
    requires
        oper_a.requires(()),
        oper_b.requires(()),
    ensures
        oper_a.ensures((), r.0),
        oper_b.ensures((), r.1),
;

/// `n` zero bytes.
pub open spec fn zeros(n: int) -> Seq<u8> {
    Seq::new(n as nat, |i: int| 0u8)
}

/// The three planes of the super frame that `build` makes of `source`:
/// the luma plane from the first `width * height` bytes, then the two
/// chroma planes from the next two quarter-size runs, each built into a
/// zeroed buffer.
pub open spec fn frame_spec(opts: SuperOpts, source: Seq<u8>) -> (Seq<u8>, Seq<u8>, Seq<u8>) {
    let w = opts.width as int;
    let h = opts.height as int;
    let cw = w / 2;
    let ch = h / 2;
    let sh = super_plane_height_spec(h, opts.pel as int, opts.levels as int, opts.full);
    let yl = w * h;
    let cl = cw * ch;
    (
        build_spec(zeros(w * sh), w, source.subrange(0, yl), w, w, h, w, h, false, opts),
        build_spec(zeros(cw * (sh / 2)), cw, source.subrange(yl, yl + cl), cw, cw, ch, w, h, true, opts),
        build_spec(zeros(cw * (sh / 2)), cw, source.subrange(yl + cl, yl + 2 * cl), cw, cw, ch, w, h, true, opts),
    )
}

/// Whether `new` accepts these arguments.
pub open spec fn builder_args_ok(width: int, height: int, pel: int) -> bool {
    &&& (pel == 1 || pel == 2 || pel == 4)
    &&& width > 0 && height > 0 && width % 2 == 0 && height % 2 == 0
}

/// Height of the super planes for accepted arguments.
pub open spec fn builder_super_height(width: int, height: int, pel: int) -> int {
    super_plane_height_spec(height, pel, levels_spec(width, height), true)
}

/// Everything `build_plane` needs holds for a plane of a well-formed
/// builder: the luma plane (`chroma` false) or a chroma plane, in a buffer
/// of the plane's width times its super height.
proof fn lemma_plane_fits(o: SuperOpts, chroma: bool)
    requires
        (o.pel == 1 || o.pel == 2 || o.pel == 4),
        o.width > 0 && o.height > 0 && o.width % 2 == 0 && o.height % 2 == 0,
        o.full,
        o.gpu == 1 && o.scale_down == 4 && o.scale_up == 0,
        o.levels == levels_spec(o.width as int, o.height as int),
        ({
            let w = o.width as int;
            let h = o.height as int;
            let sh = super_plane_height_spec(h, o.pel as int, o.levels as int, true);
            &&& w * h + 2 * ((w / 2) * (h / 2)) <= usize::MAX
            &&& w * sh + 2 * ((w / 2) * (sh / 2)) <= usize::MAX
        }),
    ensures
        ({
            let w = o.width as int;
            let h = o.height as int;
            let sh = super_plane_height_spec(h, o.pel as int, o.levels as int, true);
            let pw = if chroma { w / 2 } else { w };
            let ph = if chroma { h / 2 } else { h };
            let tall = if chroma { sh / 2 } else { sh };
            build_fits(pw * tall, pw, pw, pw, ph, w, h, chroma, o)
        }),
{
    let w = o.width as int;
    let h = o.height as int;
    let pel = o.pel as int;
    let levels = o.levels as int;
    let sh = super_plane_height_spec(h, pel, levels, true);
    let pw = if chroma { w / 2 } else { w };
    let ph = if chroma { h / 2 } else { h };
    let tall = if chroma { sh / 2 } else { sh };
    lemma_levels_facts(w, h);
    if levels >= 1 {
        // The plane's levels fill exactly its super height.
        lemma_level_top_luma(h, pel, levels);
        lemma_level_top_chroma(h, pel, levels);
        assert(level_top(h, chroma, true, pel, levels) == tall);
        assert(reduce_dim_spec(w, 0) == w);
        assert(reduce_dim_spec(h, 0) == h);
        assert(level_dim(w, chroma, 0) == pw);
        assert(level_dim(h, chroma, 0) == ph);
        assert(w >= 4 && h >= 4);
        assert(pw >= 2 && ph >= 2);
        // The first level alone takes `ph * pel * pel` rows.
        assert(pel * pel <= 16) by (nonlinear_arith)
            requires
                1 <= pel <= 4,
        ;
        assert(level_top(h, chroma, true, pel, 0) == 0);
        assert(level_top(h, chroma, true, pel, 1) == ph * (pel * pel));
        assert(ph * (pel * pel) >= ph) by (nonlinear_arith)
            requires
                ph >= 0,
                pel >= 1,
        ;
        lemma_level_top_mono(h, chroma, true, pel, 1, levels);
        assert(tall >= ph);
        let src_total = w * h + 2 * ((w / 2) * (h / 2));
        let out_total = w * sh + 2 * ((w / 2) * (sh / 2));
        assert(pw * ph + pw <= src_total) by (nonlinear_arith)
            requires
                w % 2 == 0,
                h % 2 == 0,
                h >= 4,
                w >= 4,
                pw == (if chroma { w / 2 } else { w }),
                ph == (if chroma { h / 2 } else { h }),
                src_total == w * h + 2 * ((w / 2) * (h / 2)),
        ;
        assert(pw * tall <= out_total) by (nonlinear_arith)
            requires
                w % 2 == 0,
                sh >= 0,
                w >= 4,
                pw == (if chroma { w / 2 } else { w }),
                tall == (if chroma { sh / 2 } else { sh }),
                out_total == w * sh + 2 * ((w / 2) * (sh / 2)),
        ;
        assert(2 * tall <= pw * tall && tall >= 0) by (nonlinear_arith)
            requires
                pw >= 2,
                tall >= 2,
        ;
        assert(2 * pw <= pw * tall) by (nonlinear_arith)
            requires
                pw >= 2,
                tall >= 2,
        ;
        // Every level top lies within the plane.
        assert forall|lv: int| 0 <= lv <= levels implies #[trigger] level_top(h, chroma, true, pel, lv) <= usize::MAX by {
            lemma_level_top_mono(h, chroma, true, pel, lv, levels);
        }
        // Each reduction reads and writes inside the plane.
        if levels >= 2 {
            assert forall|lv: int| 0 <= lv < levels - 1 implies reduce_fits(
                pw,
                #[trigger] level_top(h, chroma, true, pel, lv + 1),
                level_dim(w, chroma, lv + 1),
                level_dim(h, chroma, lv + 1),
                level_top(h, chroma, true, pel, lv),
                level_dim(w, chroma, lv),
                level_dim(h, chroma, lv),
            ) by {
                lemma_reduce_level_fits(o, chroma, lv);
            }
        }
        // The half-pixel planes fit below the full level.
        if pel >= 2 {
            assert(ph * (pel * pel) >= 4 * ph) by (nonlinear_arith)
                requires
                    ph >= 0,
                    pel >= 2,
            ;
            assert(4 * ph * pw + 1 + pw <= out_total) by (nonlinear_arith)
                requires
                    4 * ph <= tall,
                    pw * tall <= out_total,
                    w % 2 == 0,
                    sh >= 0,
                    w >= 4,
                    tall >= 8,
                    pw == (if chroma { w / 2 } else { w }),
                    tall == (if chroma { sh / 2 } else { sh }),
                    out_total == w * sh + 2 * ((w / 2) * (sh / 2)),
            ;
        }
    }
}

/// Reducing level `lv + 1` from level `lv` of a well-formed builder's plane
/// stays inside the plane.
proof fn lemma_reduce_level_fits(o: SuperOpts, chroma: bool, lv: int)
    requires
        (o.pel == 1 || o.pel == 2 || o.pel == 4),
        o.width >= 4 && o.height >= 4 && o.width % 2 == 0 && o.height % 2 == 0,
        o.levels == levels_spec(o.width as int, o.height as int),
        0 <= lv < o.levels - 1,
        ({
            let w = o.width as int;
            let h = o.height as int;
            let sh = super_plane_height_spec(h, o.pel as int, o.levels as int, true);
            let pw = if chroma { w / 2 } else { w };
            let ph = if chroma { h / 2 } else { h };
            let tall = if chroma { sh / 2 } else { sh };
            &&& level_top(h, chroma, true, o.pel as int, o.levels as int) == tall
            &&& pw * ph + pw <= usize::MAX
            &&& pw * tall <= usize::MAX
            &&& 2 * tall <= pw * tall
            &&& 2 * pw <= pw * tall
        }),
    ensures
        ({
            let w = o.width as int;
            let h = o.height as int;
            let pel = o.pel as int;
            let pw = if chroma { w / 2 } else { w };
            reduce_fits(
                pw,
                level_top(h, chroma, true, pel, lv + 1),
                level_dim(w, chroma, lv + 1),
                level_dim(h, chroma, lv + 1),
                level_top(h, chroma, true, pel, lv),
                level_dim(w, chroma, lv),
                level_dim(h, chroma, lv),
            )
        }),
{
    let w = o.width as int;
    let h = o.height as int;
    let pel = o.pel as int;
    let levels = o.levels as int;
    let sh = super_plane_height_spec(h, pel, levels, true);
    let pw = if chroma { w / 2 } else { w };
    let ph = if chroma { h / 2 } else { h };
    let tall = if chroma { sh / 2 } else { sh };
    let t0 = level_top(h, chroma, true, pel, lv);
    let t1 = level_top(h, chroma, true, pel, lv + 1);
    let t2 = level_top(h, chroma, true, pel, lv + 2);
    let dw1 = level_dim(w, chroma, lv + 1);
    let dh1 = level_dim(h, chroma, lv + 1);
    let sw = level_dim(w, chroma, lv);
    let sh0 = level_dim(h, chroma, lv);
    lemma_reduce_bounds(w, lv);
    lemma_reduce_bounds(w, lv + 1);
    lemma_reduce_bounds(h, lv);
    lemma_reduce_bounds(h, lv + 1);
    lemma_level_top_mono(h, chroma, true, pel, lv + 2, levels);
    lemma_level_top_mono(h, chroma, true, pel, lv, lv + 1);
    assert(0 <= dw1 <= sw <= pw);
    assert(2 * dw1 <= pw);
    assert(0 <= dh1 <= sh0 <= ph);
    assert(2 * dh1 <= ph);
    assert(t2 == t1 + dh1);
    assert(t0 + sh0 <= t1) by {
        if lv == 0 {
            assert(pel * pel >= 1) by (nonlinear_arith)
                requires
                    pel >= 1,
            ;
            assert(sh0 * (pel * pel) >= sh0) by (nonlinear_arith)
                requires
                    sh0 >= 0,
                    pel * pel >= 1,
            ;
        }
    }
    assert(sw * dh1 <= pw * ph) by (nonlinear_arith)
        requires
            0 <= sw <= pw,
            0 <= dh1 <= ph,
    ;
    assert((t0 + sh0 - 1) * pw + sw - 1 <= t1 * pw) by (nonlinear_arith)
        requires
            t0 + sh0 <= t1,
            pw >= 0,
            sw <= pw,
    ;
    assert(t1 * pw <= tall * pw) by (nonlinear_arith)
        requires
            t1 <= tall,
            pw >= 0,
    ;
    assert((t2 - 1) * pw <= tall * pw) by (nonlinear_arith)
        requires
            t2 <= tall,
            pw >= 0,
    ;
    assert(pw * tall == tall * pw) by (nonlinear_arith);
}

impl SuperBuilder {
    pub closed spec fn opts_spec(&self) -> SuperOpts {
        self.opts
    }

    /// Bytes of one source frame: a `width` x `height` luma plane and two
    /// half-size chroma planes.
    pub closed spec fn source_len_spec(&self) -> int {
        self.source_y_len + 2 * self.source_chroma_len
    }

    /// Bytes of one super frame: the luma pyramid and two chroma pyramids.
    pub closed spec fn output_len_spec(&self) -> int {
        self.output_y_len + 2 * self.output_chroma_len
    }

    pub closed spec fn wf(&self) -> bool {
        let w = self.opts.width as int;
        let h = self.opts.height as int;
        let sh = super_plane_height_spec(h, self.opts.pel as int, self.opts.levels as int, self.opts.full);
        &&& builder_args_ok(w, h, self.opts.pel as int)
        &&& self.opts.full && !self.opts.rc
        &&& self.opts.gpu == 1 && self.opts.scale_down == 4 && self.opts.scale_up == 0
        &&& self.opts.levels == levels_spec(w, h)
        &&& self.source_y_len == w * h
        &&& self.source_chroma_len == (w / 2) * (h / 2)
        &&& self.output_y_len == w * sh
        &&& self.output_chroma_len == (w / 2) * (sh / 2)
        &&& self.source_y_len + 2 * self.source_chroma_len <= usize::MAX
        &&& self.output_y_len + 2 * self.output_chroma_len <= usize::MAX
    }

    /// A well-formed builder holds the fixed options of a super clip
    /// built by this library: full levels down to the automatic count,
    /// no chroma reduction, and the default scale filters.
    pub proof fn lemma_wf_opts(&self)
        requires
            self.wf(),
        ensures
            builder_args_ok(self.opts_spec().width as int, self.opts_spec().height as int, self.opts_spec().pel as int),
            self.opts_spec().levels == levels_spec(self.opts_spec().width as int, self.opts_spec().height as int),
            self.opts_spec().full && !self.opts_spec().rc && self.opts_spec().gpu == 1,
            self.opts_spec().scale_up == 0 && self.opts_spec().scale_down == 4,
    {
    }

    /// A builder for `width` x `height` frames (both positive and even) at
    /// `pel` 1, 2 or 4; fails when a buffer size would overflow `usize`.
    pub fn new(width: i32, height: i32, pel: i32) -> (r: Result<Self, String>)
        requires
            builder_args_ok(width as int, height as int, pel as int) ==> super_plane_height_fits(
                height as int,
                pel as int,
                levels_spec(width as int, height as int),
                true,
            ),
        ensures
            !(pel == 1 || pel == 2 || pel == 4) ==> (r matches Err(e) && e@ == "pel must be 1, 2 or 4"@),
            (pel == 1 || pel == 2 || pel == 4) && !builder_args_ok(width as int, height as int, pel as int)
                ==> (r matches Err(e) && e@ == "dimensions must be positive and even"@),
            builder_args_ok(width as int, height as int, pel as int) ==> {
                let sh = builder_super_height(width as int, height as int, pel as int);
                let fits = width * height + 2 * ((width / 2) * (height / 2)) <= usize::MAX
                    && width * sh + 2 * ((width / 2) * (sh / 2)) <= usize::MAX;
                &&& fits ==> (r matches Ok(b) && b.wf() && b.opts_spec().width == width
                    && b.opts_spec().height == height && b.opts_spec().pel == pel
                    && b.opts_spec().levels == levels_spec(width as int, height as int)
                    && b.opts_spec().full && !b.opts_spec().rc && b.opts_spec().gpu == 1
                    && b.opts_spec().scale_up == 0 && b.opts_spec().scale_down == 4
                    && b.source_len_spec() == width * height + 2 * ((width / 2) * (height / 2))
                    && b.output_len_spec() == width * sh + 2 * ((width / 2) * (sh / 2)))
                &&& !fits ==> r is Err
            },
    {
        if !(pel == 1 || pel == 2 || pel == 4) {
            return Err("pel must be 1, 2 or 4".to_owned());
        }
        if width <= 0 || height <= 0 || width % 2 != 0 || height % 2 != 0 {
            return Err("dimensions must be positive and even".to_owned());
        }
        let mut opts = SuperOpts::defaults(width, height);
        opts.pel = pel;
        let width_u = width as usize;
        let height_u = height as usize;
        let chroma_width = width_u / 2;
        let chroma_height = height_u / 2;
        let super_height = opts.super_height();
        assert(super_height >= 0) by {
            crate::super_opts::lemma_super_height_positive(height as int, pel as int, opts.levels as int);
        }
        let super_height = super_height as usize;
        let source_y_len = match width_u.checked_mul(height_u) {
            Some(v) => v,
            None => {
                return Err("source size overflow".to_owned());
            },
        };
        let source_chroma_len = match chroma_width.checked_mul(chroma_height) {
            Some(v) => v,
            None => {
                return Err("source size overflow".to_owned());
            },
        };
        let output_y_len = match width_u.checked_mul(super_height) {
            Some(v) => v,
            None => {
                return Err("super size overflow".to_owned());
            },
        };
        let output_chroma_len = match chroma_width.checked_mul(super_height / 2) {
            Some(v) => v,
            None => {
                return Err("super size overflow".to_owned());
            },
        };
        if source_chroma_len > (usize::MAX - source_y_len) / 2 || output_chroma_len > (usize::MAX
            - output_y_len) / 2 {
            return Err("super size overflow".to_owned());
        }
        Ok(SuperBuilder { opts, source_y_len, source_chroma_len, output_y_len, output_chroma_len })
    }

    pub fn width(&self) -> (r: i32)
        ensures
            r == self.opts_spec().width,
    {
        self.opts.width
    }

    pub fn height(&self) -> (r: i32)
        ensures
            r == self.opts_spec().height,
    {
        self.opts.height
    }

    pub fn pel(&self) -> (r: i32)
        ensures
            r == self.opts_spec().pel,
    {
        self.opts.pel
    }

    pub fn levels(&self) -> (r: i32)
        ensures
            r == self.opts_spec().levels,
    {
        self.opts.levels
    }

    /// Bytes of the source frame that `build` takes.
    pub fn source_len(&self) -> (r: usize)
        requires
            self.wf(),
        ensures
            r == self.source_len_spec(),
    {
        self.source_y_len + self.source_chroma_len * 2
    }

    /// Bytes of the super frame that `build` gives.
    pub fn output_len(&self) -> (r: usize)
        requires
            self.wf(),
        ensures
            r == self.output_len_spec(),
    {
        self.output_y_len + self.output_chroma_len * 2
    }

    /// Builds the super frame of one source frame (luma plane, then the two
    /// chroma planes), the three planes in parallel.
    pub fn build(&self, source: &[u8]) -> (r: Result<SuperFrame, String>)
        requires
            self.wf(),
        ensures
            source@.len() != self.source_len_spec() ==> (r matches Err(e) && e@ == "invalid source buffer length"@),
            source@.len() == self.source_len_spec() ==> (r matches Ok(f) && f.opts_spec() == self.opts_spec()
                && f.planes_spec() == frame_spec(self.opts_spec(), source@) && f.len_spec() == self.output_len_spec()),
    {
        if source.len() != self.source_len() {
            return Err("invalid source buffer length".to_owned());
        }
        let width = self.opts.width as usize;
        let height = self.opts.height as usize;
        let chroma_width = width / 2;
        let chroma_height = height / 2;
        let (source_y, chroma) = source.split_at(self.source_y_len);
        let (source_u, source_v) = chroma.split_at(self.source_chroma_len);
        let y: Vec<u8> = vec![0; self.output_y_len];
        let u: Vec<u8> = vec![0; self.output_chroma_len];
        let v: Vec<u8> = vec![0; self.output_chroma_len];
        let opts = self.opts;
        proof {
            lemma_plane_fits(opts, false);
            lemma_plane_fits(opts, true);
        }
        assert(y@ =~= zeros(self.output_y_len as int));
        assert(u@ =~= zeros(self.output_chroma_len as int));
        assert(v@ =~= zeros(self.output_chroma_len as int));
        assert(source_y@ =~= source@.subrange(0, self.source_y_len as int));
        assert(source_u@ =~= source@.subrange(self.source_y_len as int, self.source_y_len + self.source_chroma_len));
        assert(source_v@ =~= source@.subrange(self.source_y_len + self.source_chroma_len, self.source_y_len + 2 * self.source_chroma_len));
        let (y, (u, v)) = rayon::join(
            (move || -> (r: Vec<u8>)
                requires
                    build_fits(y@.len() as int, width as int, width as int, width as int, height as int, width as int, height as int, false, opts),
                ensures
                    (r@ == build_spec(y@, width as int, source_y@, width as int, width as int, height as int, width as int, height as int, false, opts)),
            {
                let mut y = y;
                build_plane(y.as_mut_slice(), width, source_y, width, width, height, width, height, false, &opts);
                y
            }),
            (move || -> (r: (Vec<u8>, Vec<u8>))
                requires
                    build_fits(u@.len() as int, chroma_width as int, chroma_width as int, chroma_width as int, chroma_height as int, width as int, height as int, true, opts),
                    build_fits(v@.len() as int, chroma_width as int, chroma_width as int, chroma_width as int, chroma_height as int, width as int, height as int, true, opts),
                ensures
                    r.0@ == build_spec(u@, chroma_width as int, source_u@, chroma_width as int, chroma_width as int, chroma_height as int, width as int, height as int, true, opts),
                    r.1@ == build_spec(v@, chroma_width as int, source_v@, chroma_width as int, chroma_width as int, chroma_height as int, width as int, height as int, true, opts),
            {
                rayon::join(
                    (move || -> (r: Vec<u8>)
                        requires
                            build_fits(u@.len() as int, chroma_width as int, chroma_width as int, chroma_width as int, chroma_height as int, width as int, height as int, true, opts),
                        ensures
                            r@ == build_spec(u@, chroma_width as int, source_u@, chroma_width as int, chroma_width as int, chroma_height as int, width as int, height as int, true, opts),
                    {
                        let mut u = u;
                        build_plane(u.as_mut_slice(), chroma_width, source_u, chroma_width, chroma_width, chroma_height, width, height, true, &opts);
                        u
                    }),
                    (move || -> (r: Vec<u8>)
                        requires
                            build_fits(v@.len() as int, chroma_width as int, chroma_width as int, chroma_width as int, chroma_height as int, width as int, height as int, true, opts),
                        ensures
                            r@ == build_spec(v@, chroma_width as int, source_v@, chroma_width as int, chroma_width as int, chroma_height as int, width as int, height as int, true, opts),
                    {
                        let mut v = v;
                        build_plane(v.as_mut_slice(), chroma_width, source_v, chroma_width, chroma_width, chroma_height, width, height, true, &opts);
                        v
                    }),
                )
            }),
        );
        proof {
            lemma_build_spec_len(zeros(self.output_y_len as int), width as int, source_y@, width as int, width as int, height as int, width as int, height as int, false, opts);
            lemma_build_spec_len(zeros(self.output_chroma_len as int), chroma_width as int, source_u@, chroma_width as int, chroma_width as int, chroma_height as int, width as int, height as int, true, opts);
            lemma_build_spec_len(zeros(self.output_chroma_len as int), chroma_width as int, source_v@, chroma_width as int, chroma_width as int, chroma_height as int, width as int, height as int, true, opts);
        }
        Ok(SuperFrame { opts, y, u, v })
    }
}

impl SuperFrame {
    pub closed spec fn opts_spec(&self) -> SuperOpts {
        self.opts
    }
    pub closed spec fn planes_spec(&self) -> (Seq<u8>, Seq<u8>, Seq<u8>) {
        (self.y@, self.u@, self.v@)
    }

    /// The total length of the three planes.
    pub open spec fn len_spec(&self) -> int {
        (self.planes_spec().0.len() + self.planes_spec().1.len() + self.planes_spec().2.len()) as int
    }

    /// Total bytes of the three planes.
    pub fn len(&self) -> (r: usize)
        requires
            self.len_spec() <= usize::MAX,
        ensures
            r == self.len_spec(),
    {
        self.y.len() + self.u.len() + self.v.len()
    }

    pub fn is_empty(&self) -> (r: bool)
        ensures
            r == (self.len_spec() == 0),
    {
        self.y.len() == 0 && self.u.len() == 0 && self.v.len() == 0
    }

    /// The planes of the frame as the analyser reads them: rows the frame's
    /// width apart (half of it for chroma), sides that are not positive
    /// read as 0.
    pub fn planes(&self) -> (r: SuperPlanes<'_>)
        ensures
            r.y@ == self.planes_spec().0 && r.u@ == self.planes_spec().1 && r.v@ == self.planes_spec().2,
            r.y_stride == (if self.opts_spec().width < 0 { 0 } else { self.opts_spec().width as int }),
            r.u_stride == (if self.opts_spec().width / 2 < 0 { 0 } else { (self.opts_spec().width / 2) as int }),
            r.v_stride == r.u_stride,
            r.luma_w == r.y_stride,
            r.luma_h == (if self.opts_spec().height < 0 { 0 } else { self.opts_spec().height as int }),
            r.pel == self.opts_spec().pel && r.levels == self.opts_spec().levels && r.full == self.opts_spec().full,
    {
        let w: usize = if self.opts.width < 0 { 0 } else { self.opts.width as usize };
        let hw: usize = if self.opts.width / 2 < 0 { 0 } else { (self.opts.width / 2) as usize };
        let h: usize = if self.opts.height < 0 { 0 } else { self.opts.height as usize };
        SuperPlanes {
            y: self.y.as_slice(),
            y_stride: w,
            u: self.u.as_slice(),
            u_stride: hw,
            v: self.v.as_slice(),
            v_stride: hw,
            luma_w: w,
            luma_h: h,
            pel: self.opts.pel,
            levels: self.opts.levels,
            full: self.opts.full,
        }
    }

    /// The luma pyramid followed by the two chroma pyramids.
    pub fn bytes(&self) -> (r: Vec<u8>)
        ensures
            r@ == self.planes_spec().0 + self.planes_spec().1 + self.planes_spec().2,
            r@.len() == self.len_spec(),
    {
        let mut output: Vec<u8> = Vec::new();
        output.extend_from_slice(self.y.as_slice());
        output.extend_from_slice(self.u.as_slice());
        output.extend_from_slice(self.v.as_slice());
        output
    }
}

/// The analyser of a super clip built by a `SuperBuilder`: its search
/// options and the options of the clip.
pub struct Analyser {
    opts: AnalyseOpts,
    super_opts: SuperOpts,
}

/// Option values of which none is given.
pub open spec fn no_values() -> AnalyseValues {
    AnalyseValues {
        vectors: None,
        block_w: None,
        block_h: None,
        overlap: None,
        delta: None,
        lsad: None,
        pnew: None,
        pglobal: None,
        pzero: None,
        pnbour: None,
        prev: None,
        search_type: None,
        distance: None,
        coarse_type: None,
        coarse_distance: None,
        coarse_trymany: None,
        coarse_bad_sad: None,
        coarse_bad_range: None,
        fine_satd: None,
        coarse_satd: None,
        sort: None,
        refine_thsad: None,
        refine_type: None,
        refine_distance: None,
        refine_satd: None,
        levels: None,
    }
}

/// The search options of an analyser of clip options `so`: the default
/// options of the clip, with `bw` x `bh` blocks overlapping by (`ox`,
/// `oy`) in overlap mode `mode`, `vectors` as the fields asked for, the
/// automatic level count (at most the clip's, at least 1) and a lambda of
/// `31.25` per block sample.
pub open spec fn analyser_opts_spec(so: SuperOpts, bw: int, bh: int, mode: int, vectors: int, ox: int, oy: int) -> AnalyseOpts {
    let dims = match unpack_spec(pack_data_spec(so) as i64, Some(so)) {
        Some(d) => d,
        None => (0, 0, 0, 0, 0),
    };
    let base = values_opts(no_values(), dims, 4, 4, 80000, 0);
    let auto = auto_search_levels_spec(base.width as int, base.height as int, bw, bh, ox, oy);
    let levels = max1(if auto < base.super_levels { auto } else { base.super_levels as int });
    AnalyseOpts {
        vectors: vectors as i32,
        block_w: bw as i32,
        block_h: bh as i32,
        overlap_mode: mode as i32,
        overlap_x: ox as i32,
        overlap_y: oy as i32,
        levels: levels as i32,
        lambda: (bw * bh * 125 / 4) as i32,
        ..base
    }
}

/// Whether `b` is a block side the analyser takes: 4, 8, 16 or 32.
pub open spec fn block_side_ok(b: int) -> bool {
    b == 4 || b == 8 || b == 16 || b == 32
}

impl Analyser {
    pub closed spec fn opts_spec(&self) -> AnalyseOpts {
        self.opts
    }

    pub closed spec fn super_opts_spec(&self) -> SuperOpts {
        self.super_opts
    }

    /// An analyser of the clips that `super_builder` builds, with blocks
    /// of `block_width` x `block_height` (each 4, 8, 16 or 32), overlap
    /// mode `overlap_mode` and the fields `vectors` asks for (1 backward,
    /// 2 forward, 3 both).
    #[verifier::rlimit(40)]
    #[verifier::spinoff_prover]
    pub fn new(super_builder: &SuperBuilder, block_width: i32, block_height: i32, overlap_mode: i32, vectors: i32) -> (r: Result<Self, String>)
        requires
            super_builder.wf(),
            super_builder.opts_spec().width <= 0xffff && super_builder.opts_spec().height <= 0xffff,
        ensures
            !(block_side_ok(block_width as int) && block_side_ok(block_height as int))
                ==> (r matches Err(e) && e@ == "block dimensions must be 4, 8, 16 or 32"@),
            block_side_ok(block_width as int) && block_side_ok(block_height as int) && !(1 <= vectors <= 3)
                ==> (r matches Err(e) && e@ == "vectors must be 1, 2 or 3"@),
            block_side_ok(block_width as int) && block_side_ok(block_height as int) && 1 <= vectors <= 3 ==> match overlap_spec(block_width as int, block_height as int, overlap_mode as int) {
                None => r matches Err(e) && e@ == "SVAnalyse: overlap must be 0, 1 (=1/8*block), 2 (=1/4*block) or 3 (=1/2*block)"@,
                Some((ox, oy)) => r matches Ok(a) && a.super_opts_spec() == super_builder.opts_spec()
                    && a.opts_spec() == analyser_opts_spec(super_builder.opts_spec(), block_width as int, block_height as int,
                        overlap_mode as int, vectors as int, ox, oy),
            },
    {
        let bw_ok = block_width == 4 || block_width == 8 || block_width == 16 || block_width == 32;
        let bh_ok = block_height == 4 || block_height == 8 || block_height == 16 || block_height == 32;
        if !bw_ok || !bh_ok {
            return Err("block dimensions must be 4, 8, 16 or 32".to_owned());
        }
        if !(1 <= vectors && vectors <= 3) {
            return Err("vectors must be 1, 2 or 3".to_owned());
        }
        let (overlap_x, overlap_y) = match overlap_from_mode(block_width, block_height, overlap_mode) {
            Ok(o) => o,
            Err(e) => return Err(e),
        };
        let so = self_opts(super_builder);
        let values = AnalyseValues {
            vectors: None,
            block_w: None,
            block_h: None,
            overlap: None,
            delta: None,
            lsad: None,
            pnew: None,
            pglobal: None,
            pzero: None,
            pnbour: None,
            prev: None,
            search_type: None,
            distance: None,
            coarse_type: None,
            coarse_distance: None,
            coarse_trymany: None,
            coarse_bad_sad: None,
            coarse_bad_range: None,
            fine_satd: None,
            coarse_satd: None,
            sort: None,
            refine_thsad: None,
            refine_type: None,
            refine_distance: None,
            refine_satd: None,
            levels: None,
        };
        assert(values == no_values());
        let sdata = so.pack_data();
        proof {
            crate::analyse_opts::lemma_sdata_fields_small(sdata as u64);
        }
        let mut opts = match AnalyseOpts::from_values(&values, sdata, Some(&so), 80000, 0) {
            Ok(o) => o,
            Err(e) => return Err(e),
        };
        proof {
            lemma_levels_fit(opts.width as int, opts.height as int, block_width as int, block_height as int, overlap_x as int, overlap_y as int);
        }
        opts.vectors = vectors;
        opts.block_w = block_width;
        opts.block_h = block_height;
        opts.overlap_mode = overlap_mode;
        opts.overlap_x = overlap_x;
        opts.overlap_y = overlap_y;
        let auto = auto_search_levels(opts.width, opts.height, block_width, block_height, overlap_x, overlap_y);
        let capped = if auto < opts.super_levels { auto } else { opts.super_levels };
        opts.levels = if capped < 1 { 1 } else { capped };
        opts.lambda = block_width * block_height * 125 / 4;
        Ok(Analyser { opts, super_opts: so })
    }
}

impl Analyser {
    /// The search options.
    pub fn opts(&self) -> (r: AnalyseOpts)
        ensures
            r == self.opts_spec(),
    {
        self.opts
    }

    /// Whether both frames were built with the options of the analyser's
    /// clip (compared by their handles).
    pub fn matches(&self, current: &SuperFrame, reference: &SuperFrame) -> (r: bool)
        ensures
            r == (pack_data_spec(current.opts_spec()) as i64 == pack_data_spec(self.super_opts_spec()) as i64
                && pack_data_spec(reference.opts_spec()) as i64 == pack_data_spec(self.super_opts_spec()) as i64),
    {
        let own = self.super_opts.pack_data();
        current.opts.pack_data() == own && reference.opts.pack_data() == own
    }
}

/// The clip options of a builder.
fn self_opts(b: &SuperBuilder) -> (r: SuperOpts)
    ensures
        r == b.opts_spec(),
{
    b.opts
}

} // verus!
