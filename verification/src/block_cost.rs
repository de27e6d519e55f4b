//! The matching cost of one block against a reference: sums of absolute
//! differences (SAD) and 4x4 Hadamard costs (SATD) over a window of the
//! current and the reference plane, each sample position clamped into the
//! plane (or, for the current block of the SATD, zero outside it).
use vstd::prelude::*;
use crate::arith::{abs, clamp};
use crate::search_order::{hadamard4_satd, h_total, h_at, h_col_sum, hadamard_fits, edge_shift_spec, edge_shift_fits, edge_shift_origins, overshoot};
use crate::analyse_search::mv_bounds_spec;
use crate::analyse_search::{SuperPlanes, level_offset_spec, chroma_offset_spec, chroma_origin_spec, chroma_origins_after_luma_shift, lemma_shr1_floor};
use crate::super_opts::reduce_dim_spec;
use crate::arith::{lemma_and1_mod2, lemma_shr2_floor};

verus! {

/// The byte at `row`, `x` of a plane laid out with `stride`; `fallback`
/// outside the buffer.
pub open spec fn sample_spec(data: Seq<u8>, stride: int, row: int, x: int, fallback: int) -> int {
    let i = row * stride + x;
    if 0 <= i < data.len() { data[i] as int } else { fallback }
}

/// Reads the byte at `row`, `x` (see `sample_spec`).
pub fn sample(data: &[u8], stride: usize, row: usize, x: usize, fallback: u8) -> (r: u8)
    ensures
        r == sample_spec(data@, stride as int, row as int, x as int, fallback as int),
{
    let len = data.len();
    match row.checked_mul(stride) {
        Some(m) => match m.checked_add(x) {
            Some(i) => if i < len { data[i] } else { fallback },
            None => fallback,
        },
        None => {
            assert(row * stride + x >= data@.len()) by (nonlinear_arith)
                requires
                    row * stride > usize::MAX,
                    x >= 0,
                    data@.len() <= usize::MAX,
            ;
            assert(row * stride + x >= len);
            fallback
        },
    }
}

/// `v` clamped into `0 ..= size - 1` (to 0 for an empty size).
pub open spec fn edge_clamp(v: int, size: int) -> int {
    clamp(v, 0, if size - 1 < 0 { 0 } else { size - 1 })
}

/// Clamps `v` into the plane (see `edge_clamp`).
pub fn clamp_pos(v: i64, size: usize) -> (r: usize)
    requires
        size <= i32::MAX,
    ensures
        r == edge_clamp(v as int, size as int),
{
    let hi: i64 = if size == 0 { 0 } else { size as i64 - 1 };
    if v < 0 {
        0
    } else if v > hi {
        hi as usize
    } else {
        v as usize
    }
}

/// Where a block is compared: the first rows of the current and the
/// reference plane, the block's corner in each, and the plane's size.
/// With `zero_outside` the current samples outside the plane count as
/// zero; otherwise every position is clamped into the plane.
#[derive(Clone, Copy)]
pub struct Window {
    pub cur0: usize,
    pub ref0: usize,
    pub cx: i64,
    pub cy: i64,
    pub rx: i64,
    pub ry: i64,
    pub w: usize,
    pub h: usize,
    pub zero_outside: bool,
}

/// Whether the window's positions stay within `i32` for `rows` by `cols`
/// samples.
pub open spec fn window_ok(win: Window, rows: int, cols: int) -> bool {
    &&& win.w <= i32::MAX && win.h <= i32::MAX
    &&& i32::MIN <= win.cx <= i32::MAX && i32::MIN <= win.cy <= i32::MAX
    &&& i32::MIN <= win.rx <= i32::MAX && i32::MIN <= win.ry <= i32::MAX
    &&& 0 <= rows <= i32::MAX && 0 <= cols <= i32::MAX
    &&& win.cur0 + win.h <= usize::MAX && win.ref0 + win.h <= usize::MAX
}

/// The current sample at row `r`, column `c` of the window.
pub open spec fn win_cur(cur: Seq<u8>, cs: int, fb: int, win: Window, r: int, c: int) -> int {
    let y = win.cy + r;
    let x = win.cx + c;
    if win.zero_outside {
        if 0 <= y < win.h && 0 <= x < win.w { sample_spec(cur, cs, win.cur0 + y, x, fb) } else { 0 }
    } else {
        sample_spec(cur, cs, win.cur0 + edge_clamp(y, win.h as int), edge_clamp(x, win.w as int), fb)
    }
}

/// The reference sample at row `r`, column `c` of the window.
pub open spec fn win_ref(refd: Seq<u8>, rs: int, fb: int, win: Window, r: int, c: int) -> int {
    sample_spec(refd, rs, win.ref0 + edge_clamp(win.ry + r, win.h as int), edge_clamp(win.rx + c, win.w as int), fb)
}

/// The sum of the absolute differences in row `r` over the first `n`
/// columns.
pub open spec fn sad_row(cur: Seq<u8>, cs: int, refd: Seq<u8>, rs: int, fb: int, win: Window, r: int, n: int) -> int
    decreases n,
{
    if n <= 0 {
        0
    } else {
        sad_row(cur, cs, refd, rs, fb, win, r, n - 1) + abs(win_cur(cur, cs, fb, win, r, n - 1) - win_ref(refd, rs, fb, win, r, n - 1))
    }
}

/// The sum of the absolute differences over the first `rows` rows and
/// `cols` columns.
pub open spec fn sad_sum(cur: Seq<u8>, cs: int, refd: Seq<u8>, rs: int, fb: int, win: Window, rows: int, cols: int) -> int
    decreases rows,
{
    if rows <= 0 {
        0
    } else {
        sad_sum(cur, cs, refd, rs, fb, win, rows - 1, cols) + sad_row(cur, cs, refd, rs, fb, win, rows - 1, cols)
    }
}

/// `v` saturated to `u32`.
pub open spec fn sat_u32(v: int) -> int {
    if v > u32::MAX { u32::MAX as int } else { v }
}

proof fn lemma_sad_row_nonneg(cur: Seq<u8>, cs: int, refd: Seq<u8>, rs: int, fb: int, win: Window, r: int, n: int)
    ensures
        sad_row(cur, cs, refd, rs, fb, win, r, n) >= 0,
    decreases n,
{
    if n > 0 {
        lemma_sad_row_nonneg(cur, cs, refd, rs, fb, win, r, n - 1);
    }
}

/// Reads the current and the reference sample at row `r`, column `c`.
fn window_pair(cur: &[u8], cs: usize, refd: &[u8], rs: usize, fb: u8, win: Window, r: usize, c: usize) -> (res: (u8, u8))
    requires
        window_ok(win, r as int + 1, c as int + 1),
    ensures
        res.0 == win_cur(cur@, cs as int, fb as int, win, r as int, c as int),
        res.1 == win_ref(refd@, rs as int, fb as int, win, r as int, c as int),
{
    let y = win.cy + r as i64;
    let x = win.cx + c as i64;
    let a = if win.zero_outside {
        if 0 <= y && y < win.h as i64 && 0 <= x && x < win.w as i64 {
            sample(cur, cs, win.cur0 + y as usize, x as usize, fb)
        } else {
            0
        }
    } else {
        let yy = clamp_pos(y, win.h);
        let xx = clamp_pos(x, win.w);
        sample(cur, cs, win.cur0 + yy, xx, fb)
    };
    let yy = clamp_pos(win.ry + r as i64, win.h);
    let xx = clamp_pos(win.rx + c as i64, win.w);
    let b = sample(refd, rs, win.ref0 + yy, xx, fb);
    (a, b)
}

/// The SAD of the window over `rows` by `cols` samples, saturated to
/// `u32`.
pub fn window_sad(cur: &[u8], cs: usize, refd: &[u8], rs: usize, fb: u8, win: Window, rows: usize, cols: usize) -> (r: u32)
    requires
        window_ok(win, rows as int, cols as int),
    ensures
        r == sat_u32(sad_sum(cur@, cs as int, refd@, rs as int, fb as int, win, rows as int, cols as int)),
{
    let mut sad: u32 = 0;
    let mut row: usize = 0;
    while row < rows
        invariant
            0 <= row <= rows,
            window_ok(win, rows as int, cols as int),
            sad == sat_u32(sad_sum(cur@, cs as int, refd@, rs as int, fb as int, win, row as int, cols as int)),
            sad_sum(cur@, cs as int, refd@, rs as int, fb as int, win, row as int, cols as int) >= 0,
        decreases rows - row,
    {
        let ghost before = sad_sum(cur@, cs as int, refd@, rs as int, fb as int, win, row as int, cols as int);
        let mut col: usize = 0;
        while col < cols
            invariant
                0 <= col <= cols,
                row < rows,
                window_ok(win, rows as int, cols as int),
                before >= 0,
                sad == sat_u32(before + sad_row(cur@, cs as int, refd@, rs as int, fb as int, win, row as int, col as int)),
                sad_row(cur@, cs as int, refd@, rs as int, fb as int, win, row as int, col as int) >= 0,
            decreases cols - col,
        {
            let (a, b) = window_pair(cur, cs, refd, rs, fb, win, row, col);
            let d: u32 = if a > b { (a - b) as u32 } else { (b - a) as u32 };
            sad = sad.saturating_add(d);
            col = col + 1;
        }
        proof {
            lemma_sad_row_nonneg(cur@, cs as int, refd@, rs as int, fb as int, win, row as int, cols as int);
        }
        row = row + 1;
    }
    sad
}


/// The signed difference at row `r`, column `c` of the window.
pub open spec fn win_diff(cur: Seq<u8>, cs: int, refd: Seq<u8>, rs: int, fb: int, win: Window, r: int, c: int) -> int {
    win_cur(cur, cs, fb, win, r, c) - win_ref(refd, rs, fb, win, r, c)
}

/// Row `i` of the first (row) pass of the 4x4 Hadamard transform of `f`.
pub open spec fn fh_row(f: spec_fn(int, int) -> int, i: int) -> (int, int, int, int) {
    let s0 = f(i, 0) + f(i, 1);
    let s1 = f(i, 0) - f(i, 1);
    let s2 = f(i, 2) + f(i, 3);
    let s3 = f(i, 2) - f(i, 3);
    (s0 + s2, s1 + s3, s0 - s2, s1 - s3)
}

/// Entry `j` of row `i` of the first pass.
pub open spec fn fh_at(f: spec_fn(int, int) -> int, i: int, j: int) -> int {
    let r = fh_row(f, i);
    if j == 0 { r.0 } else if j == 1 { r.1 } else if j == 2 { r.2 } else { r.3 }
}

/// The absolute values of the second (column) pass for column `j`, summed.
pub open spec fn fh_col_sum(f: spec_fn(int, int) -> int, j: int) -> int {
    let s0 = fh_at(f, 0, j) + fh_at(f, 1, j);
    let s1 = fh_at(f, 0, j) - fh_at(f, 1, j);
    let s2 = fh_at(f, 2, j) + fh_at(f, 3, j);
    let s3 = fh_at(f, 2, j) - fh_at(f, 3, j);
    abs(s0 + s2) + abs(s1 + s3) + abs(s0 - s2) + abs(s1 - s3)
}

/// The sum of the first `k` column sums: `fh_total(f, 4) / 2` is the SATD
/// of the 4x4 block of differences `f`.
pub open spec fn fh_total(f: spec_fn(int, int) -> int, k: int) -> int
    decreases k,
{
    if k <= 0 { 0 } else { fh_total(f, k - 1) + fh_col_sum(f, k - 1) }
}

/// The Hadamard cost of an array of differences is that of the function
/// that gives its entries.
proof fn lemma_fh_total(d: [[i32; 4]; 4], f: spec_fn(int, int) -> int)
    requires
        forall|i: int, j: int| 0 <= i < 4 && 0 <= j < 4 ==> #[trigger] d[i][j] == f(i, j),
    ensures
        h_total(d, 4) == fh_total(f, 4),
{
    assert(d[0][0] == f(0, 0) && d[0][1] == f(0, 1) && d[0][2] == f(0, 2) && d[0][3] == f(0, 3));
    assert(d[1][0] == f(1, 0) && d[1][1] == f(1, 1) && d[1][2] == f(1, 2) && d[1][3] == f(1, 3));
    assert(d[2][0] == f(2, 0) && d[2][1] == f(2, 1) && d[2][2] == f(2, 2) && d[2][3] == f(2, 3));
    assert(d[3][0] == f(3, 0) && d[3][1] == f(3, 1) && d[3][2] == f(3, 2) && d[3][3] == f(3, 3));
    assert forall|i: int, j: int| 0 <= i < 4 && 0 <= j < 4 implies #[trigger] h_at(d, i, j) == fh_at(f, i, j) by {}
    assert(h_col_sum(d, 0) == fh_col_sum(f, 0));
    assert(h_col_sum(d, 1) == fh_col_sum(f, 1));
    assert(h_col_sum(d, 2) == fh_col_sum(f, 2));
    assert(h_col_sum(d, 3) == fh_col_sum(f, 3));
    assert(h_total(d, 0) == 0 && fh_total(f, 0) == 0);
    assert(h_total(d, 1) == fh_total(f, 1));
    assert(h_total(d, 2) == fh_total(f, 2));
    assert(h_total(d, 3) == fh_total(f, 3));
}

/// Hadamard costs are not negative.
proof fn lemma_fh_total_nonneg(f: spec_fn(int, int) -> int, k: int)
    ensures
        fh_total(f, k) >= 0,
    decreases k,
{
    if k > 0 {
        lemma_fh_total_nonneg(f, k - 1);
    }
}

/// Differences of bytes keep every step of the Hadamard cost in `i32`.
proof fn lemma_byte_diffs_fit(d: [[i32; 4]; 4])
    requires
        forall|i: int, j: int| 0 <= i < 4 && 0 <= j < 4 ==> -255 <= #[trigger] d[i][j] <= 255,
    ensures
        hadamard_fits(d),
        h_total(d, 4) >= 0,
{
    assert(-255 <= d[0][0] <= 255 && -255 <= d[0][1] <= 255 && -255 <= d[0][2] <= 255 && -255 <= d[0][3] <= 255);
    assert(-255 <= d[1][0] <= 255 && -255 <= d[1][1] <= 255 && -255 <= d[1][2] <= 255 && -255 <= d[1][3] <= 255);
    assert(-255 <= d[2][0] <= 255 && -255 <= d[2][1] <= 255 && -255 <= d[2][2] <= 255 && -255 <= d[2][3] <= 255);
    assert(-255 <= d[3][0] <= 255 && -255 <= d[3][1] <= 255 && -255 <= d[3][2] <= 255 && -255 <= d[3][3] <= 255);
    assert forall|k: int| 0 <= k <= 4 implies #[trigger] h_total(d, k) <= i32::MAX && h_total(d, k) >= 0 by {
        lemma_h_total_small(d, k);
    }
}

/// Each column of the Hadamard cost of byte differences is at most
/// `16 * 4 * 255`.
proof fn lemma_h_col_small(d: [[i32; 4]; 4], j: int)
    requires
        0 <= j < 4,
        forall|i: int, j: int| 0 <= i < 4 && 0 <= j < 4 ==> -255 <= #[trigger] d[i][j] <= 255,
    ensures
        0 <= h_col_sum(d, j) <= 16320,
{
    assert(-255 <= d[0][0] <= 255 && -255 <= d[0][1] <= 255 && -255 <= d[0][2] <= 255 && -255 <= d[0][3] <= 255);
    assert(-255 <= d[1][0] <= 255 && -255 <= d[1][1] <= 255 && -255 <= d[1][2] <= 255 && -255 <= d[1][3] <= 255);
    assert(-255 <= d[2][0] <= 255 && -255 <= d[2][1] <= 255 && -255 <= d[2][2] <= 255 && -255 <= d[2][3] <= 255);
    assert(-255 <= d[3][0] <= 255 && -255 <= d[3][1] <= 255 && -255 <= d[3][2] <= 255 && -255 <= d[3][3] <= 255);
    assert(-1020 <= h_at(d, 0, j) <= 1020);
    assert(-1020 <= h_at(d, 1, j) <= 1020);
    assert(-1020 <= h_at(d, 2, j) <= 1020);
    assert(-1020 <= h_at(d, 3, j) <= 1020);
}

/// The Hadamard cost of byte differences stays small.
proof fn lemma_h_total_small(d: [[i32; 4]; 4], k: int)
    requires
        0 <= k <= 4,
        forall|i: int, j: int| 0 <= i < 4 && 0 <= j < 4 ==> -255 <= #[trigger] d[i][j] <= 255,
    ensures
        0 <= h_total(d, k) <= 16320 * k,
    decreases k,
{
    if k > 0 {
        lemma_h_total_small(d, k - 1);
        lemma_h_col_small(d, k - 1);
    }
}

/// The SATD of the 4x4 tile at tile row `ty`, tile column `tx`.
#[verifier::opaque]
pub open spec fn tile_satd(cur: Seq<u8>, cs: int, refd: Seq<u8>, rs: int, fb: int, win: Window, ty: int, tx: int) -> int {
    fh_total(|i: int, j: int| win_diff(cur, cs, refd, rs, fb, win, ty * 4 + i, tx * 4 + j), 4) / 2
}

/// The SATD of the first `n` tiles of tile row `ty`.
pub open spec fn satd_row(cur: Seq<u8>, cs: int, refd: Seq<u8>, rs: int, fb: int, win: Window, ty: int, n: int) -> int
    decreases n,
{
    if n <= 0 {
        0
    } else {
        satd_row(cur, cs, refd, rs, fb, win, ty, n - 1) + tile_satd(cur, cs, refd, rs, fb, win, ty, n - 1)
    }
}

/// The SATD of the first `rows` tile rows, `cols` tiles each.
pub open spec fn satd_sum(cur: Seq<u8>, cs: int, refd: Seq<u8>, rs: int, fb: int, win: Window, rows: int, cols: int) -> int
    decreases rows,
{
    if rows <= 0 {
        0
    } else {
        satd_sum(cur, cs, refd, rs, fb, win, rows - 1, cols) + satd_row(cur, cs, refd, rs, fb, win, rows - 1, cols)
    }
}

/// Row `r` of the differences of tile (`ty`, `tx`).
fn tile_row(cur: &[u8], cs: usize, refd: &[u8], rs: usize, fb: u8, win: Window, ty: usize, tx: usize, r: usize) -> (res: [i32; 4])
    requires
        r < 4,
        window_ok(win, ty * 4 + r + 1, tx * 4 + 4),
    ensures
        forall|j: int| 0 <= j < 4 ==> #[trigger] res[j] == win_diff(cur@, cs as int, refd@, rs as int, fb as int, win, ty * 4 + r, tx * 4 + j),
        forall|j: int| 0 <= j < 4 ==> -255 <= #[trigger] res[j] <= 255,
{
    let y = ty * 4 + r;
    let (a0, b0) = window_pair(cur, cs, refd, rs, fb, win, y, tx * 4);
    let (a1, b1) = window_pair(cur, cs, refd, rs, fb, win, y, tx * 4 + 1);
    let (a2, b2) = window_pair(cur, cs, refd, rs, fb, win, y, tx * 4 + 2);
    let (a3, b3) = window_pair(cur, cs, refd, rs, fb, win, y, tx * 4 + 3);
    let res = [a0 as i32 - b0 as i32, a1 as i32 - b1 as i32, a2 as i32 - b2 as i32, a3 as i32 - b3 as i32];
    assert(res[0] == a0 - b0 && res[1] == a1 - b1 && res[2] == a2 - b2 && res[3] == a3 - b3);
    res
}

/// The SATD of tile (`ty`, `tx`).
fn window_tile_satd(cur: &[u8], cs: usize, refd: &[u8], rs: usize, fb: u8, win: Window, ty: usize, tx: usize) -> (res: u32)
    requires
        window_ok(win, ty * 4 + 4, tx * 4 + 4),
    ensures
        res == tile_satd(cur@, cs as int, refd@, rs as int, fb as int, win, ty as int, tx as int),
{
    let d0 = tile_row(cur, cs, refd, rs, fb, win, ty, tx, 0);
    let d1 = tile_row(cur, cs, refd, rs, fb, win, ty, tx, 1);
    let d2 = tile_row(cur, cs, refd, rs, fb, win, ty, tx, 2);
    let d3 = tile_row(cur, cs, refd, rs, fb, win, ty, tx, 3);
    let diff = [d0, d1, d2, d3];
    let ghost f = |i: int, j: int| win_diff(cur@, cs as int, refd@, rs as int, fb as int, win, ty * 4 + i, tx * 4 + j);
    proof {
        assert(diff[0] == d0 && diff[1] == d1 && diff[2] == d2 && diff[3] == d3);
        assert forall|i: int, j: int| 0 <= i < 4 && 0 <= j < 4 implies #[trigger] diff[i][j] == f(i, j) && -255 <= diff[i][j] <= 255 by {
            if i == 0 {
                assert(diff[i][j] == d0[j]);
            } else if i == 1 {
                assert(diff[i][j] == d1[j]);
            } else if i == 2 {
                assert(diff[i][j] == d2[j]);
            } else {
                assert(diff[i][j] == d3[j]);
            }
        }
        lemma_fh_total(diff, f);
        lemma_byte_diffs_fit(diff);
        reveal(tile_satd);
    }
    hadamard4_satd(diff)
}

proof fn lemma_satd_row_nonneg(cur: Seq<u8>, cs: int, refd: Seq<u8>, rs: int, fb: int, win: Window, ty: int, n: int)
    ensures
        satd_row(cur, cs, refd, rs, fb, win, ty, n) >= 0,
    decreases n,
{
    if n > 0 {
        lemma_satd_row_nonneg(cur, cs, refd, rs, fb, win, ty, n - 1);
        lemma_fh_total_nonneg(|i: int, j: int| win_diff(cur, cs, refd, rs, fb, win, ty * 4 + i, (n - 1) * 4 + j), 4);
        reveal(tile_satd);
    }
}

/// The SATD of the window over `tiles` by `tiles` tiles, saturated to
/// `u32`.
pub fn window_satd(cur: &[u8], cs: usize, refd: &[u8], rs: usize, fb: u8, win: Window, tiles: usize) -> (r: u32)
    requires
        window_ok(win, tiles * 4, tiles * 4),
    ensures
        r == sat_u32(satd_sum(cur@, cs as int, refd@, rs as int, fb as int, win, tiles as int, tiles as int)),
{
    let mut total: u32 = 0;
    let mut ty: usize = 0;
    while ty < tiles
        invariant
            0 <= ty <= tiles,
            window_ok(win, tiles * 4, tiles * 4),
            total == sat_u32(satd_sum(cur@, cs as int, refd@, rs as int, fb as int, win, ty as int, tiles as int)),
            satd_sum(cur@, cs as int, refd@, rs as int, fb as int, win, ty as int, tiles as int) >= 0,
        decreases tiles - ty,
    {
        let ghost before = satd_sum(cur@, cs as int, refd@, rs as int, fb as int, win, ty as int, tiles as int);
        let mut tx: usize = 0;
        while tx < tiles
            invariant
                0 <= tx <= tiles,
                ty < tiles,
                window_ok(win, tiles * 4, tiles * 4),
                before >= 0,
                total == sat_u32(before + satd_row(cur@, cs as int, refd@, rs as int, fb as int, win, ty as int, tx as int)),
                satd_row(cur@, cs as int, refd@, rs as int, fb as int, win, ty as int, tx as int) >= 0,
            decreases tiles - tx,
        {
            let t = window_tile_satd(cur, cs, refd, rs, fb, win, ty, tx);
            total = total.saturating_add(t);
            tx = tx + 1;
        }
        proof {
            lemma_satd_row_nonneg(cur@, cs as int, refd@, rs as int, fb as int, win, ty as int, tiles as int);
        }
        ty = ty + 1;
    }
    total
}


/// The smaller of `a` and `b`.
pub open spec fn min_of(a: int, b: int) -> int {
    if a < b { a } else { b }
}

/// How many of `n` samples from `p` on lie before `size`.
pub open spec fn run_inside(n: int, p: int, size: int) -> int {
    if size - p <= 0 { 0 } else { min_of(n, size - p) }
}

/// Width of pyramid level `level` of `p`.
pub open spec fn level_w(p: &SuperPlanes, level: int) -> int {
    reduce_dim_spec(p.luma_w as int, level)
}

/// Height of pyramid level `level` of `p`.
pub open spec fn level_h(p: &SuperPlanes, level: int) -> int {
    reduce_dim_spec(p.luma_h as int, level)
}

/// First luma row of level `level` of `p`.
pub open spec fn y_off(p: &SuperPlanes, level: int) -> int {
    level_offset_spec(p.luma_h as int, p.pel as int, p.full, level)
}

/// First chroma row of level `level` of `p`.
pub open spec fn c_off(p: &SuperPlanes, level: int) -> int {
    chroma_offset_spec(p.luma_h as int, p.pel as int, p.full, level)
}

/// A block search small enough for its arithmetic: at most 16 levels, the
/// block's corner and size at most 65536, a pel of 1 to 4.
pub open spec fn block_small(level: int, px: int, py: int, bw: int, bh: int, pel: int) -> bool {
    &&& 0 <= level <= 16
    &&& 0 <= px <= 0x10000 && 0 <= py <= 0x10000
    &&& 0 <= bw <= 0x10000 && 0 <= bh <= 0x10000
    &&& 1 <= pel <= 4
}

/// A vector of at most `2^20` in each direction.
pub open spec fn mv_small(mvx: int, mvy: int) -> bool {
    -0x100000 <= mvx <= 0x100000 && -0x100000 <= mvy <= 0x100000
}

/// What the matching costs need: small planes and block, and a level of
/// at least 2 x 2 samples.
pub open spec fn cost_ok(src: &SuperPlanes, level: int, px: int, py: int, bw: int, bh: int, pel: int) -> bool {
    &&& src.small()
    &&& block_small(level, px, py, bw, bh, pel)
    &&& level_w(src, level) >= 2
    &&& level_h(src, level) >= 2
}

/// The sub-sample plane index part and the whole-sample vector along one
/// axis of a luma vector.
pub open spec fn luma_axis(level: int, pel: int, mv: int) -> (int, int) {
    if level == 0 && pel >= 2 { (mv % 2, mv / 2) } else { (0, mv) }
}

/// Whether the SATD is taken: asked for, and a square block of 4, 8, 16
/// or 32.
pub open spec fn satd_square(use_satd: bool, bw: int, bh: int) -> bool {
    use_satd && (bw == 4 || bw == 8 || bw == 16 || bw == 32) && bw == bh
}

/// The window of a luma comparison of the block at (`px`, `py`) with
/// vector (`mvx`, `mvy`).
pub open spec fn luma_window(src: &SuperPlanes, level: int, px: int, py: int, mvx: int, mvy: int, pel: int, zero_outside: bool) -> Window {
    let (sx, mx) = luma_axis(level, pel, mvx);
    let (sy, my) = luma_axis(level, pel, mvy);
    Window {
        cur0: y_off(src, level) as usize,
        ref0: (y_off(src, level) + (sy * pel + sx) * level_h(src, level)) as usize,
        cx: px as i64,
        cy: py as i64,
        rx: (px + mx) as i64,
        ry: (py + my) as i64,
        w: level_w(src, level) as usize,
        h: level_h(src, level) as usize,
        zero_outside,
    }
}

/// The luma cost of the block inside the level: the SATD of square blocks
/// when asked for (current samples outside the level count as zero),
/// else the SAD over the part of the block inside the level; reference
/// positions clamped into the level.
pub open spec fn luma_interior_spec(src: &SuperPlanes, refp: &SuperPlanes, level: int, px: int, py: int, bw: int, bh: int, mvx: int, mvy: int, use_satd: bool, pel: int) -> int {
    if satd_square(use_satd, bw, bh) {
        sat_u32(satd_sum(src.y@, src.y_stride as int, refp.y@, refp.y_stride as int, 0, luma_window(src, level, px, py, mvx, mvy, pel, true), bw / 4, bw / 4))
    } else {
        sat_u32(sad_sum(src.y@, src.y_stride as int, refp.y@, refp.y_stride as int, 0, luma_window(src, level, px, py, mvx, mvy, pel, false),
            run_inside(bh, py, level_h(src, level)), run_inside(bw, px, level_w(src, level))))
    }
}

/// The SATD of an `n` x `n` block whose current samples are zero outside
/// the `lw` x `lh` plane and whose reference positions are clamped into it.
pub fn satd_luma_clamp(
    src: &SuperPlanes,
    refp: &SuperPlanes,
    cur_row0: usize,
    ref_row0: usize,
    px: usize,
    py: usize,
    mv_x: i32,
    mv_y: i32,
    lw: usize,
    lh: usize,
    n: usize,
) -> (r: u32)
    requires
        px <= 0x10000 && py <= 0x10000,
        1 <= lw <= 0x10000 && 1 <= lh <= 0x10000,
        n <= 32,
        -0x100000 <= mv_x <= 0x100000 && -0x100000 <= mv_y <= 0x100000,
        cur_row0 + lh <= usize::MAX && ref_row0 + lh <= usize::MAX,
    ensures
        r == sat_u32(satd_sum(src.y@, src.y_stride as int, refp.y@, refp.y_stride as int, 0,
            Window { cur0: cur_row0, ref0: ref_row0, cx: px as i64, cy: py as i64, rx: (px + mv_x) as i64, ry: (py + mv_y) as i64, w: lw, h: lh, zero_outside: true },
            n as int / 4, n as int / 4)),
{
    let win = Window {
        cur0: cur_row0,
        ref0: ref_row0,
        cx: px as i64,
        cy: py as i64,
        rx: px as i64 + mv_x as i64,
        ry: py as i64 + mv_y as i64,
        w: lw,
        h: lh,
        zero_outside: true,
    };
    window_satd(src.y, src.y_stride, refp.y, refp.y_stride, 0, win, n / 4)
}

/// The luma cost of the block at (`px`, `py`) for vector (`mvx`, `mvy`)
/// inside the level (see `luma_interior_spec`).
pub fn block_cost_luma_interior(
    src: &SuperPlanes,
    refp: &SuperPlanes,
    level: i32,
    px: i32,
    py: i32,
    bw: usize,
    bh: usize,
    mvx: i32,
    mvy: i32,
    use_satd: bool,
    pel: i32,
) -> (r: u32)
    requires
        cost_ok(src, level as int, px as int, py as int, bw as int, bh as int, pel as int),
        mv_small(mvx as int, mvy as int),
    ensures
        r == luma_interior_spec(src, refp, level as int, px as int, py as int, bw as int, bh as int, mvx as int, mvy as int, use_satd, pel as int),
{
    proof {
        src.lemma_small_geometry(level as int);
        crate::super_build::lemma_reduce_bounds(src.luma_w as int, level as int);
        crate::super_build::lemma_reduce_bounds(src.luma_h as int, level as int);
        lemma_and1_mod2(mvx);
        lemma_and1_mod2(mvy);
        lemma_shr1_floor(mvx);
        lemma_shr1_floor(mvy);
    }
    let (lw, lh) = src.level_size(level);
    let y_off = src.level_y_offset(level);
    let (sub_x, sub_y, mx, my) = if level == 0 && pel >= 2 {
        (mvx & 1, mvy & 1, mvx >> 1u32, mvy >> 1u32)
    } else {
        (0i32, 0i32, mvx, mvy)
    };
    proof {
        assert(0 <= sub_y <= 1 && 0 <= sub_x <= 1);
        assert(0 <= sub_y * pel <= 4) by (nonlinear_arith)
            requires
                0 <= sub_y <= 1,
                1 <= pel <= 4,
        ;
    }
    let sub_idx = (sub_y * pel + sub_x) as usize;
    proof {
        assert(sub_idx <= 5);
        assert(sub_idx * lh <= 5 * 0x10000) by (nonlinear_arith)
            requires
                sub_idx <= 5,
                lh <= 0x10000,
        ;
    }
    let cur_row0 = y_off;
    let ref_row0 = y_off + sub_idx * lh;
    let ghost win_spec = luma_window(src, level as int, px as int, py as int, mvx as int, mvy as int, pel as int, false);
    assert(ref_row0 == win_spec.ref0);
    if use_satd && (bw == 4 || bw == 8 || bw == 16 || bw == 32) && (bh == 4 || bh == 8 || bh == 16 || bh == 32) && bw == bh {
        satd_luma_clamp(src, refp, cur_row0, ref_row0, px as usize, py as usize, mx, my, lw, lh, bw)
    } else {
        let rows = if lh > py as usize {
            if bh < lh - py as usize { bh } else { lh - py as usize }
        } else {
            0
        };
        let cols = if lw > px as usize {
            if bw < lw - px as usize { bw } else { lw - px as usize }
        } else {
            0
        };
        let win = Window {
            cur0: cur_row0,
            ref0: ref_row0,
            cx: px as i64,
            cy: py as i64,
            rx: px as i64 + mx as i64,
            ry: py as i64 + my as i64,
            w: lw,
            h: lh,
            zero_outside: false,
        };
        window_sad(src.y, src.y_stride, refp.y, refp.y_stride, 0, win, rows, cols)
    }
}


proof fn lemma_sad_sum_nonneg(cur: Seq<u8>, cs: int, refd: Seq<u8>, rs: int, fb: int, win: Window, rows: int, cols: int)
    ensures
        sad_sum(cur, cs, refd, rs, fb, win, rows, cols) >= 0,
    decreases rows,
{
    if rows > 0 {
        lemma_sad_sum_nonneg(cur, cs, refd, rs, fb, win, rows - 1, cols);
        lemma_sad_row_nonneg(cur, cs, refd, rs, fb, win, rows - 1, cols);
    }
}

/// The chroma cost of a U and a V SAD: their sum, times 4, saturated.
pub open spec fn uv_cost(u: int, v: int) -> int {
    sat_u32(4 * sat_u32(u + v))
}

/// Adds two saturated SADs and scales by 4 (see `uv_cost`).
fn combine_uv(u: u32, v: u32, Ghost(su): Ghost<int>, Ghost(sv): Ghost<int>) -> (r: u32)
    requires
        su >= 0 && sv >= 0,
        u == sat_u32(su),
        v == sat_u32(sv),
    ensures
        r == uv_cost(su, sv),
{
    let t = u.saturating_add(v);
    assert(t == sat_u32(su + sv));
    if t > u32::MAX / 4 {
        u32::MAX
    } else {
        t * 4
    }
}

/// The window of the chroma comparison for the luma block at (`px`, `py`)
/// with vector (`mvx`, `mvy`) in an `lw` x `lh` luma level.
pub open spec fn chroma_window(src: &SuperPlanes, level: int, pel: int, mvx: int, mvy: int, px: int, py: int, lw: int, lh: int) -> Window {
    let sub = level == 0 && pel >= 2;
    let csub = if sub { (mvy % 2) * pel + mvx % 2 } else { 0 };
    let mcx = if sub { mvx / 4 } else { mvx / 2 };
    let mcy = if sub { mvy / 4 } else { mvy / 2 };
    Window {
        cur0: c_off(src, level) as usize,
        ref0: (c_off(src, level) + (if sub { csub * (lh / 2) } else { 0 })) as usize,
        cx: (px / 2) as i64,
        cy: (py / 2) as i64,
        rx: (px / 2 + mcx) as i64,
        ry: (py / 2 + mcy) as i64,
        w: (lw / 2) as usize,
        h: (lh / 2) as usize,
        zero_outside: false,
    }
}

/// The chroma cost of the block: the U and V SADs over the part of the
/// half-size block inside the half-size level, reference positions
/// clamped (samples outside the buffers count as 128), summed and scaled
/// by 4.
pub open spec fn chroma_spec(src: &SuperPlanes, refp: &SuperPlanes, level: int, pel: int, mvx: int, mvy: int, px: int, py: int, bw: int, bh: int, lw: int, lh: int) -> int {
    let win = chroma_window(src, level, pel, mvx, mvy, px, py, lw, lh);
    let rows = run_inside(bh / 2, py / 2, lh / 2);
    let cols = run_inside(bw / 2, px / 2, lw / 2);
    uv_cost(
        sad_sum(src.u@, src.u_stride as int, refp.u@, refp.u_stride as int, 128, win, rows, cols),
        sad_sum(src.v@, src.v_stride as int, refp.v@, refp.v_stride as int, 128, win, rows, cols),
    )
}

/// The chroma cost of the block (see `chroma_spec`).
pub fn chroma_sad_x4(
    src: &SuperPlanes,
    refp: &SuperPlanes,
    level: i32,
    pel: i32,
    mvx: i32,
    mvy: i32,
    px: usize,
    py: usize,
    bw: usize,
    bh: usize,
    lw: usize,
    lh: usize,
) -> (r: u32)
    requires
        src.small(),
        block_small(level as int, px as int, py as int, bw as int, bh as int, pel as int),
        mv_small(mvx as int, mvy as int),
        2 <= lw <= 0x10000 && 2 <= lh <= 0x10000,
    ensures
        r == chroma_spec(src, refp, level as int, pel as int, mvx as int, mvy as int, px as int, py as int, bw as int, bh as int, lw as int, lh as int),
{
    proof {
        src.lemma_small_geometry(level as int);
        lemma_and1_mod2(mvx);
        lemma_and1_mod2(mvy);
        lemma_shr1_floor(mvx);
        lemma_shr1_floor(mvy);
        lemma_shr2_floor(mvx);
        lemma_shr2_floor(mvy);
    }
    let cw = bw / 2;
    let ch = bh / 2;
    let cpx = px / 2;
    let cpy = py / 2;
    let clw = lw / 2;
    let clh = lh / 2;
    let c_off = src.chroma_level_offset(level);
    let (c_sub_idx, mv_cx, mv_cy) = if level == 0 && pel >= 2 {
        let sx = mvx & 1;
        let sy = mvy & 1;
        proof {
            assert(0 <= sy * pel <= 4) by (nonlinear_arith)
                requires
                    0 <= sy <= 1,
                    1 <= pel <= 4,
            ;
        }
        (((sy * pel) + sx) as usize, mvx >> 2u32, mvy >> 2u32)
    } else {
        (0usize, mvx >> 1u32, mvy >> 1u32)
    };
    proof {
        assert(c_sub_idx * clh <= 5 * 0x8000) by (nonlinear_arith)
            requires
                c_sub_idx <= 5,
                clh <= 0x8000,
        ;
    }
    let c_ref = c_off + if level == 0 && pel > 1 { c_sub_idx * clh } else { 0 };
    let rows = if clh > cpy {
        if ch < clh - cpy { ch } else { clh - cpy }
    } else {
        0
    };
    let cols = if clw > cpx {
        if cw < clw - cpx { cw } else { clw - cpx }
    } else {
        0
    };
    let win = Window {
        cur0: c_off,
        ref0: c_ref,
        cx: cpx as i64,
        cy: cpy as i64,
        rx: cpx as i64 + mv_cx as i64,
        ry: cpy as i64 + mv_cy as i64,
        w: clw,
        h: clh,
        zero_outside: false,
    };
    assert(win == chroma_window(src, level as int, pel as int, mvx as int, mvy as int, px as int, py as int, lw as int, lh as int));
    let u = window_sad(src.u, src.u_stride, refp.u, refp.u_stride, 128, win, rows, cols);
    let v = window_sad(src.v, src.v_stride, refp.v, refp.v_stride, 128, win, rows, cols);
    proof {
        lemma_sad_sum_nonneg(src.u@, src.u_stride as int, refp.u@, refp.u_stride as int, 128, win, rows as int, cols as int);
        lemma_sad_sum_nonneg(src.v@, src.v_stride as int, refp.v@, refp.v_stride as int, 128, win, rows as int, cols as int);
    }
    combine_uv(
        u,
        v,
        Ghost(sad_sum(src.u@, src.u_stride as int, refp.u@, refp.u_stride as int, 128, win, rows as int, cols as int)),
        Ghost(sad_sum(src.v@, src.v_stride as int, refp.v@, refp.v_stride as int, 128, win, rows as int, cols as int)),
    )
}


/// Small sizes keep `edge_shift_origins` in range, and what it gives small.
pub proof fn lemma_edge_fits(px: int, py: int, mvx: int, mvy: int, bw: int, bh: int, lw: int, lh: int, pel: int)
    requires
        0 <= px <= 0x10000 && 0 <= py <= 0x10000,
        0 <= bw <= 0x10000 && 0 <= bh <= 0x10000,
        0 <= lw <= 0x10000 && 0 <= lh <= 0x10000,
        1 <= pel <= 4,
        mv_small(mvx, mvy),
    ensures
        edge_shift_fits(px, py, mvx, mvy, bw, bh, lw, lh, pel),
        edge_shift_spec(px, py, mvx, mvy, bw, bh, lw, lh, pel) matches Some((cx, cy, rx, ry)) ==>
            0 <= cx <= 0x10000 && 0 <= cy <= 0x10000 && -0x200000 <= rx <= 0x200000 && -0x200000 <= ry <= 0x200000,
{
    let rx = lw - px - bw;
    let ry = lh - py - bh;
    let rxp = if rx < 0 { 0 } else { rx };
    let ryp = if ry < 0 { 0 } else { ry };
    assert(0 <= pel * px <= 0x40000) by (nonlinear_arith)
        requires
            1 <= pel <= 4,
            0 <= px <= 0x10000,
    ;
    assert(0 <= pel * py <= 0x40000) by (nonlinear_arith)
        requires
            1 <= pel <= 4,
            0 <= py <= 0x10000,
    ;
    assert(0 <= pel * rxp <= 0x40000) by (nonlinear_arith)
        requires
            1 <= pel <= 4,
            0 <= rxp <= 0x10000,
    ;
    assert(0 <= pel * ryp <= 0x40000) by (nonlinear_arith)
        requires
            1 <= pel <= 4,
            0 <= ryp <= 0x10000,
    ;
    assert(-pel * px == -(pel * px)) by (nonlinear_arith);
    assert(-pel * py == -(pel * py)) by (nonlinear_arith);
}

/// The luma and chroma cost of a block that the vector takes out of the
/// level: the block is moved back inside (see `edge_shift_spec`) and
/// every position clamped into the level; `None` when the block stays in.
pub open spec fn edge_cost_spec(src: &SuperPlanes, refp: &SuperPlanes, level: int, px: int, py: int, bw: int, bh: int, mvx: int, mvy: int, use_satd: bool, pel: int) -> Option<(int, int)> {
    let lw = level_w(src, level);
    let lh = level_h(src, level);
    match edge_shift_spec(px, py, mvx, mvy, bw, bh, lw, lh, pel) {
        None => None,
        Some((cx, cy, rx0, ry0)) => {
            let sub = (mvy % 2) * pel + mvx % 2;
            let win = Window {
                cur0: y_off(src, level) as usize,
                ref0: (y_off(src, level) + sub * lh) as usize,
                cx: cx as i64,
                cy: cy as i64,
                rx: rx0 as i64,
                ry: ry0 as i64,
                w: lw as usize,
                h: lh as usize,
                zero_outside: false,
            };
            let luma = if satd_square(use_satd, bw, bh) {
                sat_u32(satd_sum(src.y@, src.y_stride as int, refp.y@, refp.y_stride as int, 0, win, bw / 4, bw / 4))
            } else {
                sat_u32(sad_sum(src.y@, src.y_stride as int, refp.y@, refp.y_stride as int, 0, win, bh, bw))
            };
            let ccx = chroma_origin_spec(px, cx);
            let ccy = chroma_origin_spec(py, cy);
            let cwin = Window {
                cur0: c_off(src, level) as usize,
                ref0: (c_off(src, level) + sub * (lh / 2)) as usize,
                cx: ccx as i64,
                cy: ccy as i64,
                rx: ((mvx / 2 + 2 * ccx) / 2) as i64,
                ry: ((mvy / 2 + 2 * ccy) / 2) as i64,
                w: (lw / 2) as usize,
                h: (lh / 2) as usize,
                zero_outside: false,
            };
            Some((luma, uv_cost(
                sad_sum(src.u@, src.u_stride as int, refp.u@, refp.u_stride as int, 128, cwin, bh / 2, bw / 2),
                sad_sum(src.v@, src.v_stride as int, refp.v@, refp.v_stride as int, 128, cwin, bh / 2, bw / 2),
            )))
        },
    }
}

/// The SATD of an `n` x `n` block at (`cx`, `cy`) against the reference
/// at (`rx0`, `ry0`), every position clamped into the `lw` x `lh` plane.
pub fn satd_luma_edge(
    src: &SuperPlanes,
    refp: &SuperPlanes,
    cur_row0: usize,
    ref_row0: usize,
    cx: i32,
    cy: i32,
    rx0: i32,
    ry0: i32,
    lw: usize,
    lh: usize,
    n: usize,
) -> (r: u32)
    requires
        lw <= 0x10000 && lh <= 0x10000,
        n <= 32,
        cur_row0 + lh <= usize::MAX && ref_row0 + lh <= usize::MAX,
    ensures
        r == sat_u32(satd_sum(src.y@, src.y_stride as int, refp.y@, refp.y_stride as int, 0,
            Window { cur0: cur_row0, ref0: ref_row0, cx: cx as i64, cy: cy as i64, rx: rx0 as i64, ry: ry0 as i64, w: lw, h: lh, zero_outside: false },
            n as int / 4, n as int / 4)),
{
    let win = Window { cur0: cur_row0, ref0: ref_row0, cx: cx as i64, cy: cy as i64, rx: rx0 as i64, ry: ry0 as i64, w: lw, h: lh, zero_outside: false };
    window_satd(src.y, src.y_stride, refp.y, refp.y_stride, 0, win, n / 4)
}

/// The luma and chroma cost of a block that the vector takes out of the
/// level (see `edge_cost_spec`).
pub fn block_cost_edge_lc(
    src: &SuperPlanes,
    refp: &SuperPlanes,
    level: i32,
    px: i32,
    py: i32,
    bw: i32,
    bh: i32,
    mvx: i32,
    mvy: i32,
    use_satd: bool,
    pel: i32,
) -> (r: Option<(u32, u32)>)
    requires
        cost_ok(src, level as int, px as int, py as int, bw as int, bh as int, pel as int),
        mv_small(mvx as int, mvy as int),
    ensures
        match edge_cost_spec(src, refp, level as int, px as int, py as int, bw as int, bh as int, mvx as int, mvy as int, use_satd, pel as int) {
            None => r is None,
            Some((l, c)) => r == Some((l as u32, c as u32)) && 0 <= l <= u32::MAX && 0 <= c <= u32::MAX,
        },
{
    proof {
        src.lemma_small_geometry(level as int);
        crate::super_build::lemma_reduce_bounds(src.luma_w as int, level as int);
        crate::super_build::lemma_reduce_bounds(src.luma_h as int, level as int);
        lemma_and1_mod2(mvx);
        lemma_and1_mod2(mvy);
        lemma_shr1_floor(mvx);
        lemma_shr1_floor(mvy);
    }
    let (lw, lh) = src.level_size(level);
    proof {
        lemma_edge_fits(px as int, py as int, mvx as int, mvy as int, bw as int, bh as int, lw as int, lh as int, pel as int);
    }
    let (cx, cy, rx0, ry0) = match edge_shift_origins(px, py, mvx, mvy, bw, bh, lw as i32, lh as i32, pel) {
        Some(t) => t,
        None => return None,
    };
    let y_off = src.level_y_offset(level);
    let sub_x = mvx & 1;
    let sub_y = mvy & 1;
    proof {
        assert(0 <= sub_y * pel <= 4) by (nonlinear_arith)
            requires
                0 <= sub_y <= 1,
                1 <= pel <= 4,
        ;
    }
    let sub_idx = ((sub_y * pel) + sub_x) as usize;
    proof {
        assert(sub_idx * lh <= 5 * 0x10000) by (nonlinear_arith)
            requires
                sub_idx <= 5,
                lh <= 0x10000,
        ;
        assert(sub_idx * (lh / 2) <= 5 * 0x8000) by (nonlinear_arith)
            requires
                sub_idx <= 5,
                lh / 2 <= 0x8000,
        ;
    }
    let cur_row0 = y_off;
    let ref_row0 = y_off + sub_idx * lh;
    let bw_u = bw as usize;
    let bh_u = bh as usize;
    let win = Window { cur0: cur_row0, ref0: ref_row0, cx: cx as i64, cy: cy as i64, rx: rx0 as i64, ry: ry0 as i64, w: lw, h: lh, zero_outside: false };
    let sad_l = if use_satd && (bw_u == 4 || bw_u == 8 || bw_u == 16 || bw_u == 32) && (bh_u == 4 || bh_u == 8 || bh_u == 16 || bh_u == 32) && bw_u == bh_u {
        satd_luma_edge(src, refp, cur_row0, ref_row0, cx, cy, rx0, ry0, lw, lh, bw_u)
    } else {
        window_sad(src.y, src.y_stride, refp.y, refp.y_stride, 0, win, bh_u, bw_u)
    };
    let cw = bw_u / 2;
    let ch = bh_u / 2;
    let clw = lw / 2;
    let clh = lh / 2;
    let (ccx, ccy) = chroma_origins_after_luma_shift(px, py, cx, cy);
    let tx = (mvx >> 1u32) + 2 * ccx;
    let ty = (mvy >> 1u32) + 2 * ccy;
    proof {
        lemma_shr1_floor(tx);
        lemma_shr1_floor(ty);
    }
    let crx0 = tx >> 1u32;
    let cry0 = ty >> 1u32;
    let c_off = src.chroma_level_offset(level);
    let c_ref = c_off + sub_idx * clh;
    let cwin = Window { cur0: c_off, ref0: c_ref, cx: ccx as i64, cy: ccy as i64, rx: crx0 as i64, ry: cry0 as i64, w: clw, h: clh, zero_outside: false };
    let u = window_sad(src.u, src.u_stride, refp.u, refp.u_stride, 128, cwin, ch, cw);
    let v = window_sad(src.v, src.v_stride, refp.v, refp.v_stride, 128, cwin, ch, cw);
    proof {
        lemma_sad_sum_nonneg(src.u@, src.u_stride as int, refp.u@, refp.u_stride as int, 128, cwin, ch as int, cw as int);
        lemma_sad_sum_nonneg(src.v@, src.v_stride as int, refp.v@, refp.v_stride as int, 128, cwin, ch as int, cw as int);
    }
    let sad_c = combine_uv(
        u,
        v,
        Ghost(sad_sum(src.u@, src.u_stride as int, refp.u@, refp.u_stride as int, 128, cwin, ch as int, cw as int)),
        Ghost(sad_sum(src.v@, src.v_stride as int, refp.v@, refp.v_stride as int, 128, cwin, ch as int, cw as int)),
    );
    Some((sad_l, sad_c))
}


/// The luma and chroma cost of the block at (`px`, `py`) for vector
/// (`mvx`, `mvy`): on the full level with a sub-pixel pel, a vector that
/// takes the block out past the top or left edge is costed with the block
/// moved back inside (`edge_cost_spec`); otherwise the block is costed in
/// place (`luma_interior_spec`, `chroma_spec`).
pub open spec fn lc_spec(src: &SuperPlanes, refp: &SuperPlanes, level: int, px: int, py: int, bw: int, bh: int, mvx: int, mvy: int, use_satd: bool, pel: int) -> (int, int) {
    let p = if pel < 1 { 1 } else { pel };
    let edge = if level == 0 && p >= 2 && (mvx < -p * px || mvy < -p * py) {
        edge_cost_spec(src, refp, level, px, py, bw, bh, mvx, mvy, use_satd, p)
    } else {
        None
    };
    match edge {
        Some(lc) => lc,
        None => (
            luma_interior_spec(src, refp, level, px, py, bw, bh, mvx, mvy, use_satd, p),
            chroma_spec(src, refp, level, p, mvx, mvy, px, py, bw, bh, level_w(src, level), level_h(src, level)),
        ),
    }
}

/// The luma and chroma cost of the block (see `lc_spec`).
pub fn block_cost_lc(
    src: &SuperPlanes,
    refp: &SuperPlanes,
    level: i32,
    px: i32,
    py: i32,
    bw: i32,
    bh: i32,
    mvx: i32,
    mvy: i32,
    use_satd: bool,
    pel: i32,
) -> (r: (u32, u32))
    requires
        pel <= 4,
        cost_ok(src, level as int, px as int, py as int, bw as int, bh as int, if pel < 1 { 1 } else { pel as int }),
        mv_small(mvx as int, mvy as int),
    ensures
        (r.0 as int, r.1 as int) == lc_spec(src, refp, level as int, px as int, py as int, bw as int, bh as int, mvx as int, mvy as int, use_satd, pel as int),
{
    let pel = if pel < 1 { 1 } else { pel };
    proof {
        crate::super_build::lemma_reduce_bounds(src.luma_w as int, level as int);
        crate::super_build::lemma_reduce_bounds(src.luma_h as int, level as int);
    }
    let (lw, lh) = src.level_size(level);
    if level == 0 && pel >= 2 {
        proof {
            assert(0 <= pel * px <= 0x40000 && 0 <= pel * py <= 0x40000) by (nonlinear_arith)
                requires
                    1 <= pel <= 4,
                    0 <= px <= 0x10000,
                    0 <= py <= 0x10000,
            ;
            assert(-pel * px == -(pel * px) && -pel * py == -(pel * py)) by (nonlinear_arith);
        }
        let min_x = -pel * px;
        let min_y = -pel * py;
        if mvx < min_x || mvy < min_y {
            if let Some((l, c)) = block_cost_edge_lc(src, refp, level, px, py, bw, bh, mvx, mvy, use_satd, pel) {
                return (l, c);
            }
        }
    }
    let l = block_cost_luma_interior(src, refp, level, px, py, bw as usize, bh as usize, mvx, mvy, use_satd, pel);
    let c = chroma_sad_x4(src, refp, level, pel, mvx, mvy, px as usize, py as usize, bw as usize, bh as usize, lw, lh);
    (l, c)
}

/// The matching cost of the block for vector `mv`: luma plus chroma cost,
/// saturated.
pub open spec fn exact_sad_spec(src: &SuperPlanes, refp: &SuperPlanes, level: int, px: int, py: int, bw: int, bh: int, mv: (i32, i32), satd: bool, pel: int) -> int {
    let (l, c) = lc_spec(src, refp, level, px, py, bw, bh, mv.0 as int, mv.1 as int, satd, pel);
    sat_u32(l + c)
}

/// The matching cost of the block for vector `mv` (see `exact_sad_spec`).
pub fn exact_sad(
    src: &SuperPlanes,
    refp: &SuperPlanes,
    level: i32,
    px: i32,
    py: i32,
    bw: i32,
    bh: i32,
    mv: (i32, i32),
    satd: bool,
    pel: i32,
) -> (r: u32)
    requires
        pel <= 4,
        cost_ok(src, level as int, px as int, py as int, bw as int, bh as int, if pel < 1 { 1 } else { pel as int }),
        mv_small(mv.0 as int, mv.1 as int),
    ensures
        r == exact_sad_spec(src, refp, level as int, px as int, py as int, bw as int, bh as int, mv, satd, pel as int),
{
    let (luma, chroma) = block_cost_lc(src, refp, level, px, py, bw, bh, mv.0, mv.1, satd, pel);
    luma.saturating_add(chroma)
}

/// The sum of the current samples of row `r` of the window over the first
/// `n` columns.
pub open spec fn cur_row_sum(cur: Seq<u8>, cs: int, win: Window, r: int, n: int) -> int
    decreases n,
{
    if n <= 0 { 0 } else { cur_row_sum(cur, cs, win, r, n - 1) + win_cur(cur, cs, 0, win, r, n - 1) }
}

/// The sum of the current samples over the first `rows` rows and `cols`
/// columns of the window.
pub open spec fn cur_sum(cur: Seq<u8>, cs: int, win: Window, rows: int, cols: int) -> int
    decreases rows,
{
    if rows <= 0 { 0 } else { cur_sum(cur, cs, win, rows - 1, cols) + cur_row_sum(cur, cs, win, rows - 1, cols) }
}

proof fn lemma_cur_row_sum_bounds(cur: Seq<u8>, cs: int, win: Window, r: int, n: int)
    requires
        n >= 0,
    ensures
        0 <= cur_row_sum(cur, cs, win, r, n) <= 255 * n,
    decreases n,
{
    if n > 0 {
        lemma_cur_row_sum_bounds(cur, cs, win, r, n - 1);
    }
}

proof fn lemma_cur_sum_bounds(cur: Seq<u8>, cs: int, win: Window, rows: int, cols: int)
    requires
        rows >= 0,
        cols >= 0,
    ensures
        0 <= cur_sum(cur, cs, win, rows, cols) <= 255 * rows * cols,
    decreases rows,
{
    if rows > 0 {
        lemma_cur_sum_bounds(cur, cs, win, rows - 1, cols);
        lemma_cur_row_sum_bounds(cur, cs, win, rows - 1, cols);
        assert(255 * (rows - 1) * cols + 255 * cols == 255 * rows * cols) by (nonlinear_arith);
    }
}

/// The mean luma of the part of the block at (`px`, `py`) inside the
/// level (rounded down, at most 255; 0 for an empty part).
pub open spec fn luma_dc_spec(src: &SuperPlanes, level: int, px: int, py: int, bw: int, bh: int) -> int {
    let rows = run_inside(bh, py, level_h(src, level));
    let cols = run_inside(bw, px, level_w(src, level));
    let win = luma_window(src, level, px, py, 0, 0, 1, false);
    let sum = cur_sum(src.y@, src.y_stride as int, win, rows, cols);
    if rows * cols == 0 { 0 } else { min_of(sum / (rows * cols), 255) }
}

/// The mean luma of the block (see `luma_dc_spec`).
pub fn block_luma_dc(src: &SuperPlanes, level: i32, px: i32, py: i32, bw: i32, bh: i32) -> (r: u8)
    requires
        src.small(),
        block_small(level as int, px as int, py as int, bw as int, bh as int, 1),
        bw * bh <= 0x1010101,
        level_w(src, level as int) >= 1 && level_h(src, level as int) >= 1,
    ensures
        r == luma_dc_spec(src, level as int, px as int, py as int, bw as int, bh as int),
{
    proof {
        src.lemma_small_geometry(level as int);
        crate::super_build::lemma_reduce_bounds(src.luma_w as int, level as int);
        crate::super_build::lemma_reduce_bounds(src.luma_h as int, level as int);
    }
    let (lw, lh) = src.level_size(level);
    let y_off = src.level_y_offset(level);
    let rows = if lh > py as usize {
        if (bh as usize) < lh - py as usize { bh as usize } else { lh - py as usize }
    } else {
        0
    };
    let cols = if lw > px as usize {
        if (bw as usize) < lw - px as usize { bw as usize } else { lw - px as usize }
    } else {
        0
    };
    let win = Window { cur0: y_off, ref0: y_off, cx: px as i64, cy: py as i64, rx: px as i64, ry: py as i64, w: lw, h: lh, zero_outside: false };
    let ghost wspec = luma_window(src, level as int, px as int, py as int, 0, 0, 1, false);
    assert(win.cur0 == wspec.cur0 && win.cx == wspec.cx && win.cy == wspec.cy && win.w == wspec.w && win.h == wspec.h);
    let mut sum: u32 = 0;
    let mut row: usize = 0;
    proof {
        assert(rows * cols <= 0x1010101) by (nonlinear_arith)
            requires
                rows <= bh,
                cols <= bw,
                bw * bh <= 0x1010101,
        ;
    }
    while row < rows
        invariant
            0 <= row <= rows,
            rows * cols <= 0x1010101,
            rows <= lh && cols <= lw,
            window_ok(win, rows as int, cols as int),
            win.cur0 == wspec.cur0 && win.cx == wspec.cx && win.cy == wspec.cy && win.w == wspec.w && win.h == wspec.h,
            win.zero_outside == wspec.zero_outside,
            sum == cur_sum(src.y@, src.y_stride as int, wspec, row as int, cols as int),
        decreases rows - row,
    {
        proof {
            lemma_cur_sum_bounds(src.y@, src.y_stride as int, wspec, row as int + 1, cols as int);
            assert(255 * (row + 1) * cols <= 255 * 0x1010101) by (nonlinear_arith)
                requires
                    row + 1 <= rows,
                    rows * cols <= 0x1010101,
                    0 <= cols,
            ;
        }
        let mut col: usize = 0;
        while col < cols
            invariant
                0 <= col <= cols,
                row < rows,
                rows * cols <= 0x1010101,
                window_ok(win, rows as int, cols as int),
                win.cur0 == wspec.cur0 && win.cx == wspec.cx && win.cy == wspec.cy && win.w == wspec.w && win.h == wspec.h,
                win.zero_outside == wspec.zero_outside,
                sum == cur_sum(src.y@, src.y_stride as int, wspec, row as int, cols as int) + cur_row_sum(src.y@, src.y_stride as int, wspec, row as int, col as int),
                cur_sum(src.y@, src.y_stride as int, wspec, row as int + 1, cols as int) <= 255 * 0x1010101,
            decreases cols - col,
        {
            proof {
                lemma_cur_row_sum_bounds(src.y@, src.y_stride as int, wspec, row as int, cols as int);
                lemma_cur_sum_bounds(src.y@, src.y_stride as int, wspec, row as int, cols as int);
                lemma_cur_row_prefix(src.y@, src.y_stride as int, wspec, row as int, col as int + 1, cols as int);
            }
            let (a, _) = window_pair(src.y, src.y_stride, src.y, src.y_stride, 0, win, row, col);
            sum = sum + a as u32;
            col = col + 1;
        }
        row = row + 1;
    }
    let count = rows * cols;
    if count == 0 {
        0
    } else {
        let m = sum / count as u32;
        if m > 255 { 255 } else { m as u8 }
    }
}

/// A prefix of a row sums to at most the whole row.
proof fn lemma_cur_row_prefix(cur: Seq<u8>, cs: int, win: Window, r: int, k: int, n: int)
    requires
        0 <= k <= n,
    ensures
        cur_row_sum(cur, cs, win, r, k) <= cur_row_sum(cur, cs, win, r, n),
    decreases n - k,
{
    if k < n {
        lemma_cur_row_prefix(cur, cs, win, r, k, n - 1);
    }
}


proof fn lemma_satd_sum_nonneg(cur: Seq<u8>, cs: int, refd: Seq<u8>, rs: int, fb: int, win: Window, rows: int, cols: int)
    ensures
        satd_sum(cur, cs, refd, rs, fb, win, rows, cols) >= 0,
    decreases rows,
{
    if rows > 0 {
        lemma_satd_sum_nonneg(cur, cs, refd, rs, fb, win, rows - 1, cols);
        lemma_satd_row_nonneg(cur, cs, refd, rs, fb, win, rows - 1, cols);
    }
}

/// Both parts of the block cost, and the matching cost, lie in `u32`.
#[verifier::rlimit(40)]
#[verifier::spinoff_prover]
pub proof fn lemma_lc_range(src: &SuperPlanes, refp: &SuperPlanes, level: int, px: int, py: int, bw: int, bh: int, mvx: int, mvy: int, use_satd: bool, pel: int)
    ensures
        0 <= lc_spec(src, refp, level, px, py, bw, bh, mvx, mvy, use_satd, pel).0 <= u32::MAX,
        0 <= lc_spec(src, refp, level, px, py, bw, bh, mvx, mvy, use_satd, pel).1 <= u32::MAX,
{
    let p = if pel < 1 { 1 } else { pel };
    let lw = level_w(src, level);
    let lh = level_h(src, level);
    let iw = luma_window(src, level, px, py, mvx, mvy, p, true);
    let sw = luma_window(src, level, px, py, mvx, mvy, p, false);
    lemma_satd_sum_nonneg(src.y@, src.y_stride as int, refp.y@, refp.y_stride as int, 0, iw, bw / 4, bw / 4);
    lemma_sad_sum_nonneg(src.y@, src.y_stride as int, refp.y@, refp.y_stride as int, 0, sw, run_inside(bh, py, lh), run_inside(bw, px, lw));
    let cw = chroma_window(src, level, p, mvx, mvy, px, py, lw, lh);
    lemma_sad_sum_nonneg(src.u@, src.u_stride as int, refp.u@, refp.u_stride as int, 128, cw, run_inside(bh / 2, py / 2, lh / 2), run_inside(bw / 2, px / 2, lw / 2));
    lemma_sad_sum_nonneg(src.v@, src.v_stride as int, refp.v@, refp.v_stride as int, 128, cw, run_inside(bh / 2, py / 2, lh / 2), run_inside(bw / 2, px / 2, lw / 2));
    match edge_shift_spec(px, py, mvx, mvy, bw, bh, lw, lh, p) {
        None => {},
        Some((cx, cy, rx0, ry0)) => {
            let sub = (mvy % 2) * p + mvx % 2;
            let win = Window {
                cur0: y_off(src, level) as usize,
                ref0: (y_off(src, level) + sub * lh) as usize,
                cx: cx as i64,
                cy: cy as i64,
                rx: rx0 as i64,
                ry: ry0 as i64,
                w: lw as usize,
                h: lh as usize,
                zero_outside: false,
            };
            lemma_satd_sum_nonneg(src.y@, src.y_stride as int, refp.y@, refp.y_stride as int, 0, win, bw / 4, bw / 4);
            lemma_sad_sum_nonneg(src.y@, src.y_stride as int, refp.y@, refp.y_stride as int, 0, win, bh, bw);
            let ccx = chroma_origin_spec(px, cx);
            let ccy = chroma_origin_spec(py, cy);
            let cwin = Window {
                cur0: c_off(src, level) as usize,
                ref0: (c_off(src, level) + sub * (lh / 2)) as usize,
                cx: ccx as i64,
                cy: ccy as i64,
                rx: ((mvx / 2 + 2 * ccx) / 2) as i64,
                ry: ((mvy / 2 + 2 * ccy) / 2) as i64,
                w: (lw / 2) as usize,
                h: (lh / 2) as usize,
                zero_outside: false,
            };
            lemma_sad_sum_nonneg(src.u@, src.u_stride as int, refp.u@, refp.u_stride as int, 128, cwin, bh / 2, bw / 2);
            lemma_sad_sum_nonneg(src.v@, src.v_stride as int, refp.v@, refp.v_stride as int, 128, cwin, bh / 2, bw / 2);
        },
    }
}

} // verus!
