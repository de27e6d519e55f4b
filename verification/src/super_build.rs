//! Building the planes of a super clip frame: the full-size level with its
//! edge padding, the smaller levels by a 6-tap reduction, and the
//! half-pixel planes by bilinear or bicubic interpolation.
use vstd::prelude::*;
use crate::arith::clamp;
use crate::super_opts::{
    SuperOpts, reduce_dim, reduce_dim_spec, lemma_reduce_nonneg, lemma_reduce_dim_step, halve,
    super_plane_height_spec, levels_height,
};

verus! {

/// Rounded-up average of two bytes.
pub open spec fn avg_spec(a: int, b: int) -> int {
    (a + b + 1) / 2
}

pub fn avg_epu8(a: u8, b: u8) -> (r: u8)
    ensures
        r == avg_spec(a as int, b as int),
{
    let s: u16 = (a as u16) + (b as u16) + 1;
    assert(s >> 1u16 == s / 2) by (bit_vector);
    (s >> 1u16) as u8
}

/// The byte at `i`, or `d` past the end.
pub open spec fn get_or(s: Seq<u8>, i: int, d: int) -> int {
    if 0 <= i < s.len() { s[i] as int } else { d }
}

/// The byte at column `x` of row `y` of a level starting at row `row0`, or
/// 0 past the buffer.
pub open spec fn sample_spec(buf: Seq<u8>, stride: int, row0: int, y: int, x: int) -> int {
    get_or(buf, (row0 + y) * stride + x, 0)
}

pub fn sample(buf: &[u8], stride: usize, row0: usize, y: usize, x: usize) -> (r: u8)
    requires
        row0 + y <= usize::MAX,
        (row0 + y) * stride + x <= usize::MAX,
    ensures
        r == sample_spec(buf@, stride as int, row0 as int, y as int, x as int),
{
    assert((row0 + y) * stride <= (row0 + y) * stride + x);
    let i = (row0 + y) * stride + x;
    if i < buf.len() {
        buf[i]
    } else {
        0
    }
}

/// The half-pixel sample between position `p` and `p + 1` of a line of `n`
/// samples `step` apart, the first at `i`: the 6-tap filter
/// `(1, -5, 20, 20, -5, 1) / 32` inside, a plain average near the ends and
/// the sample itself at the last position.
pub open spec fn half_spec(buf: Seq<u8>, i: int, step: int, p: int, n: int) -> int {
    if p < 2 || p + 4 >= n {
        if p + 1 == n {
            buf[i] as int
        } else {
            avg_spec(buf[i] as int, buf[i + step] as int)
        }
    } else {
        let value = buf[i - 2 * step] + buf[i + 3 * step] + 5 * (4 * buf[i] - buf[i - step] + 4 * buf[i
            + step] - buf[i + 2 * step]) + 16;
        clamp(value / 32, 0, 255)
    }
}

/// Whether every sample that `half` reads is inside the buffer.
pub open spec fn half_in_bounds(len: int, i: int, step: int, p: int, n: int) -> bool {
    if p < 2 || p + 4 >= n {
        &&& 0 <= i < len
        &&& p + 1 != n ==> 0 <= i + step < len
    } else {
        &&& 0 <= i - 2 * step
        &&& i + 3 * step < len
    }
}

pub fn half(buf: &[u8], i: usize, step: usize, p: usize, n: usize) -> (r: u8)
    requires
        half_in_bounds(buf@.len() as int, i as int, step as int, p as int, n as int),
        step <= i + 3 * step,
        p + 4 <= usize::MAX,
    ensures
        r == half_spec(buf@, i as int, step as int, p as int, n as int),
{
    if p < 2 || p + 4 >= n {
        return if p + 1 == n {
            buf[i]
        } else {
            avg_epu8(buf[i], buf[i + step])
        };
    }
    let value = (buf[i - 2 * step] as i32) + (buf[i + 3 * step] as i32) + 5 * (4 * (buf[i] as i32)
        - (buf[i - step] as i32) + 4 * (buf[i + step] as i32) - (buf[i + 2 * step] as i32)) + 16;
    proof {
        lemma_shr5_floor(value);
    }
    let q = value >> 5u32;
    if q < 0 {
        0
    } else if q > 255 {
        255
    } else {
        q as u8
    }
}

/// An arithmetic right shift by 5 is floor division by 32.
pub proof fn lemma_shr5_floor(x: i32)
    ensures
        (x >> 5u32) as int == (x as int) / 32,
{
    assert(x >= 0 ==> (x >> 5u32) == x / 32) by (bit_vector);
    assert(x < 0 ==> (x >> 5u32) == -(((-1 - x) / 32)) - 1) by (bit_vector);
}

/// Number of bytes that `copy_row` moves: `n`, cut so that both runs fit
/// in the buffer.
pub open spec fn copy_len(len: int, dst_off: int, src_off: int, n: int) -> int {
    let a = if len - dst_off < 0 { 0 } else { len - dst_off };
    let b = if len - src_off < 0 { 0 } else { len - src_off };
    let m = if n < a { n } else { a };
    if m < b { m } else { b }
}

/// `buf` after `copy_row`: the run at `dst_off` replaced by the run at
/// `src_off`, as a memory move.
pub open spec fn copy_row_spec(buf: Seq<u8>, dst_off: int, src_off: int, n: int) -> Seq<u8> {
    let m = copy_len(buf.len() as int, dst_off, src_off, n);
    Seq::new(buf.len(), |k: int| if dst_off <= k < dst_off + m { buf[k - dst_off + src_off] } else { buf[k] })
}

/// Moves `n` bytes inside `buf` from `src_off` to `dst_off` (overlap
/// allowed), cut to what fits.
pub fn copy_row(buf: &mut [u8], dst_off: usize, src_off: usize, n: usize)
    ensures
        final(buf)@ == copy_row_spec(old(buf)@, dst_off as int, src_off as int, n as int),
{
    let len = buf.len();
    let a = if dst_off > len {
        0
    } else {
        len - dst_off
    };
    let b = if src_off > len {
        0
    } else {
        len - src_off
    };
    let m0 = if n < a {
        n
    } else {
        a
    };
    let m = if m0 < b {
        m0
    } else {
        b
    };
    if m == 0 || dst_off == src_off {
        assert(buf@ =~= copy_row_spec(old(buf)@, dst_off as int, src_off as int, n as int));
        return;
    }
    let ghost orig = buf@;
    if dst_off < src_off {
        let mut i: usize = 0;
        while i < m
            invariant
                0 <= i <= m,
                dst_off < src_off,
                dst_off + m <= len,
                src_off + m <= len,
                len == orig.len(),
                buf@.len() == len,
                forall|k: int| 0 <= k < len ==> #[trigger] buf@[k] == (if dst_off <= k < dst_off + i {
                    orig[k - dst_off + src_off]
                } else {
                    orig[k]
                }),
            decreases m - i,
        {
            let v = buf[src_off + i];
            buf[dst_off + i] = v;
            i = i + 1;
        }
    } else {
        let mut tmp: Vec<u8> = Vec::new();
        let mut i: usize = 0;
        while i < m
            invariant
                0 <= i <= m,
                src_off + m <= len,
                buf@ == orig,
                len == orig.len(),
                tmp@ == orig.subrange(src_off as int, src_off + i),
            decreases m - i,
        {
            tmp.push(buf[src_off + i]);
            i = i + 1;
        }
        let mut j: usize = 0;
        while j < m
            invariant
                0 <= j <= m,
                dst_off + m <= len,
                src_off + m <= len,
                len == orig.len(),
                buf@.len() == len,
                tmp@ == orig.subrange(src_off as int, src_off + m),
                forall|k: int| 0 <= k < len ==> #[trigger] buf@[k] == (if dst_off <= k < dst_off + j {
                    orig[k - dst_off + src_off]
                } else {
                    orig[k]
                }),
            decreases m - j,
        {
            buf[dst_off + j] = tmp[j];
            j = j + 1;
        }
    }
    assert(buf@ =~= copy_row_spec(orig, dst_off as int, src_off as int, n as int));
}

/// The left tap of output `i` of the horizontal reduction: the edge average
/// for the first, afterwards the source sample `2 * i`.
pub open spec fn hleft(src: Seq<u8>, i: int) -> int {
    if i == 0 {
        avg_spec(src[0] as int, get_or(src, 1, src[0] as int))
    } else {
        get_or(src, 2 * i, 0)
    }
}

/// Output `i + 1` of the horizontal 6-tap reduction inside the row.
pub open spec fn hinterior(src: Seq<u8>, i: int) -> int {
    let k = 5 + 2 * i;
    let pk = get_or(src, k, src[src.len() - 1] as int);
    let v = (hleft(src, i) + pk + 10 * (get_or(src, k - 3, 0) + get_or(src, k - 2, 0)) + 5 * (
    get_or(src, k - 4, 0) + get_or(src, k - 1, 0)) + 16) / 32;
    if v < 255 { v } else { 255 }
}

/// Average of samples `2 * i` and `2 * i + 1` (the first repeated past the
/// end, 0 past it too).
pub open spec fn hpair(src: Seq<u8>, i: int) -> int {
    let a = get_or(src, 2 * i, 0);
    avg_spec(a, get_or(src, 2 * i + 1, a))
}

/// Output `i` of the horizontal reduction of `src` to `dst_w` samples.
pub open spec fn hreduce_at(src: Seq<u8>, dst_w: int, i: int) -> int {
    if dst_w <= 2 {
        hpair(src, i)
    } else if i == 0 {
        hleft(src, 0)
    } else if i < dst_w - 1 {
        hinterior(src, i - 1)
    } else {
        hpair(src, i)
    }
}

/// The row after `horizontal_6tap_inplace`: its first `dst_w` samples
/// replaced by the reduction (when there is room in the scratch).
pub open spec fn hreduce_row(row: Seq<u8>, dst_w: int, scratch_len: int) -> Seq<u8> {
    if dst_w == 0 || row.len() == 0 || (dst_w > 2 && scratch_len < row.len()) {
        row
    } else {
        Seq::new(row.len(), |i: int| if i < dst_w { hreduce_at(row, dst_w, i) as u8 } else { row[i] })
    }
}

/// Halves a row in place to `dst_w` samples: a 6-tap filter inside, pair
/// averages at the ends. `scratch` holds a copy of the row meanwhile.
pub fn horizontal_6tap_inplace(row: &mut [u8], dst_w: usize, scratch: &mut [u8])
    requires
        dst_w <= old(row)@.len(),
        2 * dst_w + 6 <= usize::MAX,
    ensures
        final(row)@ == hreduce_row(old(row)@, dst_w as int, old(scratch)@.len() as int),
        final(scratch)@.len() == old(scratch)@.len(),
        dst_w > 2 && old(scratch)@.len() >= old(row)@.len() ==> final(scratch)@.subrange(0, old(row)@.len() as int) == old(row)@,
        !(dst_w > 2 && old(scratch)@.len() >= old(row)@.len()) ==> final(scratch)@ == old(scratch)@,
{
    let len = row.len();
    if dst_w == 0 || len == 0 {
        assert(row@ =~= hreduce_row(old(row)@, dst_w as int, old(scratch)@.len() as int));
        return;
    }
    let ghost orig = row@;
    if dst_w <= 2 {
        let mut i: usize = 0;
        while i < dst_w
            invariant
                0 <= i <= dst_w <= 2,
                dst_w <= len,
                len == orig.len(),
                row@.len() == len,
                forall|k: int| 0 <= k < len ==> #[trigger] row@[k] == (if k < i { hpair(orig, k) as u8 } else { orig[k] }),
            decreases dst_w - i,
        {
            let a: u8 = if 2 * i < len { row[2 * i] } else { 0 };
            let b: u8 = if 2 * i + 1 < len { row[2 * i + 1] } else { a };
            assert(a == get_or(orig, 2 * i, 0));
            assert(b == get_or(orig, 2 * i + 1, a as int));
            row[i] = avg_epu8(a, b);
            i = i + 1;
        }
        assert(row@ =~= hreduce_row(orig, dst_w as int, old(scratch)@.len() as int));
        return;
    }
    if scratch.len() < len {
        assert(row@ =~= hreduce_row(orig, dst_w as int, old(scratch)@.len() as int));
        return;
    }
    let mut c: usize = 0;
    while c < len
        invariant
            0 <= c <= len,
            len <= scratch@.len(),
            scratch@.len() == old(scratch)@.len(),
            row@ == orig,
            len == orig.len(),
            forall|k: int| 0 <= k < c ==> #[trigger] scratch@[k] == orig[k],
        decreases len - c,
    {
        scratch[c] = row[c];
        c = c + 1;
    }
    assert(scratch@.subrange(0, len as int) =~= orig);
    let src_w = len;
    let s1: u8 = if 1 < src_w { scratch[1] } else { scratch[0] };
    row[0] = avg_epu8(scratch[0], s1);
    let mut left = row[0];
    let interior = dst_w - 2;
    let mut i: usize = 0;
    while i < interior
        invariant
            0 <= i <= interior,
            interior == dst_w - 2,
            src_w == len,
            3 <= dst_w <= len,
            2 * dst_w + 6 <= usize::MAX,
            len == orig.len(),
            row@.len() == len,
            len <= scratch@.len(),
            scratch@.subrange(0, len as int) == orig,
            left == hleft(orig, i as int),
            forall|k: int| 0 <= k < len ==> #[trigger] row@[k] == (if k <= i { hreduce_at(orig, dst_w as int, k) as u8 } else { orig[k] }),
        decreases interior - i,
    {
        let k = 5 + 2 * i;
        proof {
            assert forall|j: int| 0 <= j < len implies scratch@[j] == orig[j] by {
                assert(scratch@.subrange(0, len as int)[j] == scratch@[j]);
            }
        }
        let p_k: u8 = if k < src_w { scratch[k] } else { scratch[src_w - 1] };
        let p_km3: u8 = if k - 3 < src_w { scratch[k - 3] } else { 0 };
        let p_km2: u8 = if k - 2 < src_w { scratch[k - 2] } else { 0 };
        let p_km4: u8 = if k - 4 < src_w { scratch[k - 4] } else { 0 };
        let p_even: u8 = if k - 1 < src_w { scratch[k - 1] } else { 0 };
        let v = ((left as u32) + (p_k as u32) + 10 * ((p_km3 as u32) + (p_km2 as u32)) + 5 * ((p_km4 as u32)
            + (p_even as u32)) + 16) >> 5u32;
        let vv: u32 = (left as u32) + (p_k as u32) + 10 * ((p_km3 as u32) + (p_km2 as u32)) + 5 * ((p_km4 as u32)
            + (p_even as u32)) + 16;
        assert(vv >> 5u32 == vv / 32) by (bit_vector);
        assert(v == vv / 32);
        assert(v == hinterior(orig, i as int) || v >= 255);
        row[i + 1] = if v < 255 { v as u8 } else { 255 };
        left = p_km3;
        i = i + 1;
    }
    proof {
        assert forall|j: int| 0 <= j < len implies scratch@[j] == orig[j] by {
            assert(scratch@.subrange(0, len as int)[j] == scratch@[j]);
        }
    }
    let last = dst_w - 1;
    let a: u8 = if 2 * last < src_w { scratch[2 * last] } else { 0 };
    let b: u8 = if 2 * last + 1 < src_w { scratch[2 * last + 1] } else { a };
    row[last] = avg_epu8(a, b);
    assert(row@ =~= hreduce_row(orig, dst_w as int, old(scratch)@.len() as int));
}

pub open spec fn min_int(a: int, b: int) -> int {
    if a < b { a } else { b }
}

/// Output row `dy`, column `x` of the vertical half of the 6-tap
/// reduction: pair averages at the top and bottom (and where the window
/// runs out), the `(1, 5, 10, 10, 5, 1) / 32` filter elsewhere.
pub open spec fn vert_at(buf: Seq<u8>, stride: int, src_row0: int, src_h: int, dst_h: int, dy: int, x: int) -> int {
    let sy = 2 * dy;
    if dy == 0 || dy + 1 == dst_h || sy - 2 < 0 || sy + 3 >= src_h {
        let y0 = min_int(sy, src_h - 1);
        let y1 = min_int(sy + 1, src_h - 1);
        avg_spec(sample_spec(buf, stride, src_row0, y0, x), sample_spec(buf, stride, src_row0, y1, x))
    } else {
        let st = sy - 2;
        let v = (sample_spec(buf, stride, src_row0, st, x) + sample_spec(buf, stride, src_row0, st + 5, x) + 5 * (
        sample_spec(buf, stride, src_row0, st + 1, x) + sample_spec(buf, stride, src_row0, st + 4, x)) + 10 * (
        sample_spec(buf, stride, src_row0, st + 2, x) + sample_spec(buf, stride, src_row0, st + 3, x)) + 16) / 32;
        min_int(v, 255)
    }
}

/// Row `dy` of the vertically reduced level, `src_w` samples wide.
pub open spec fn vert_row(buf: Seq<u8>, stride: int, src_row0: int, src_w: int, src_h: int, dst_h: int, dy: int) -> Seq<u8> {
    Seq::new(src_w as nat, |x: int| vert_at(buf, stride, src_row0, src_h, dst_h, dy, x) as u8)
}

/// `s` with `n` bytes of `data` written from `start`.
pub open spec fn splice(s: Seq<u8>, start: int, data: Seq<u8>, n: int) -> Seq<u8> {
    Seq::new(s.len(), |i: int| if start <= i < start + n { data[i - start] } else { s[i] })
}

/// `buf` after the first `k` rows of a reduced level are written at
/// `dst_row0`; every row is computed from `orig`.
pub open spec fn reduce_rows(
    orig: Seq<u8>,
    buf: Seq<u8>,
    stride: int,
    dst_row0: int,
    dst_w: int,
    dst_h: int,
    src_row0: int,
    src_w: int,
    src_h: int,
    k: int,
) -> Seq<u8>
    decreases k,
{
    if k <= 0 {
        buf
    } else {
        let prev = reduce_rows(orig, buf, stride, dst_row0, dst_w, dst_h, src_row0, src_w, src_h, k - 1);
        let row = hreduce_row(vert_row(orig, stride, src_row0, src_w, src_h, dst_h, k - 1), dst_w, src_w);
        let base = (dst_row0 + k - 1) * stride;
        let room = if prev.len() - base < 0 { 0 } else { prev.len() - base };
        splice(prev, base, row, min_int(src_w, room))
    }
}

/// The buffer after `reduce_6tap`.
pub open spec fn reduce_spec(
    buf: Seq<u8>,
    stride: int,
    dst_row0: int,
    dst_w: int,
    dst_h: int,
    src_row0: int,
    src_w: int,
    src_h: int,
) -> Seq<u8> {
    if dst_w == 0 || dst_h == 0 || src_w == 0 || src_h == 0 {
        buf
    } else {
        reduce_rows(buf, buf, stride, dst_row0, dst_w, dst_h, src_row0, src_w, src_h, dst_h)
    }
}

/// Whether `reduce_6tap` neither overflows nor indexes out of bounds.
pub open spec fn reduce_fits(
    stride: int,
    dst_row0: int,
    dst_w: int,
    dst_h: int,
    src_row0: int,
    src_w: int,
    src_h: int,
) -> bool {
    dst_w > 0 && dst_h > 0 && src_w > 0 && src_h > 0 ==> {
        &&& dst_w <= src_w
        &&& 2 * dst_w + 6 <= usize::MAX
        &&& 2 * dst_h + 3 <= usize::MAX
        &&& src_w * dst_h <= usize::MAX
        &&& src_row0 + src_h <= usize::MAX
        &&& (src_row0 + src_h - 1) * stride + src_w - 1 <= usize::MAX
        &&& dst_row0 + dst_h <= usize::MAX
        &&& (dst_row0 + dst_h - 1) * stride <= usize::MAX
    }
}

/// Row `y` < `h`, column `x` < `w` of a `w`-wide layout fits where the last
/// one does.
proof fn lemma_index_below(row0: int, y: int, h: int, stride: int, x: int, w: int)
    requires
        0 <= y < h,
        0 <= x < w,
        row0 >= 0,
        stride >= 0,
    ensures
        (row0 + y) * stride + x <= (row0 + h - 1) * stride + w - 1,
{
    assert((row0 + y) * stride <= (row0 + h - 1) * stride) by (nonlinear_arith)
        requires
            y <= h - 1,
            stride >= 0,
    ;
}

/// Reduces the level at `src_row0` (`src_w` x `src_h`) to half size at
/// `dst_row0` (`dst_w` x `dst_h`): vertical then horizontal 6-tap passes.
/// Each written row is `src_w` bytes long (cut at the end of the buffer).
#[verifier::rlimit(40)]
#[verifier::spinoff_prover]
pub fn reduce_6tap(
    buf: &mut [u8],
    stride: usize,
    dst_row0: usize,
    dst_w: usize,
    dst_h: usize,
    src_row0: usize,
    src_w: usize,
    src_h: usize,
)
    requires
        reduce_fits(stride as int, dst_row0 as int, dst_w as int, dst_h as int, src_row0 as int, src_w as int, src_h as int),
    ensures
        final(buf)@ == reduce_spec(old(buf)@, stride as int, dst_row0 as int, dst_w as int, dst_h as int, src_row0 as int, src_w as int, src_h as int),
{
    if dst_w == 0 || dst_h == 0 || src_w == 0 || src_h == 0 {
        return;
    }
    let ghost orig = buf@;
    let inter_w = src_w;
    let mut inter: Vec<u8> = Vec::new();
    let mut dy: usize = 0;
    while dy < dst_h
        invariant
            0 <= dy <= dst_h,
            buf@ == orig,
            inter_w == src_w,
            reduce_fits(stride as int, dst_row0 as int, dst_w as int, dst_h as int, src_row0 as int, src_w as int, src_h as int),
            dst_w > 0 && dst_h > 0 && src_w > 0 && src_h > 0,
            inter@.len() == dy * inter_w,
            forall|r: int, x: int| 0 <= r < dy && 0 <= x < inter_w ==> #[trigger] inter@[r * inter_w + x] == vert_at(orig, stride as int, src_row0 as int, src_h as int, dst_h as int, r, x) as u8,
        decreases dst_h - dy,
    {
        let sy = dy * 2;
        let use_edge = dy == 0 || dy + 1 == dst_h || sy < 2 || (sy + 3) >= src_h;
        let mut x: usize = 0;
        while x < inter_w
            invariant
                0 <= x <= inter_w,
                0 <= dy < dst_h,
                sy == 2 * dy,
                use_edge == (dy == 0 || dy + 1 == dst_h || sy - 2 < 0 || sy + 3 >= src_h),
                buf@ == orig,
                inter_w == src_w,
                reduce_fits(stride as int, dst_row0 as int, dst_w as int, dst_h as int, src_row0 as int, src_w as int, src_h as int),
                dst_w > 0 && dst_h > 0 && src_w > 0 && src_h > 0,
                inter@.len() == dy * inter_w + x,
                forall|r: int, c: int| 0 <= r < dy && 0 <= c < inter_w ==> #[trigger] inter@[r * inter_w + c] == vert_at(orig, stride as int, src_row0 as int, src_h as int, dst_h as int, r, c) as u8,
                forall|c: int| 0 <= c < x ==> #[trigger] inter@[dy * inter_w + c] == vert_at(orig, stride as int, src_row0 as int, src_h as int, dst_h as int, dy as int, c) as u8,
            decreases inter_w - x,
        {
            let v: u8 = if use_edge {
                let y0 = if sy < src_h - 1 { sy } else { src_h - 1 };
                let y1 = if sy + 1 < src_h - 1 { sy + 1 } else { src_h - 1 };
                proof {
                    lemma_index_below(src_row0 as int, y0 as int, src_h as int, stride as int, x as int, src_w as int);
                    lemma_index_below(src_row0 as int, y1 as int, src_h as int, stride as int, x as int, src_w as int);
                }
                let a = sample(buf, stride, src_row0, y0, x);
                let b = sample(buf, stride, src_row0, y1, x);
                avg_epu8(a, b)
            } else {
                let start = sy - 2;
                proof {
                    lemma_index_below(src_row0 as int, start as int, src_h as int, stride as int, x as int, src_w as int);
                    lemma_index_below(src_row0 as int, start + 1, src_h as int, stride as int, x as int, src_w as int);
                    lemma_index_below(src_row0 as int, start + 2, src_h as int, stride as int, x as int, src_w as int);
                    lemma_index_below(src_row0 as int, start + 3, src_h as int, stride as int, x as int, src_w as int);
                    lemma_index_below(src_row0 as int, start + 4, src_h as int, stride as int, x as int, src_w as int);
                    lemma_index_below(src_row0 as int, start + 5, src_h as int, stride as int, x as int, src_w as int);
                }
                let p0 = sample(buf, stride, src_row0, start, x) as u32;
                let p1 = sample(buf, stride, src_row0, start + 1, x) as u32;
                let p2 = sample(buf, stride, src_row0, start + 2, x) as u32;
                let p3 = sample(buf, stride, src_row0, start + 3, x) as u32;
                let p4 = sample(buf, stride, src_row0, start + 4, x) as u32;
                let p5 = sample(buf, stride, src_row0, start + 5, x) as u32;
                let vv = p0 + p5 + 5 * (p1 + p4) + 10 * (p2 + p3) + 16;
                assert(vv >> 5u32 == vv / 32) by (bit_vector);
                let v = vv >> 5u32;
                if v < 255 { v as u8 } else { 255 }
            };
            assert(v == vert_at(orig, stride as int, src_row0 as int, src_h as int, dst_h as int, dy as int, x as int) as u8);
            inter.push(v);
            proof {
                assert(dy * inter_w + x < (dy + 1) * inter_w) by (nonlinear_arith)
                    requires
                        x < inter_w,
                ;
                assert forall|r: int, c: int| 0 <= r < dy && 0 <= c < inter_w implies #[trigger] inter@[r * inter_w + c] == vert_at(orig, stride as int, src_row0 as int, src_h as int, dst_h as int, r, c) as u8 by {
                    assert(r * inter_w + c < dy * inter_w) by (nonlinear_arith)
                        requires
                            r < dy,
                            c < inter_w,
                    ;
                }
            }
            x = x + 1;
        }
        proof {
            assert((dy + 1) * inter_w == dy * inter_w + inter_w) by (nonlinear_arith);
            assert forall|r: int, c: int| 0 <= r < dy + 1 && 0 <= c < inter_w implies #[trigger] inter@[r * inter_w + c] == vert_at(orig, stride as int, src_row0 as int, src_h as int, dst_h as int, r, c) as u8 by {
                if r == dy {
                    assert(inter@[dy * inter_w + c] == vert_at(orig, stride as int, src_row0 as int, src_h as int, dst_h as int, dy as int, c) as u8);
                }
            }
        }
        dy = dy + 1;
    }
    let mut scratch: Vec<u8> = vec![0u8; inter_w];
    assert(dst_h * inter_w <= usize::MAX) by (nonlinear_arith)
        requires
            src_w * dst_h <= usize::MAX,
            inter_w == src_w,
    ;
    let mut dy: usize = 0;
    while dy < dst_h
        invariant
            0 <= dy <= dst_h,
            inter_w == src_w,
            reduce_fits(stride as int, dst_row0 as int, dst_w as int, dst_h as int, src_row0 as int, src_w as int, src_h as int),
            dst_w > 0 && dst_h > 0 && src_w > 0 && src_h > 0,
            inter@.len() == dst_h * inter_w,
            dst_h * inter_w <= usize::MAX,
            scratch@.len() == inter_w,
            forall|r: int, x: int| 0 <= r < dst_h && 0 <= x < inter_w ==> #[trigger] inter@[r * inter_w + x] == vert_at(orig, stride as int, src_row0 as int, src_h as int, dst_h as int, r, x) as u8,
            buf@ == reduce_rows(orig, orig, stride as int, dst_row0 as int, dst_w as int, dst_h as int, src_row0 as int, src_w as int, src_h as int, dy as int),
        decreases dst_h - dy,
    {
        let mut row: Vec<u8> = Vec::new();
        let mut x: usize = 0;
        proof {
            assert(dy * inter_w + inter_w <= dst_h * inter_w) by (nonlinear_arith)
                requires
                    dy < dst_h,
            ;
        }
        while x < inter_w
            invariant
                0 <= x <= inter_w,
                0 <= dy < dst_h,
                dy * inter_w + inter_w <= dst_h * inter_w,
                dst_h * inter_w <= usize::MAX,
                inter@.len() == dst_h * inter_w,
                inter_w == src_w,
                row@.len() == x,
                forall|r: int, c: int| 0 <= r < dst_h && 0 <= c < inter_w ==> #[trigger] inter@[r * inter_w + c] == vert_at(orig, stride as int, src_row0 as int, src_h as int, dst_h as int, r, c) as u8,
                forall|c: int| 0 <= c < x ==> #[trigger] row@[c] == vert_at(orig, stride as int, src_row0 as int, src_h as int, dst_h as int, dy as int, c) as u8,
            decreases inter_w - x,
        {
            row.push(inter[dy * inter_w + x]);
            x = x + 1;
        }
        assert(row@ =~= vert_row(orig, stride as int, src_row0 as int, src_w as int, src_h as int, dst_h as int, dy as int));
        horizontal_6tap_inplace(row.as_mut_slice(), dst_w, scratch.as_mut_slice());
        let ghost prev = buf@;
        proof {
            assert((dst_row0 + dy) * stride <= (dst_row0 + dst_h - 1) * stride) by (nonlinear_arith)
                requires
                    dy <= dst_h - 1,
            ;
        }
        let dst_base = (dst_row0 + dy) * stride;
        let blen = buf.len();
        let room = if blen < dst_base { 0 } else { blen - dst_base };
        let n = if inter_w < room { inter_w } else { room };
        let mut j: usize = 0;
        while j < n
            invariant
                0 <= j <= n,
                n <= inter_w,
                n == 0 || dst_base + n <= buf@.len(),
                blen == buf@.len(),
                row@.len() == inter_w,
                buf@.len() == prev.len(),
                forall|i: int| 0 <= i < prev.len() ==> #[trigger] buf@[i] == (if dst_base <= i < dst_base + j { row@[i - dst_base] } else { prev[i] }),
            decreases n - j,
        {
            buf[dst_base + j] = row[j];
            j = j + 1;
        }
        assert(buf@ =~= splice(prev, dst_base as int, row@, n as int));
        dy = dy + 1;
    }
}

/// Position `(y, x)` of step `k` of a row-major walk over `w` columns.
pub open spec fn walk_pos(k: int, w: int) -> (int, int) {
    (k / w, k % w)
}

/// `buf` after the first `k` steps of a bilinear half-pixel pass: each
/// output at row `dst_row + y` averages the sample at row `a_row + y` with
/// the one at row `b_row + y`, `b_off` columns on (falling back to the
/// first, then to 0, past the buffer); outputs past the buffer are dropped.
pub open spec fn bilinear_walk(
    buf: Seq<u8>,
    stride: int,
    a_row: int,
    b_row: int,
    b_off: int,
    dst_row: int,
    w: int,
    k: int,
) -> Seq<u8>
    decreases k,
{
    if k <= 0 || w <= 0 {
        buf
    } else {
        let prev = bilinear_walk(buf, stride, a_row, b_row, b_off, dst_row, w, k - 1);
        let (y, x) = walk_pos(k - 1, w);
        let a = get_or(prev, (a_row + y) * stride + x, 0);
        let b = get_or(prev, (b_row + y) * stride + b_off + x, a);
        let i = (dst_row + y) * stride + x;
        if i < prev.len() { prev.update(i, avg_spec(a, b) as u8) } else { prev }
    }
}

/// Whether the index arithmetic of a `w` x `h` bilinear pass fits `usize`.
pub open spec fn bilinear_fits(stride: int, a_row: int, b_row: int, b_off: int, dst_row: int, w: int, h: int) -> bool {
    let top = if a_row < b_row { b_row } else { a_row };
    let top2 = if top < dst_row { dst_row } else { top };
    &&& top2 + h <= usize::MAX
    &&& (top2 + h) * stride + b_off + w <= usize::MAX
}

proof fn lemma_walk_pos(y: int, x: int, w: int)
    requires
        0 <= y,
        0 <= x < w,
    ensures
        walk_pos(y * w + x, w) == (y, x),
{
    vstd::arithmetic::div_mod::lemma_fundamental_div_mod_converse(y * w + x, w, y, x);
}

proof fn lemma_row_index_fits(row: int, y: int, h: int, stride: int, off: int, top: int)
    requires
        0 <= y < h,
        0 <= row <= top,
        stride >= 0,
        off >= 0,
    ensures
        (row + y) * stride + off <= (top + h) * stride + off,
{
    assert((row + y) * stride <= (top + h) * stride) by (nonlinear_arith)
        requires
            row + y <= top + h,
            stride >= 0,
    ;
}

/// One bilinear half-pixel pass over a `w` x `h` plane.
pub fn bilinear_pass(
    dst: &mut [u8],
    stride: usize,
    a_row: usize,
    b_row: usize,
    b_off: usize,
    dst_row: usize,
    w: usize,
    h: usize,
)
    requires
        bilinear_fits(stride as int, a_row as int, b_row as int, b_off as int, dst_row as int, w as int, h as int),
    ensures
        final(dst)@ == bilinear_walk(old(dst)@, stride as int, a_row as int, b_row as int, b_off as int, dst_row as int, w as int, w * h),
{
    let ghost orig = dst@;
    let ghost top: int = {
        let t = if a_row < b_row { b_row as int } else { a_row as int };
        if t < dst_row { dst_row as int } else { t }
    };
    let mut y: usize = 0;
    while y < h
        invariant
            0 <= y <= h,
            bilinear_fits(stride as int, a_row as int, b_row as int, b_off as int, dst_row as int, w as int, h as int),
            top == (if (if a_row < b_row { b_row as int } else { a_row as int }) < dst_row { dst_row as int } else { if a_row < b_row { b_row as int } else { a_row as int } }),
            dst@ == bilinear_walk(orig, stride as int, a_row as int, b_row as int, b_off as int, dst_row as int, w as int, y * w),
        decreases h - y,
    {
        let mut x: usize = 0;
        while x < w
            invariant
                0 <= x <= w,
                0 <= y < h,
                bilinear_fits(stride as int, a_row as int, b_row as int, b_off as int, dst_row as int, w as int, h as int),
                top == (if (if a_row < b_row { b_row as int } else { a_row as int }) < dst_row { dst_row as int } else { if a_row < b_row { b_row as int } else { a_row as int } }),
                dst@ == bilinear_walk(orig, stride as int, a_row as int, b_row as int, b_off as int, dst_row as int, w as int, y * w + x),
            decreases w - x,
        {
            proof {
                lemma_walk_pos(y as int, x as int, w as int);
                lemma_row_index_fits(a_row as int, y as int, h as int, stride as int, b_off + x, top);
                lemma_row_index_fits(b_row as int, y as int, h as int, stride as int, b_off + x, top);
                lemma_row_index_fits(dst_row as int, y as int, h as int, stride as int, b_off + x, top);
                assert((top + h) * stride + b_off + x <= (top + h) * stride + b_off + w);
            }
            let src_i = (a_row + y) * stride + x;
            let b_i = (b_row + y) * stride + b_off + x;
            let dst_i = (dst_row + y) * stride + x;
            let len = dst.len();
            let a: u8 = if src_i < len { dst[src_i] } else { 0 };
            let b: u8 = if b_i < len { dst[b_i] } else { a };
            if dst_i < len {
                dst[dst_i] = avg_epu8(a, b);
            }
            x = x + 1;
        }
        assert((y + 1) * w == y * w + w) by (nonlinear_arith);
        y = y + 1;
    }
    assert(h * w == w * h) by (nonlinear_arith);
}

/// The half-pixel planes by bilinear averaging: horizontal (plane 1),
/// vertical (plane 2, its first row a copy of the source's), diagonal
/// (plane 3, its first row the source's shifted by one).
pub open spec fn bilinear_pel2_spec(buf: Seq<u8>, stride: int, row0: int, w: int, h: int) -> Seq<u8> {
    let b1 = bilinear_walk(buf, stride, row0, row0, 1, row0 + h, w, w * h);
    let b2 = bilinear_walk(b1, stride, row0, row0 + 1, 0, row0 + 2 * h, w, w * h);
    let b3 = copy_row_spec(b2, (row0 + 2 * h) * stride, row0 * stride, w);
    let b4 = bilinear_walk(b3, stride, row0, row0 + 1, 1, row0 + 3 * h, w, w * h);
    copy_row_spec(b4, (row0 + 3 * h) * stride, row0 * stride + 1, w)
}

pub open spec fn bilinear_pel2_fits(stride: int, row0: int, w: int, h: int) -> bool {
    &&& row0 + 4 * h <= usize::MAX
    &&& (row0 + 4 * h) * stride + 1 + w <= usize::MAX
}

/// Fills the three half-pixel planes below the full-size level at `row0`
/// by bilinear averaging.
pub fn fill_bilinear_pel2(dst: &mut [u8], stride: usize, row0: usize, w: usize, h: usize)
    requires
        bilinear_pel2_fits(stride as int, row0 as int, w as int, h as int),
    ensures
        final(dst)@ == bilinear_pel2_spec(old(dst)@, stride as int, row0 as int, w as int, h as int),
{
    proof {
        assert((row0 + 3 * h) * stride <= (row0 + 4 * h) * stride) by (nonlinear_arith)
            requires
                h >= 0,
                stride >= 0,
        ;
        assert(row0 * stride <= (row0 + 4 * h) * stride) by (nonlinear_arith)
            requires
                h >= 0,
                stride >= 0,
        ;
        assert((row0 + 2 * h) * stride <= (row0 + 4 * h) * stride) by (nonlinear_arith)
            requires
                h >= 0,
                stride >= 0,
        ;
        assert((row0 + 4 * h) * stride <= (row0 + 4 * h) * stride + 1 + w);
    }
    if h > 0 {
        proof {
            assert((row0 + 2 * h + h) * stride + 1 + w <= (row0 + 4 * h) * stride + 1 + w) by (nonlinear_arith)
                requires
                    h >= 1,
                    stride >= 0,
            ;
            assert((row0 + 3 * h + h) * stride + 1 + w <= (row0 + 4 * h) * stride + 1 + w) by (nonlinear_arith)
                requires
                    h >= 1,
                    stride >= 0,
            ;
            assert((row0 + h + h) * stride + 1 + w <= (row0 + 4 * h) * stride + 1 + w) by (nonlinear_arith)
                requires
                    h >= 1,
                    stride >= 0,
            ;
        }
        bilinear_pass(dst, stride, row0, row0, 1, row0 + h, w, h);
        bilinear_pass(dst, stride, row0, row0 + 1, 0, row0 + 2 * h, w, h);
        copy_row(dst, (row0 + 2 * h) * stride, row0 * stride, w);
        bilinear_pass(dst, stride, row0, row0 + 1, 1, row0 + 3 * h, w, h);
        copy_row(dst, (row0 + 3 * h) * stride, row0 * stride + 1, w);
    } else {
        let ghost b0 = dst@;
        assert(w * h == 0) by (nonlinear_arith)
            requires
                h == 0,
        ;
        copy_row(dst, (row0 + 2 * h) * stride, row0 * stride, w);
        copy_row(dst, (row0 + 3 * h) * stride, row0 * stride + 1, w);
    }
}

/// `buf` after the first `k` steps of a bicubic half-pixel pass from the
/// plane at row `src` into the plane at row `dst`: horizontal or vertical
/// half-pixel samples of the current contents.
pub open spec fn cubic_walk(buf: Seq<u8>, stride: int, src: int, dst: int, w: int, h: int, vertical: bool, k: int) -> Seq<u8>
    decreases k,
{
    if k <= 0 || w <= 0 {
        buf
    } else {
        let prev = cubic_walk(buf, stride, src, dst, w, h, vertical, k - 1);
        let (y, x) = walk_pos(k - 1, w);
        let i = (src + y) * stride + x;
        let v = if vertical { half_spec(prev, i, stride, y, h) } else { half_spec(prev, i, 1, x, w) };
        prev.update((dst + y) * stride + x, v as u8)
    }
}

/// Whether cell `(y, x)` of a bicubic pass reads and writes inside the
/// buffer without overflow.
pub open spec fn cubic_cell_ok(len: int, stride: int, src: int, dst: int, w: int, h: int, vertical: bool, y: int, x: int) -> bool {
    let i = (src + y) * stride + x;
    let step = if vertical { stride } else { 1 };
    let p = if vertical { y } else { x };
    let n = if vertical { h } else { w };
    &&& src + y <= usize::MAX
    &&& dst + y <= usize::MAX
    &&& i + 3 * step <= usize::MAX
    &&& p + 4 <= usize::MAX
    &&& half_in_bounds(len, i, step, p, n)
    &&& (dst + y) * stride + x < len
}

pub open spec fn cubic_ok(len: int, stride: int, src: int, dst: int, w: int, h: int, vertical: bool) -> bool {
    forall|y: int, x: int| 0 <= y < h && 0 <= x < w ==> #[trigger] cubic_cell_ok(len, stride, src, dst, w, h, vertical, y, x)
}

/// One bicubic half-pixel pass, horizontal or vertical.
pub fn cubic_pass(buf: &mut [u8], stride: usize, src: usize, dst: usize, w: usize, h: usize, vertical: bool)
    requires
        cubic_ok(old(buf)@.len() as int, stride as int, src as int, dst as int, w as int, h as int, vertical),
    ensures
        final(buf)@ == cubic_walk(old(buf)@, stride as int, src as int, dst as int, w as int, h as int, vertical, w * h),
{
    let ghost orig = buf@;
    let len = buf.len();
    let mut y: usize = 0;
    while y < h
        invariant
            0 <= y <= h,
            buf@.len() == orig.len(),
            len == orig.len(),
            cubic_ok(orig.len() as int, stride as int, src as int, dst as int, w as int, h as int, vertical),
            buf@ == cubic_walk(orig, stride as int, src as int, dst as int, w as int, h as int, vertical, y * w),
        decreases h - y,
    {
        let mut x: usize = 0;
        while x < w
            invariant
                0 <= x <= w,
                0 <= y < h,
                buf@.len() == orig.len(),
                len == orig.len(),
                cubic_ok(orig.len() as int, stride as int, src as int, dst as int, w as int, h as int, vertical),
                buf@ == cubic_walk(orig, stride as int, src as int, dst as int, w as int, h as int, vertical, y * w + x),
            decreases w - x,
        {
            proof {
                lemma_walk_pos(y as int, x as int, w as int);
                assert(cubic_cell_ok(orig.len() as int, stride as int, src as int, dst as int, w as int, h as int, vertical, y as int, x as int));
                assert((src + y) * stride <= (src + y) * stride + x);
                assert((dst + y) * stride <= (dst + y) * stride + x);
            }
            let i = (src + y) * stride + x;
            let v = if vertical {
                half(buf, i, stride, y, h)
            } else {
                half(buf, i, 1, x, w)
            };
            buf[(dst + y) * stride + x] = v;
            x = x + 1;
        }
        assert((y + 1) * w == y * w + w) by (nonlinear_arith);
        y = y + 1;
    }
    assert(h * w == w * h) by (nonlinear_arith);
}

/// The half-pixel planes by bicubic interpolation: horizontal (plane 1)
/// and vertical (plane 2) from the full level, diagonal (plane 3) from the
/// vertical plane.
pub open spec fn bicubic_pel2_spec(buf: Seq<u8>, stride: int, row0: int, w: int, h: int) -> Seq<u8> {
    let b1 = cubic_walk(buf, stride, row0, row0 + h, w, h, false, w * h);
    let b2 = cubic_walk(b1, stride, row0, row0 + 2 * h, w, h, true, w * h);
    cubic_walk(b2, stride, row0 + 2 * h, row0 + 3 * h, w, h, false, w * h)
}

pub open spec fn bicubic_pel2_ok(len: int, stride: int, row0: int, w: int, h: int) -> bool {
    &&& row0 + 3 * h <= usize::MAX
    &&& cubic_ok(len, stride, row0, row0 + h, w, h, false)
    &&& cubic_ok(len, stride, row0, row0 + 2 * h, w, h, true)
    &&& cubic_ok(len, stride, row0 + 2 * h, row0 + 3 * h, w, h, false)
}

/// Lengths stay through a bicubic pass.
pub proof fn lemma_cubic_walk_len(buf: Seq<u8>, stride: int, src: int, dst: int, w: int, h: int, vertical: bool, k: int)
    requires
        cubic_ok(buf.len() as int, stride, src, dst, w, h, vertical),
        k <= w * h,
        w >= 0,
        h >= 0,
        stride >= 0,
        src >= 0,
        dst >= 0,
    ensures
        cubic_walk(buf, stride, src, dst, w, h, vertical, k).len() == buf.len(),
    decreases k,
{
    if k > 0 && w > 0 {
        lemma_cubic_walk_len(buf, stride, src, dst, w, h, vertical, k - 1);
        vstd::arithmetic::div_mod::lemma_fundamental_div_mod(k - 1, w);
        let (y, x) = walk_pos(k - 1, w);
        assert(0 <= x < w);
        assert(0 <= y) by {
            vstd::arithmetic::div_mod::lemma_div_pos_is_pos(k - 1, w);
        }
        assert(y < h) by (nonlinear_arith)
            requires
                k - 1 == w * y + x,
                k - 1 < w * h,
                0 <= x,
                w > 0,
        ;
        assert(cubic_cell_ok(buf.len() as int, stride, src, dst, w, h, vertical, y, x));
        assert((dst + y) * stride + x >= 0) by (nonlinear_arith)
            requires
                dst >= 0,
                y >= 0,
                stride >= 0,
                x >= 0,
        ;
    }
}

/// Fills the three half-pixel planes below the full-size level at `row0`
/// by bicubic interpolation.
pub fn fill_bicubic_pel2(dst: &mut [u8], stride: usize, row0: usize, w: usize, h: usize)
    requires
        bicubic_pel2_ok(old(dst)@.len() as int, stride as int, row0 as int, w as int, h as int),
    ensures
        final(dst)@ == bicubic_pel2_spec(old(dst)@, stride as int, row0 as int, w as int, h as int),
{
    let ghost b0 = dst@;
    cubic_pass(dst, stride, row0, row0 + h, w, h, false);
    proof {
        lemma_cubic_walk_len(b0, stride as int, row0 as int, row0 + h, w as int, h as int, false, w * h);
    }
    let ghost b1 = dst@;
    cubic_pass(dst, stride, row0, row0 + 2 * h, w, h, true);
    proof {
        lemma_cubic_walk_len(b1, stride as int, row0 as int, row0 + 2 * h, w as int, h as int, true, w * h);
    }
    cubic_pass(dst, stride, row0 + 2 * h, row0 + 3 * h, w, h, false);
}

/// Row `row` of the full-size level: `n` source bytes copied in (as many
/// of `base_w` as fit both buffers), then the rest of the stride filled
/// with the row's last sample.
pub open spec fn base_row_spec(
    buf: Seq<u8>,
    dst_stride: int,
    src: Seq<u8>,
    src_stride: int,
    src_w: int,
    base_w: int,
    row: int,
) -> Seq<u8> {
    let dst_off = row * dst_stride;
    let src_off = row * src_stride;
    let n = min_int(min_int(min_int(base_w, src_w), if buf.len() - dst_off < 0 { 0 } else { buf.len() - dst_off }),
        if src.len() - src_off < 0 { 0 } else { src.len() - src_off });
    let b1 = if n > 0 { splice(buf, dst_off, src.subrange(src_off, src_off + n), n) } else { buf };
    if base_w > 0 && dst_stride > base_w {
        let edge = b1[dst_off + base_w - 1];
        Seq::new(b1.len(), |i: int| if dst_off + base_w <= i < dst_off + dst_stride { edge } else { b1[i] })
    } else {
        b1
    }
}

/// `buf` after the first `k` rows of the full-size level are copied.
pub open spec fn base_rows_spec(
    buf: Seq<u8>,
    dst_stride: int,
    src: Seq<u8>,
    src_stride: int,
    src_w: int,
    base_w: int,
    k: int,
) -> Seq<u8>
    decreases k,
{
    if k <= 0 {
        buf
    } else {
        base_row_spec(base_rows_spec(buf, dst_stride, src, src_stride, src_w, base_w, k - 1), dst_stride, src, src_stride, src_w, base_w, k - 1)
    }
}

/// Whether copying `rows` rows of the full-size level stays in bounds.
pub open spec fn base_copy_fits(len: int, dst_stride: int, src_stride: int, base_w: int, rows: int) -> bool {
    rows > 0 ==> {
        &&& rows * dst_stride + dst_stride <= usize::MAX
        &&& rows * src_stride <= usize::MAX
        &&& base_w > 0 && dst_stride > base_w ==> (rows - 1) * dst_stride + base_w - 1 < len
    }
}

proof fn lemma_row_below(r: int, rows: int, stride: int)
    requires
        0 <= r < rows,
        stride >= 0,
    ensures
        r * stride <= (rows - 1) * stride,
        r * stride + stride <= rows * stride,
{
    assert(r * stride <= (rows - 1) * stride) by (nonlinear_arith)
        requires
            r <= rows - 1,
            stride >= 0,
    ;
    assert(r * stride + stride <= rows * stride) by (nonlinear_arith)
        requires
            r + 1 <= rows,
            stride >= 0,
    ;
}

/// Copies the source into the first `rows` rows of the full-size level and
/// pads each row to the stride with its last sample.
pub fn copy_base_level(
    dst: &mut [u8],
    dst_stride: usize,
    src: &[u8],
    src_stride: usize,
    src_w: usize,
    base_w: usize,
    rows: usize,
)
    requires
        base_copy_fits(old(dst)@.len() as int, dst_stride as int, src_stride as int, base_w as int, rows as int),
    ensures
        final(dst)@ == base_rows_spec(old(dst)@, dst_stride as int, src@, src_stride as int, src_w as int, base_w as int, rows as int),
{
    let ghost orig = dst@;
    let len = dst.len();
    let slen = src.len();
    let mut row: usize = 0;
    while row < rows
        invariant
            0 <= row <= rows,
            len == orig.len(),
            slen == src@.len(),
            dst@.len() == len,
            base_copy_fits(len as int, dst_stride as int, src_stride as int, base_w as int, rows as int),
            dst@ == base_rows_spec(orig, dst_stride as int, src@, src_stride as int, src_w as int, base_w as int, row as int),
        decreases rows - row,
    {
        proof {
            lemma_row_below(row as int, rows as int, dst_stride as int);
            lemma_row_below(row as int, rows as int, src_stride as int);
        }
        let ghost before = dst@;
        let dst_off = row * dst_stride;
        let src_off = row * src_stride;
        let a = if len < dst_off { 0 } else { len - dst_off };
        let b = if slen < src_off { 0 } else { slen - src_off };
        let n0 = if base_w < src_w { base_w } else { src_w };
        let n1 = if n0 < a { n0 } else { a };
        let n = if n1 < b { n1 } else { b };
        let mut j: usize = 0;
        while j < n
            invariant
                0 <= j <= n,
                n == 0 || (dst_off + n <= len && src_off + n <= slen),
                slen == src@.len(),
                dst@.len() == len,
                before.len() == len,
                forall|i: int| 0 <= i < len ==> #[trigger] dst@[i] == (if dst_off <= i < dst_off + j { src@[i - dst_off + src_off] } else { before[i] }),
            decreases n - j,
        {
            dst[dst_off + j] = src[src_off + j];
            j = j + 1;
        }
        let ghost b1 = if n > 0 { splice(before, dst_off as int, src@.subrange(src_off as int, src_off + n), n as int) } else { before };
        assert(dst@ =~= b1);
        if base_w > 0 && dst_stride > base_w {
            let edge = dst[dst_off + base_w - 1];
            let mut p: usize = base_w;
            while p < dst_stride
                invariant
                    base_w <= p <= dst_stride,
                    dst_off + dst_stride <= usize::MAX,
                    dst@.len() == len,
                    b1.len() == len,
                    edge == b1[dst_off + base_w - 1],
                    forall|i: int| 0 <= i < len ==> #[trigger] dst@[i] == (if dst_off + base_w <= i < dst_off + p { edge } else { b1[i] }),
                decreases dst_stride - p,
            {
                if dst_off + p < len {
                    dst[dst_off + p] = edge;
                }
                p = p + 1;
            }
        }
        assert(dst@ =~= base_row_spec(before, dst_stride as int, src@, src_stride as int, src_w as int, base_w as int, row as int));
        row = row + 1;
    }
}


/// Writing a run keeps the length.
pub proof fn lemma_base_rows_len(
    buf: Seq<u8>,
    dst_stride: int,
    src: Seq<u8>,
    src_stride: int,
    src_w: int,
    base_w: int,
    k: int,
)
    ensures
        base_rows_spec(buf, dst_stride, src, src_stride, src_w, base_w, k).len() == buf.len(),
    decreases k,
{
    if k > 0 {
        lemma_base_rows_len(buf, dst_stride, src, src_stride, src_w, base_w, k - 1);
    }
}

/// Reducing a level keeps the length of the buffer.
pub proof fn lemma_reduce_rows_len(
    orig: Seq<u8>,
    buf: Seq<u8>,
    stride: int,
    dst_row0: int,
    dst_w: int,
    dst_h: int,
    src_row0: int,
    src_w: int,
    src_h: int,
    k: int,
)
    ensures
        reduce_rows(orig, buf, stride, dst_row0, dst_w, dst_h, src_row0, src_w, src_h, k).len() == buf.len(),
    decreases k,
{
    if k > 0 {
        lemma_reduce_rows_len(orig, buf, stride, dst_row0, dst_w, dst_h, src_row0, src_w, src_h, k - 1);
    }
}

/// Size of one side of pyramid level `lv`: the luma size halved `lv`
/// times, and halved once more for a chroma plane.
pub open spec fn level_dim(luma: int, chroma: bool, lv: int) -> int {
    let y = reduce_dim_spec(luma, lv);
    if chroma { y / 2 } else { y }
}

/// How many rows level `lv` takes: its height, times `pel * pel` for the
/// full-size level when its sub-pixel copies are kept.
pub open spec fn level_rows(luma_h: int, chroma: bool, full: bool, pel: int, lv: int) -> int {
    level_dim(luma_h, chroma, lv) * (if lv == 0 && full { pel * pel } else { 1 })
}

/// First row of level `lv` in the plane.
pub open spec fn level_top(luma_h: int, chroma: bool, full: bool, pel: int, lv: int) -> int
    decreases lv,
{
    if lv <= 0 {
        0
    } else {
        level_top(luma_h, chroma, full, pel, lv - 1) + level_rows(luma_h, chroma, full, pel, lv - 1)
    }
}

/// The buffer after levels `1 ..= k` are reduced, each from the one above.
pub open spec fn reduce_levels(
    buf: Seq<u8>,
    stride: int,
    luma_w: int,
    luma_h: int,
    chroma: bool,
    full: bool,
    pel: int,
    k: int,
) -> Seq<u8>
    decreases k,
{
    if k <= 0 {
        buf
    } else {
        reduce_spec(
            reduce_levels(buf, stride, luma_w, luma_h, chroma, full, pel, k - 1),
            stride,
            level_top(luma_h, chroma, full, pel, k),
            level_dim(luma_w, chroma, k),
            level_dim(luma_h, chroma, k),
            level_top(luma_h, chroma, full, pel, k - 1),
            level_dim(luma_w, chroma, k - 1),
            level_dim(luma_h, chroma, k - 1),
        )
    }
}

/// Whether the half-pixel planes are interpolated on the CPU.
pub open spec fn fills_pel2(opts: SuperOpts) -> bool {
    opts.pel >= 2 && opts.gpu <= 1 && opts.full
}

/// The plane that `build_plane` leaves.
pub open spec fn build_spec(
    buf: Seq<u8>,
    dst_stride: int,
    src: Seq<u8>,
    src_stride: int,
    src_w: int,
    src_h: int,
    luma_w: int,
    luma_h: int,
    chroma: bool,
    opts: SuperOpts,
) -> Seq<u8> {
    let levels = opts.levels as int;
    let pel = opts.pel as int;
    if levels == 0 || src_w == 0 || src_h == 0 {
        buf
    } else {
        let base_w = level_dim(luma_w, chroma, 0);
        let base_h = level_dim(luma_h, chroma, 0);
        let rows = if base_h < src_h { base_h } else { src_h };
        let b0 = base_rows_spec(buf, dst_stride, src, src_stride, src_w, base_w, rows);
        let b1 = if opts.scale_down == 4 {
            reduce_levels(b0, dst_stride, luma_w, luma_h, chroma, opts.full, pel, levels - 1)
        } else {
            b0
        };
        if fills_pel2(opts) && opts.scale_up == 0 {
            bilinear_pel2_spec(b1, dst_stride, 0, base_w, base_h)
        } else if fills_pel2(opts) && opts.scale_up == 2 {
            bicubic_pel2_spec(b1, dst_stride, 0, base_w, base_h)
        } else {
            b1
        }
    }
}

/// Whether `build_plane` neither overflows nor indexes out of bounds.
pub open spec fn build_fits(
    len: int,
    dst_stride: int,
    src_stride: int,
    src_w: int,
    src_h: int,
    luma_w: int,
    luma_h: int,
    chroma: bool,
    opts: SuperOpts,
) -> bool {
    let levels = opts.levels as int;
    let pel = opts.pel as int;
    let base_w = level_dim(luma_w, chroma, 0);
    let base_h = level_dim(luma_h, chroma, 0);
    levels != 0 && src_w != 0 && src_h != 0 ==> {
        &&& levels > 0
        &&& luma_w <= i32::MAX
        &&& luma_h <= i32::MAX
        &&& opts.full ==> pel >= 0 && pel * pel <= usize::MAX
        &&& forall|lv: int| 0 <= lv <= levels ==> #[trigger] level_top(luma_h, chroma, opts.full, pel, lv) <= usize::MAX
        &&& base_copy_fits(len, dst_stride, src_stride, base_w, if base_h < src_h { base_h } else { src_h })
        &&& opts.scale_down == 4 ==> forall|lv: int| 0 <= lv < levels - 1 ==> reduce_fits(
            dst_stride,
            #[trigger] level_top(luma_h, chroma, opts.full, pel, lv + 1),
            level_dim(luma_w, chroma, lv + 1),
            level_dim(luma_h, chroma, lv + 1),
            level_top(luma_h, chroma, opts.full, pel, lv),
            level_dim(luma_w, chroma, lv),
            level_dim(luma_h, chroma, lv),
        )
        &&& fills_pel2(opts) && opts.scale_up == 0 ==> bilinear_pel2_fits(dst_stride, 0, base_w, base_h)
        &&& fills_pel2(opts) && opts.scale_up == 2 ==> bicubic_pel2_ok(len, dst_stride, 0, base_w, base_h)
    }
}

/// Width and height of pyramid level `lv`.
fn level_size(luma_w: usize, luma_h: usize, chroma: bool, lv: usize) -> (r: (usize, usize))
    requires
        luma_w <= i32::MAX,
        luma_h <= i32::MAX,
        lv <= i32::MAX,
    ensures
        r.0 == level_dim(luma_w as int, chroma, lv as int),
        r.1 == level_dim(luma_h as int, chroma, lv as int),
{
    let yw = reduce_dim(luma_w as i32, lv as i32);
    let yh = reduce_dim(luma_h as i32, lv as i32);
    proof {
        lemma_reduce_nonneg(luma_w as int, lv as int);
        lemma_reduce_nonneg(luma_h as int, lv as int);
    }
    let yw = yw as usize;
    let yh = yh as usize;
    if chroma {
        (yw / 2, yh / 2)
    } else {
        (yw, yh)
    }
}

/// Builds one plane of a super frame: copies the source into the full-size
/// level, reduces each smaller level from the one above (when the 6-tap
/// reduction is chosen), then interpolates the half-pixel planes.
pub fn build_plane(
    dst: &mut [u8],
    dst_stride: usize,
    src: &[u8],
    src_stride: usize,
    src_w: usize,
    src_h: usize,
    luma_w: usize,
    luma_h: usize,
    chroma: bool,
    opts: &SuperOpts,
)
    requires
        build_fits(old(dst)@.len() as int, dst_stride as int, src_stride as int, src_w as int, src_h as int, luma_w as int, luma_h as int, chroma, *opts),
    ensures
        final(dst)@ == build_spec(old(dst)@, dst_stride as int, src@, src_stride as int, src_w as int, src_h as int, luma_w as int, luma_h as int, chroma, *opts),
{
    if opts.levels == 0 || src_w == 0 || src_h == 0 {
        return;
    }
    let levels = opts.levels as usize;
    let pel = opts.pel as usize;
    let ghost g_pel = opts.pel as int;
    let ghost full = opts.full;
    let ghost orig = dst@;
    let mut level_y: Vec<usize> = Vec::with_capacity(levels);
    let mut y: usize = 0;
    let mut lv: usize = 0;
    while lv < levels
        invariant
            0 <= lv <= levels,
            levels == opts.levels as int,
            levels <= i32::MAX,
            build_fits(orig.len() as int, dst_stride as int, src_stride as int, src_w as int, src_h as int, luma_w as int, luma_h as int, chroma, *opts),
            levels != 0 && src_w != 0 && src_h != 0,
            full == opts.full,
            g_pel == opts.pel as int,
            full ==> pel == g_pel,
            level_y@.len() == lv,
            forall|k: int| 0 <= k < lv ==> #[trigger] level_y@[k] == level_top(luma_h as int, chroma, full, g_pel, k),
            y == level_top(luma_h as int, chroma, full, g_pel, lv as int),
        decreases levels - lv,
    {
        level_y.push(y);
        let (_, h) = level_size(luma_w, luma_h, chroma, lv);
        let sub: usize = if lv == 0 && opts.full { pel * pel } else { 1 };
        proof {
            assert(level_top(luma_h as int, chroma, full, g_pel, lv + 1) <= usize::MAX);
            assert(h * sub >= 0) by (nonlinear_arith)
                requires
                    h >= 0,
                    sub >= 0,
            ;
        }
        y = y + h * sub;
        lv = lv + 1;
    }
    let (base_w, base_h) = level_size(luma_w, luma_h, chroma, 0);
    let rows = if base_h < src_h { base_h } else { src_h };
    copy_base_level(dst, dst_stride, src, src_stride, src_w, base_w, rows);
    proof {
        lemma_base_rows_len(orig, dst_stride as int, src@, src_stride as int, src_w as int, base_w as int, rows as int);
    }
    let ghost b0 = dst@;
    if opts.scale_down == 4 {
        let mut k: usize = 0;
        while k + 1 < levels
            invariant
                0 <= k < levels,
                levels == opts.levels as int,
                levels <= i32::MAX,
                opts.scale_down == 4,
                build_fits(orig.len() as int, dst_stride as int, src_stride as int, src_w as int, src_h as int, luma_w as int, luma_h as int, chroma, *opts),
                levels != 0 && src_w != 0 && src_h != 0,
                full == opts.full,
                g_pel == opts.pel as int,
                level_y@.len() == levels,
                forall|j: int| 0 <= j < levels ==> #[trigger] level_y@[j] == level_top(luma_h as int, chroma, full, g_pel, j),
                dst@.len() == orig.len(),
                dst@ == reduce_levels(b0, dst_stride as int, luma_w as int, luma_h as int, chroma, full, g_pel, k as int),
            decreases levels - k,
        {
            let (sw, sh) = level_size(luma_w, luma_h, chroma, k);
            let (dw, dh) = level_size(luma_w, luma_h, chroma, k + 1);
            let ghost before = dst@;
            proof {
                assert(reduce_fits(
                    dst_stride as int,
                    level_top(luma_h as int, chroma, full, g_pel, k + 1),
                    level_dim(luma_w as int, chroma, k + 1),
                    level_dim(luma_h as int, chroma, k + 1),
                    level_top(luma_h as int, chroma, full, g_pel, k as int),
                    level_dim(luma_w as int, chroma, k as int),
                    level_dim(luma_h as int, chroma, k as int),
                ));
            }
            reduce_6tap(dst, dst_stride, level_y[k + 1], dw, dh, level_y[k], sw, sh);
            proof {
                let t1 = level_top(luma_h as int, chroma, full, g_pel, k + 1);
                let t0 = level_top(luma_h as int, chroma, full, g_pel, k as int);
                if dw != 0 && dh != 0 && sw != 0 && sh != 0 {
                    lemma_reduce_rows_len(before, before, dst_stride as int, t1, dw as int, dh as int, t0, sw as int, sh as int, dh as int);
                }
            }
            k = k + 1;
        }
    }
    if pel >= 2 && opts.gpu <= 1 && opts.full {
        if opts.scale_up == 0 {
            fill_bilinear_pel2(dst, dst_stride, level_y[0], base_w, base_h);
        } else if opts.scale_up == 2 {
            fill_bicubic_pel2(dst, dst_stride, level_y[0], base_w, base_h);
        }
    }
}


/// One halving step of a non-negative size gives an even value of at most
/// half of it.
pub proof fn lemma_halve_facts(x: int)
    requires
        x >= 0,
    ensures
        0 <= halve(x),
        2 * halve(x) <= x,
        halve(x) % 2 == 0,
{
    vstd::arithmetic::div_mod::lemma_fundamental_div_mod(x, 4);
    assert(crate::arith::tdiv(x, 4) == x / 4);
}

/// A reduced non-negative size never grows, is at most half of the start
/// after one step, and is even from then on.
pub proof fn lemma_reduce_bounds(d: int, n: int)
    requires
        d >= 0,
        n >= 0,
    ensures
        0 <= reduce_dim_spec(d, n) <= d,
        n >= 1 ==> 2 * reduce_dim_spec(d, n) <= d,
        n >= 1 ==> reduce_dim_spec(d, n) % 2 == 0,
        reduce_dim_spec(d, n + 1) <= reduce_dim_spec(d, n),
    decreases n,
{
    lemma_reduce_dim_step(d, n + 1);
    if n == 0 {
        assert(reduce_dim_spec(d, 0) == d);
        lemma_halve_facts(d);
    } else {
        lemma_reduce_bounds(d, n - 1);
        lemma_reduce_dim_step(d, n);
        lemma_halve_facts(reduce_dim_spec(d, n - 1));
        lemma_halve_facts(reduce_dim_spec(d, n));
    }
}

/// Every level takes a non-negative number of rows, so level tops only
/// grow.
pub proof fn lemma_level_top_mono(luma_h: int, chroma: bool, full: bool, pel: int, a: int, b: int)
    requires
        luma_h >= 0,
        0 <= a <= b,
    ensures
        0 <= level_top(luma_h, chroma, full, pel, a) <= level_top(luma_h, chroma, full, pel, b),
    decreases b,
{
    if b > 0 {
        let a1 = if a < b { a } else { b - 1 };
        lemma_level_top_mono(luma_h, chroma, full, pel, a1, b - 1);
        lemma_reduce_bounds(luma_h, b - 1);
        let d = level_dim(luma_h, chroma, b - 1);
        let sub = if b - 1 == 0 && full { pel * pel } else { 1 };
        assert(pel * pel >= 0) by (nonlinear_arith);
        assert(d * sub >= 0) by (nonlinear_arith)
            requires
                d >= 0,
                sub >= 0,
        ;
    }
}

/// The luma levels above level `lv` take as many rows as a super plane of
/// `lv` levels.
pub proof fn lemma_level_top_luma(h: int, pel: int, lv: int)
    requires
        h >= 0,
        lv >= 1,
    ensures
        level_top(h, false, true, pel, lv) == super_plane_height_spec(h, pel, lv, true),
    decreases lv,
{
    if lv == 1 {
        assert(level_top(h, false, true, pel, 0) == 0);
        assert(reduce_dim_spec(h, 0) == h);
        assert(h * (pel * pel) == pel * pel * h) by (nonlinear_arith);
    } else {
        lemma_level_top_luma(h, pel, lv - 1);
    }
}

/// A chroma level takes half the rows of its luma level, the full level
/// included when the luma height is even.
pub proof fn lemma_level_top_chroma(h: int, pel: int, lv: int)
    requires
        h >= 0,
        h % 2 == 0,
        lv >= 0,
    ensures
        2 * level_top(h, true, true, pel, lv) == level_top(h, false, true, pel, lv),
    decreases lv,
{
    if lv > 0 {
        lemma_level_top_chroma(h, pel, lv - 1);
        lemma_reduce_bounds(h, lv - 1);
        if lv - 1 == 0 {
            assert(reduce_dim_spec(h, 0) == h);
            let p2 = pel * pel;
            assert(2 * ((h / 2) * p2) == h * p2) by (nonlinear_arith)
                requires
                    h % 2 == 0,
            ;
        } else {
            let r = reduce_dim_spec(h, lv - 1);
            assert(2 * (r / 2) == r);
        }
    }
}


/// A bilinear pass keeps the length of the buffer.
pub proof fn lemma_bilinear_walk_len(buf: Seq<u8>, stride: int, a_row: int, b_row: int, b_off: int, dst_row: int, w: int, k: int)
    requires
        stride >= 0,
        dst_row >= 0,
    ensures
        bilinear_walk(buf, stride, a_row, b_row, b_off, dst_row, w, k).len() == buf.len(),
    decreases k,
{
    if k > 0 && w > 0 {
        lemma_bilinear_walk_len(buf, stride, a_row, b_row, b_off, dst_row, w, k - 1);
        let (y, x) = walk_pos(k - 1, w);
        vstd::arithmetic::div_mod::lemma_div_pos_is_pos(k - 1, w);
        vstd::arithmetic::div_mod::lemma_mod_pos_bound(k - 1, w);
        assert((dst_row + y) * stride + x >= 0) by (nonlinear_arith)
            requires
                dst_row + y >= 0,
                stride >= 0,
                x >= 0,
        ;
    }
}

/// Reducing the levels keeps the length of the buffer.
pub proof fn lemma_reduce_levels_len(buf: Seq<u8>, stride: int, luma_w: int, luma_h: int, chroma: bool, full: bool, pel: int, k: int)
    ensures
        reduce_levels(buf, stride, luma_w, luma_h, chroma, full, pel, k).len() == buf.len(),
    decreases k,
{
    if k > 0 {
        lemma_reduce_levels_len(buf, stride, luma_w, luma_h, chroma, full, pel, k - 1);
        let prev = reduce_levels(buf, stride, luma_w, luma_h, chroma, full, pel, k - 1);
        let t1 = level_top(luma_h, chroma, full, pel, k);
        let t0 = level_top(luma_h, chroma, full, pel, k - 1);
        let dh = level_dim(luma_h, chroma, k);
        lemma_reduce_rows_len(prev, prev, stride, t1, level_dim(luma_w, chroma, k), dh, t0, level_dim(luma_w, chroma, k - 1), level_dim(luma_h, chroma, k - 1), dh);
    }
}

/// A plane built without the bicubic filter is as long as the buffer it
/// was built in.
pub proof fn lemma_build_spec_len(
    buf: Seq<u8>,
    dst_stride: int,
    src: Seq<u8>,
    src_stride: int,
    src_w: int,
    src_h: int,
    luma_w: int,
    luma_h: int,
    chroma: bool,
    opts: SuperOpts,
)
    requires
        opts.scale_up != 2,
        dst_stride >= 0,
        luma_h >= 0,
    ensures
        build_spec(buf, dst_stride, src, src_stride, src_w, src_h, luma_w, luma_h, chroma, opts).len() == buf.len(),
{
    let levels = opts.levels as int;
    let pel = opts.pel as int;
    if !(levels == 0 || src_w == 0 || src_h == 0) {
        let base_w = level_dim(luma_w, chroma, 0);
        let base_h = level_dim(luma_h, chroma, 0);
        let rows = if base_h < src_h { base_h } else { src_h };
        let b0 = base_rows_spec(buf, dst_stride, src, src_stride, src_w, base_w, rows);
        lemma_base_rows_len(buf, dst_stride, src, src_stride, src_w, base_w, rows);
        lemma_reduce_levels_len(b0, dst_stride, luma_w, luma_h, chroma, opts.full, pel, levels - 1);
        let b1 = if opts.scale_down == 4 {
            reduce_levels(b0, dst_stride, luma_w, luma_h, chroma, opts.full, pel, levels - 1)
        } else {
            b0
        };
        let wh = base_w * base_h;
        crate::super_opts::lemma_reduce_nonneg(luma_h, 0);
        assert(base_h >= 0);
        lemma_bilinear_walk_len(b1, dst_stride, 0, 0, 1, base_h, base_w, wh);
        let c1 = bilinear_walk(b1, dst_stride, 0, 0, 1, base_h, base_w, wh);
        lemma_bilinear_walk_len(c1, dst_stride, 0, 1, 0, 2 * base_h, base_w, wh);
        let c2 = bilinear_walk(c1, dst_stride, 0, 1, 0, 2 * base_h, base_w, wh);
        let c3 = copy_row_spec(c2, (2 * base_h) * dst_stride, 0 * dst_stride, base_w);
        lemma_bilinear_walk_len(c3, dst_stride, 0, 1, 1, 3 * base_h, base_w, wh);
    }
}

/// A bilinear pass leaves every byte before its first output row.
proof fn lemma_walk_below(buf: Seq<u8>, stride: int, a_row: int, b_row: int, b_off: int, dst_row: int, w: int, k: int, i: int)
    requires
        stride >= 0,
        dst_row >= 0,
        0 <= i < dst_row * stride,
        i < buf.len(),
    ensures
        bilinear_walk(buf, stride, a_row, b_row, b_off, dst_row, w, k)[i] == buf[i],
    decreases k,
{
    if k > 0 && w > 0 {
        lemma_walk_below(buf, stride, a_row, b_row, b_off, dst_row, w, k - 1, i);
        lemma_bilinear_walk_len(buf, stride, a_row, b_row, b_off, dst_row, w, k - 1);
        let (y, x) = walk_pos(k - 1, w);
        vstd::arithmetic::div_mod::lemma_fundamental_div_mod(k - 1, w);
        assert(y >= 0 && x >= 0) by {
            vstd::arithmetic::div_mod::lemma_div_pos_is_pos(k - 1, w);
        }
        assert(dst_row * stride <= (dst_row + y) * stride + x) by (nonlinear_arith)
            requires
                y >= 0,
                x >= 0,
                stride >= 0,
        ;
    }
}

/// Output `x` of row `y` of a bilinear pass, once its step is past,
/// averages the bytes it reads from the pass's input, where those lie
/// before the first output row and output rows do not overlap.
proof fn lemma_walk_at(buf: Seq<u8>, stride: int, a_row: int, b_row: int, b_off: int, dst_row: int, w: int, k: int, y: int, x: int)
    requires
        1 <= w <= stride,
        dst_row >= 0,
        0 <= y,
        0 <= x < w,
        y * w + x < k,
        0 <= (a_row + y) * stride + x < dst_row * stride,
        0 <= (b_row + y) * stride + b_off + x < dst_row * stride,
        (dst_row + y) * stride + x < buf.len(),
    ensures
        bilinear_walk(buf, stride, a_row, b_row, b_off, dst_row, w, k)[(dst_row + y) * stride + x]
            == avg_spec(buf[(a_row + y) * stride + x] as int, buf[(b_row + y) * stride + b_off + x] as int),
    decreases k,
{
    let prev = bilinear_walk(buf, stride, a_row, b_row, b_off, dst_row, w, k - 1);
    lemma_bilinear_walk_len(buf, stride, a_row, b_row, b_off, dst_row, w, k - 1);
    assert(dst_row * stride <= (dst_row + y) * stride + x) by (nonlinear_arith)
        requires
            y >= 0,
            x >= 0,
            stride >= 0,
    ;
    let (y1, x1) = walk_pos(k - 1, w);
    vstd::arithmetic::div_mod::lemma_fundamental_div_mod(k - 1, w);
    if k - 1 == y * w + x {
        lemma_walk_pos(y, x, w);
        lemma_walk_below(buf, stride, a_row, b_row, b_off, dst_row, w, k - 1, (a_row + y) * stride + x);
        lemma_walk_below(buf, stride, a_row, b_row, b_off, dst_row, w, k - 1, (b_row + y) * stride + b_off + x);
    } else {
        lemma_walk_at(buf, stride, a_row, b_row, b_off, dst_row, w, k - 1, y, x);
        assert(y1 >= 0) by {
            vstd::arithmetic::div_mod::lemma_div_pos_is_pos(k - 1, w);
        }
        assert((dst_row + y1) * stride + x1 != (dst_row + y) * stride + x) by (nonlinear_arith)
            requires
                k - 1 == w * y1 + x1,
                k - 1 != y * w + x,
                0 <= x1 < w,
                0 <= x < w,
                w <= stride,
        ;
    }
}

/// Every pass and copy after the horizontal half-pixel plane writes at or
/// past the vertical plane's first row.
proof fn lemma_pel2_tail_keeps(buf: Seq<u8>, stride: int, row0: int, w: int, h: int, i: int)
    requires
        stride >= 0,
        row0 >= 0,
        h >= 0,
        0 <= i < (row0 + 2 * h) * stride,
        i < buf.len(),
    ensures
        ({
            let b2 = bilinear_walk(buf, stride, row0, row0 + 1, 0, row0 + 2 * h, w, w * h);
            let b3 = copy_row_spec(b2, (row0 + 2 * h) * stride, row0 * stride, w);
            let b4 = bilinear_walk(b3, stride, row0, row0 + 1, 1, row0 + 3 * h, w, w * h);
            let b5 = copy_row_spec(b4, (row0 + 3 * h) * stride, row0 * stride + 1, w);
            b5.len() == buf.len() && b5[i] == buf[i]
        }),
{
    let b2 = bilinear_walk(buf, stride, row0, row0 + 1, 0, row0 + 2 * h, w, w * h);
    lemma_bilinear_walk_len(buf, stride, row0, row0 + 1, 0, row0 + 2 * h, w, w * h);
    lemma_walk_below(buf, stride, row0, row0 + 1, 0, row0 + 2 * h, w, w * h, i);
    let b3 = copy_row_spec(b2, (row0 + 2 * h) * stride, row0 * stride, w);
    assert((row0 + 2 * h) * stride <= (row0 + 3 * h) * stride) by (nonlinear_arith)
        requires
            h >= 0,
            stride >= 0,
    ;
    lemma_bilinear_walk_len(b3, stride, row0, row0 + 1, 1, row0 + 3 * h, w, w * h);
    lemma_walk_below(b3, stride, row0, row0 + 1, 1, row0 + 3 * h, w, w * h, i);
}

/// In the bilinear half-pixel planes of a level at `row0` (`w` x `h`, rows
/// `stride` apart, the three planes below it): sample `x` of row `y` of the
/// horizontal plane is the rounded-up average of full samples `x` and
/// `x + 1` of row `y`; of the vertical plane (past its first row, which
/// repeats the full plane's), of rows `y` and `y + 1`; of the diagonal
/// plane (past its first row), of `x` in row `y` and `x + 1` in row `y + 1`.
pub proof fn lemma_pel2_planes(buf: Seq<u8>, stride: int, row0: int, w: int, h: int, y: int, x: int)
    requires
        2 <= w <= stride,
        row0 >= 0,
        0 <= y < h,
        0 <= x < w,
        (row0 + 4 * h) * stride <= buf.len(),
    ensures
        ({
            let out = bilinear_pel2_spec(buf, stride, row0, w, h);
            let full = |yy: int, xx: int| buf[(row0 + yy) * stride + xx] as int;
            &&& x + 1 < w ==> out[(row0 + h + y) * stride + x] == (full(y, x) + full(y, x + 1) + 1) / 2
            &&& 1 <= y && y + 1 < h ==> out[(row0 + 2 * h + y) * stride + x] == (full(y, x) + full(y + 1, x) + 1) / 2
            &&& 1 <= y && y + 1 < h && x + 1 < w ==> out[(row0 + 3 * h + y) * stride + x] == (full(y, x) + full(y + 1, x + 1) + 1) / 2
        }),
{
    let wh = w * h;
    assert(y * w + x < wh) by (nonlinear_arith)
        requires
            0 <= y < h,
            0 <= x < w,
            wh == w * h,
    ;
    assert(0 <= (row0 + y) * stride && (row0 + y + 1) * stride <= (row0 + h) * stride
        && (row0 + h) * stride <= (row0 + 2 * h) * stride && (row0 + 2 * h) * stride <= (row0 + 3 * h) * stride
        && (row0 + 3 * h + y) * stride + x < (row0 + 4 * h) * stride) by (nonlinear_arith)
        requires
            row0 >= 0,
            0 <= y < h,
            0 <= x < w,
            w <= stride,
    ;
    assert((row0 + y + 1) * stride == (row0 + y) * stride + stride) by (nonlinear_arith);
    assert((row0 + 3 * h) * stride <= (row0 + 4 * h) * stride) by (nonlinear_arith)
        requires
            h >= 0,
            stride >= 0,
    ;
    assert((row0 + h + y) * stride + x < (row0 + 2 * h) * stride && (row0 + 2 * h + y) * stride + x < (row0 + 3 * h) * stride) by (nonlinear_arith)
        requires
            0 <= y < h,
            0 <= x < w,
            w <= stride,
    ;
    let b1 = bilinear_walk(buf, stride, row0, row0, 1, row0 + h, w, wh);
    lemma_bilinear_walk_len(buf, stride, row0, row0, 1, row0 + h, w, wh);
    let b2 = bilinear_walk(b1, stride, row0, row0 + 1, 0, row0 + 2 * h, w, wh);
    lemma_bilinear_walk_len(b1, stride, row0, row0 + 1, 0, row0 + 2 * h, w, wh);
    let b3 = copy_row_spec(b2, (row0 + 2 * h) * stride, row0 * stride, w);
    let b4 = bilinear_walk(b3, stride, row0, row0 + 1, 1, row0 + 3 * h, w, wh);
    lemma_bilinear_walk_len(b3, stride, row0, row0 + 1, 1, row0 + 3 * h, w, wh);
    let b5 = copy_row_spec(b4, (row0 + 3 * h) * stride, row0 * stride + 1, w);
    assert(b5 == bilinear_pel2_spec(buf, stride, row0, w, h));
    if x + 1 < w {
        lemma_walk_at(buf, stride, row0, row0, 1, row0 + h, w, wh, y, x);
        lemma_pel2_tail_keeps(b1, stride, row0, w, h, (row0 + h + y) * stride + x);
    }
    if 1 <= y && y + 1 < h {
        assert((row0 + y + 1) * stride + x < (row0 + h) * stride) by (nonlinear_arith)
            requires
                y + 1 < h,
                0 <= x < w,
                w <= stride,
        ;
        let i2 = (row0 + 2 * h + y) * stride + x;
        let r0 = (row0 + y) * stride + x;
        let r1 = (row0 + 1 + y) * stride + x;
        lemma_walk_below(buf, stride, row0, row0, 1, row0 + h, w, wh, r0);
        lemma_walk_below(buf, stride, row0, row0, 1, row0 + h, w, wh, r1);
        lemma_walk_at(b1, stride, row0, row0 + 1, 0, row0 + 2 * h, w, wh, y, x);
        assert(i2 >= (row0 + 2 * h) * stride + stride) by (nonlinear_arith)
            requires
                y >= 1,
                i2 == (row0 + 2 * h + y) * stride + x,
                x >= 0,
                stride >= 0,
        ;
        lemma_walk_below(b3, stride, row0, row0 + 1, 1, row0 + 3 * h, w, wh, i2);
        if x + 1 < w {
            let i3 = (row0 + 3 * h + y) * stride + x;
            let d1 = (row0 + 1 + y) * stride + 1 + x;
            assert((row0 + 2 + y) * stride <= (row0 + h) * stride) by (nonlinear_arith)
                requires
                    y + 2 <= h,
                    stride >= 0,
            ;
            assert((row0 + 1 + y) * stride + stride == (row0 + 2 + y) * stride) by (nonlinear_arith);
            assert(d1 < (row0 + h) * stride);
            lemma_walk_below(buf, stride, row0, row0, 1, row0 + h, w, wh, d1);
            lemma_walk_below(b1, stride, row0, row0 + 1, 0, row0 + 2 * h, w, wh, d1);
            lemma_walk_below(b1, stride, row0, row0 + 1, 0, row0 + 2 * h, w, wh, r0);
            assert(b3[d1] == b2[d1] && b3[r0] == b2[r0]);
            lemma_walk_at(b3, stride, row0, row0 + 1, 1, row0 + 3 * h, w, wh, y, x);
            assert(i3 >= (row0 + 3 * h) * stride + stride) by (nonlinear_arith)
                requires
                    y >= 1,
                    i3 == (row0 + 3 * h + y) * stride + x,
                    x >= 0,
                    stride >= 0,
            ;
        }
    }
}

/// The half-pixel filter keeps a flat line flat: where every sample it
/// reads is `v`, the half-pixel sample is `v` (its taps sum to 32, and the
/// averages near the ends to 1).
pub proof fn lemma_half_flat(buf: Seq<u8>, i: int, step: int, p: int, n: int, v: u8)
    requires
        step >= 0,
        half_in_bounds(buf.len() as int, i, step, p, n),
        forall|k: int| 0 <= k < buf.len() ==> #[trigger] buf[k] == v,
    ensures
        half_spec(buf, i, step, p, n) == v,
{
    if p < 2 || p + 4 >= n {
        if p + 1 != n {
            assert(buf[i] == v && buf[i + step] == v);
        }
    } else {
        assert(buf[i - 2 * step] == v && buf[i + 3 * step] == v);
        assert(buf[i - step] == v && buf[i] == v && buf[i + step] == v && buf[i + 2 * step] == v);
    }
}

/// The vertical reduction keeps a flat column flat: where the column's
/// `src_h` samples are all `v`, every reduced sample is `v` (the filter's
/// taps sum to 32, the edge averages to 1).
pub proof fn lemma_vert_flat(buf: Seq<u8>, stride: int, src_row0: int, src_h: int, dst_h: int, dy: int, x: int, v: u8)
    requires
        src_h >= 1,
        0 <= dy,
        forall|yy: int| 0 <= yy < src_h ==> #[trigger] sample_spec(buf, stride, src_row0, yy, x) == v,
    ensures
        vert_at(buf, stride, src_row0, src_h, dst_h, dy, x) == v,
{
    let sy = 2 * dy;
    if dy == 0 || dy + 1 == dst_h || sy - 2 < 0 || sy + 3 >= src_h {
        let y0 = min_int(sy, src_h - 1);
        let y1 = min_int(sy + 1, src_h - 1);
        assert(sample_spec(buf, stride, src_row0, y0, x) == v);
        assert(sample_spec(buf, stride, src_row0, y1, x) == v);
    } else {
        let st = sy - 2;
        assert(sample_spec(buf, stride, src_row0, st, x) == v);
        assert(sample_spec(buf, stride, src_row0, st + 1, x) == v);
        assert(sample_spec(buf, stride, src_row0, st + 2, x) == v);
        assert(sample_spec(buf, stride, src_row0, st + 3, x) == v);
        assert(sample_spec(buf, stride, src_row0, st + 4, x) == v);
        assert(sample_spec(buf, stride, src_row0, st + 5, x) == v);
    }
}

/// The horizontal reduction keeps a flat row flat: a row of at least
/// `2 * dst_w` samples, all `v`, reduces to `dst_w` samples `v`.
pub proof fn lemma_hreduce_flat(src: Seq<u8>, dst_w: int, i: int, v: u8)
    requires
        1 <= dst_w,
        2 * dst_w <= src.len(),
        0 <= i < dst_w,
        forall|k: int| 0 <= k < src.len() ==> #[trigger] src[k] == v,
    ensures
        hreduce_at(src, dst_w, i) == v,
{
    assert(src[0] == v && src[1] == v);
    assert(src[2 * i] == v && src[2 * i + 1] == v);
    if dst_w > 2 && 0 < i < dst_w - 1 {
        let j = i - 1;
        let k = 5 + 2 * j;
        assert(src[src.len() - 1] == v);
        assert(src[k - 4] == v && src[k - 3] == v && src[k - 2] == v && src[k - 1] == v);
        if j > 0 {
            assert(src[2 * j] == v);
        }
        if k < src.len() {
            assert(src[k] == v);
        }
    }
}

} // verus!
