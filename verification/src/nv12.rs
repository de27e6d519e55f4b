//! Packing a planar 4:2:0 frame into NV12: the luma rows, then the two
//! chroma planes interleaved sample by sample.
use vstd::prelude::*;
use crate::arith::sat_usize;

verus! {

/// Whether row `row` (`len` samples, source rows `stride` apart, output
/// rows `width` apart) lies inside both buffers.
pub open spec fn row_fits(src_len: int, dst_len: int, stride: int, width: int, row: int, len: int) -> bool {
    let s = sat_usize(row * stride);
    let d = sat_usize(row * width);
    s + len <= src_len && d + len <= dst_len
}

/// `dst` after `copy_row`: row `row` of `src` copied into row `row` of
/// `dst` when it lies inside both.
pub open spec fn copy_row_spec(src: Seq<u8>, stride: int, dst: Seq<u8>, width: int, row: int, len: int) -> Seq<u8> {
    if row_fits(src.len() as int, dst.len() as int, stride, width, row, len) {
        let s = sat_usize(row * stride);
        let d = sat_usize(row * width);
        Seq::new(dst.len(), |i: int| if d <= i < d + len { src[i - d + s] } else { dst[i] })
    } else {
        dst
    }
}

/// Copies `len` samples of row `row` of `src` (rows `stride` apart) into
/// row `row` of `dst` (rows `width` apart); nothing when either run is
/// not wholly inside its buffer.
pub fn copy_row(src: &[u8], stride: usize, dst: &mut [u8], width: usize, row: usize, len: usize)
    requires
        src@.len() <= isize::MAX,
        old(dst)@.len() <= isize::MAX,
    ensures
        final(dst)@ == copy_row_spec(src@, stride as int, old(dst)@, width as int, row as int, len as int),
{
    let src_start = crate::arith::sat_mul_usize(row, stride);
    let dst_start = crate::arith::sat_mul_usize(row, width);
    let slen = src.len();
    let dlen = dst.len();
    if src_start > slen || len > slen - src_start || dst_start > dlen || len > dlen - dst_start {
        return;
    }
    let ghost before = dst@;
    let mut i: usize = 0;
    while i < len
        invariant
            0 <= i <= len,
            src_start + len <= slen,
            dst_start + len <= dlen,
            slen == src@.len(),
            dlen == dst@.len(),
            before.len() == dlen,
            forall|k: int| 0 <= k < dlen ==> #[trigger] dst@[k] == (if dst_start <= k < dst_start + i { src@[k - dst_start + src_start] } else { before[k] }),
        decreases len - i,
    {
        dst[dst_start + i] = src[src_start + i];
        i = i + 1;
    }
    assert(dst@ =~= copy_row_spec(src@, stride as int, before, width as int, row as int, len as int));
}

/// The frame after the first `k` luma rows are copied into `out`.
pub open spec fn luma_rows(y: Seq<u8>, y_stride: int, out: Seq<u8>, width: int, k: int) -> Seq<u8>
    decreases k,
{
    if k <= 0 {
        out
    } else {
        copy_row_spec(y, y_stride, luma_rows(y, y_stride, out, width, k - 1), width, k - 1, width)
    }
}

/// Where chroma sample (`col`, `row`) goes: after the luma plane, rows
/// `width` apart, two bytes per sample (saturating).
pub open spec fn uv_dst(width: int, height: int, row: int, col: int) -> int {
    sat_usize(sat_usize(sat_usize(width * height) + sat_usize(row * width)) + sat_usize(col * 2))
}

/// Chroma sample (`col`, `row`) of a plane with rows `stride` apart, or 0
/// past its end.
pub open spec fn uv_sample(plane: Seq<u8>, stride: int, row: int, col: int) -> u8 {
    let i = sat_usize(sat_usize(row * stride) + col);
    if i < plane.len() { plane[i] } else { 0 }
}

/// The frame after the chroma samples of the first `k` cells (row by row,
/// `cols` per row) are written.
pub open spec fn chroma_cells(u: Seq<u8>, v: Seq<u8>, uv_stride: int, out: Seq<u8>, width: int, height: int, cols: int, k: int) -> Seq<u8>
    decreases k,
{
    if k <= 0 || cols <= 0 {
        out
    } else {
        let prev = chroma_cells(u, v, uv_stride, out, width, height, cols, k - 1);
        let row = (k - 1) / cols;
        let col = (k - 1) % cols;
        let d = uv_dst(width, height, row, col);
        if d + 1 < prev.len() {
            prev.update(d, uv_sample(u, uv_stride, row, col)).update(d + 1, uv_sample(v, uv_stride, row, col))
        } else {
            prev
        }
    }
}

/// The NV12 frame that `pack_nv12` builds: a zeroed buffer of one and a
/// half times `width * height` bytes, the luma rows copied in, then the
/// chroma samples interleaved.
pub open spec fn nv12_spec(y: Seq<u8>, u: Seq<u8>, v: Seq<u8>, width: int, height: int, y_stride: int, uv_stride: int) -> Seq<u8> {
    let len = sat_usize(sat_usize(width * height) * 3) / 2;
    let zeros = Seq::new(len as nat, |i: int| 0u8);
    let with_luma = luma_rows(y, y_stride, zeros, width, height);
    chroma_cells(u, v, uv_stride, with_luma, width, height, width / 2, (height / 2) * (width / 2))
}

/// Packs planar 4:2:0 planes (`width` x `height` luma) into NV12.
pub fn pack_nv12(
    y: &[u8],
    u: &[u8],
    v: &[u8],
    width: usize,
    height: usize,
    y_stride: usize,
    uv_stride: usize,
) -> (r: Vec<u8>)
    requires
        y@.len() <= isize::MAX,
        width * height * 3 <= isize::MAX,
    ensures
        r@ == nv12_spec(y@, u@, v@, width as int, height as int, y_stride as int, uv_stride as int),
{
    let len = crate::arith::sat_mul_usize(crate::arith::sat_mul_usize(width, height), 3) / 2;
    let mut out: Vec<u8> = vec![0; len];
    let ghost zeros = Seq::new(len as nat, |i: int| 0u8);
    assert(out@ =~= zeros);
    let mut row: usize = 0;
    while row < height
        invariant
            0 <= row <= height,
            y@.len() <= isize::MAX,
            out@.len() == len,
            len <= isize::MAX,
            out@ == luma_rows(y@, y_stride as int, zeros, width as int, row as int),
        decreases height - row,
    {
        copy_row(y, y_stride, out.as_mut_slice(), width, row, width);
        row = row + 1;
    }
    let ghost with_luma = out@;
    let uv_base = crate::arith::sat_mul_usize(width, height);
    let half_h = height / 2;
    let half_w = width / 2;
    let ulen = u.len();
    let vlen = v.len();
    let mut r: usize = 0;
    while r < half_h
        invariant
            0 <= r <= half_h,
            half_h == height / 2,
            half_w == width / 2,
            uv_base == sat_usize(width * height),
            ulen == u@.len(),
            vlen == v@.len(),
            out@.len() == len,
            len <= isize::MAX,
            out@ == chroma_cells(u@, v@, uv_stride as int, with_luma, width as int, height as int, half_w as int, r * half_w),
        decreases half_h - r,
    {
        let mut c: usize = 0;
        while c < half_w
            invariant
                0 <= c <= half_w,
                0 <= r < half_h,
                half_h == height / 2,
                half_w == width / 2,
                uv_base == sat_usize(width * height),
                ulen == u@.len(),
                vlen == v@.len(),
                out@.len() == len,
                len <= isize::MAX,
                out@ == chroma_cells(u@, v@, uv_stride as int, with_luma, width as int, height as int, half_w as int, r * half_w + c),
            decreases half_w - c,
        {
            proof {
                vstd::arithmetic::div_mod::lemma_fundamental_div_mod_converse(
                    (r * half_w + c) as int,
                    half_w as int,
                    r as int,
                    c as int,
                );
                assert((r + 1) * half_w <= half_h * half_w) by (nonlinear_arith)
                    requires
                        r + 1 <= half_h,
                        half_w >= 0,
                ;
            }
            let src = crate::arith::sat_add_usize(crate::arith::sat_mul_usize(r, uv_stride), c);
            let dst = crate::arith::sat_add_usize(
                crate::arith::sat_add_usize(uv_base, crate::arith::sat_mul_usize(r, width)),
                crate::arith::sat_mul_usize(c, 2),
            );
            if dst < len && dst + 1 < len {
                let a: u8 = if src < ulen { u[src] } else { 0 };
                let b: u8 = if src < vlen { v[src] } else { 0 };
                out.set(dst, a);
                out.set(dst + 1, b);
            }
            c = c + 1;
        }
        proof {
            assert(r * half_w + half_w == (r + 1) * half_w) by (nonlinear_arith);
        }
        r = r + 1;
    }
    out
}

/// Copying the first `k` luma rows keeps the length, leaves every byte
/// from `width * k` on, and puts sample `x` of a copied row `r` (one that
/// lies inside both buffers) at `r * width + x`.
proof fn lemma_luma_rows_at(y: Seq<u8>, y_stride: int, out: Seq<u8>, width: int, k: int, r: int, x: int)
    requires
        width >= 0,
        y_stride >= 0,
        y.len() <= isize::MAX,
        out.len() <= isize::MAX,
    ensures
        luma_rows(y, y_stride, out, width, k).len() == out.len(),
        0 <= r < k && 0 <= x < width && row_fits(y.len() as int, out.len() as int, y_stride, width, r, width)
            ==> luma_rows(y, y_stride, out, width, k)[r * width + x] == y[r * y_stride + x],
    decreases k,
{
    if k > 0 {
        lemma_luma_rows_at(y, y_stride, out, width, k - 1, r, x);
        let prev = luma_rows(y, y_stride, out, width, k - 1);
        if 0 <= r < k && 0 <= x < width && row_fits(y.len() as int, out.len() as int, y_stride, width, r, width) {
            assert(0 <= r * width && 0 <= r * y_stride) by (nonlinear_arith)
                requires
                    0 <= r,
                    0 <= width,
                    0 <= y_stride,
            ;
            if r < k - 1 {
                assert(r * width + x < (k - 1) * width) by (nonlinear_arith)
                    requires
                        0 <= r < k - 1,
                        0 <= x < width,
                ;
                if row_fits(y.len() as int, prev.len() as int, y_stride, width, k - 1, width) {
                    assert(0 <= (k - 1) * width) by (nonlinear_arith)
                        requires
                            0 <= k - 1,
                            0 <= width,
                    ;
                }
            }
        }
    }
}

/// The luma plane of an NV12 frame: sample `x` of row `r` of the source
/// lands at `r * width + x`, for every row that lies inside the source.
pub proof fn lemma_nv12_luma(y: Seq<u8>, u: Seq<u8>, v: Seq<u8>, width: int, height: int, y_stride: int, uv_stride: int, r: int, x: int)
    requires
        width >= 0,
        height >= 0,
        y_stride >= 0,
        uv_stride >= 0,
        y.len() <= isize::MAX,
        width * height * 3 <= isize::MAX,
        0 <= r < height,
        0 <= x < width,
        r * y_stride + width <= y.len(),
    ensures
        nv12_spec(y, u, v, width, height, y_stride, uv_stride)[r * width + x] == y[r * y_stride + x],
{
    let wh = width * height;
    assert(0 <= wh && wh * 3 <= isize::MAX) by (nonlinear_arith)
        requires
            width >= 0,
            height >= 0,
            wh == width * height,
            width * height * 3 <= isize::MAX,
    ;
    let len = sat_usize(sat_usize(wh) * 3) / 2;
    assert(len == (wh * 3) / 2);
    let zeros = Seq::new(len as nat, |i: int| 0u8);
    assert(0 <= r * width && r * width + width <= wh) by (nonlinear_arith)
        requires
            0 <= r < height,
            0 <= width,
            wh == width * height,
    ;
    assert(0 <= r * y_stride) by (nonlinear_arith)
        requires
            0 <= r,
            0 <= y_stride,
    ;
    assert(row_fits(y.len() as int, len as int, y_stride, width, r, width));
    lemma_luma_rows_at(y, y_stride, zeros, width, height, r, x);
    let with_luma = luma_rows(y, y_stride, zeros, width, height);
    lemma_chroma_keeps_luma(u, v, uv_stride, with_luma, width, height, width / 2, (height / 2) * (width / 2), r * width + x);
}

/// Writing chroma cells keeps the length and leaves every byte before
/// `width * height`.
proof fn lemma_chroma_keeps_luma(u: Seq<u8>, v: Seq<u8>, uv_stride: int, out: Seq<u8>, width: int, height: int, cols: int, k: int, i: int)
    requires
        width >= 0,
        height >= 0,
        width * height <= usize::MAX,
        0 <= i < width * height,
    ensures
        chroma_cells(u, v, uv_stride, out, width, height, cols, k).len() == out.len(),
        i < out.len() ==> chroma_cells(u, v, uv_stride, out, width, height, cols, k)[i] == out[i],
    decreases k,
{
    if k > 0 && cols > 0 {
        lemma_chroma_keeps_luma(u, v, uv_stride, out, width, height, cols, k - 1, i);
        let row = (k - 1) / cols;
        let col = (k - 1) % cols;
        assert(uv_dst(width, height, row, col) >= width * height);
    }
}

/// After the first `k` chroma cells are written, cell (`c`, `r`) among
/// them holds its `u` sample at `width * height + r * width + 2 * c` and
/// its `v` sample just after.
proof fn lemma_chroma_cell_at(u: Seq<u8>, v: Seq<u8>, uv_stride: int, out: Seq<u8>, width: int, height: int, k: int, r: int, c: int)
    requires
        width >= 0,
        height >= 0,
        width * height * 3 <= isize::MAX,
        out.len() == (width * height * 3) / 2,
        0 <= r,
        0 <= c < width / 2,
        r * (width / 2) + c < k <= (height / 2) * (width / 2),
    ensures
        chroma_cells(u, v, uv_stride, out, width, height, width / 2, k)[width * height + r * width + 2 * c] == uv_sample(u, uv_stride, r, c),
        chroma_cells(u, v, uv_stride, out, width, height, width / 2, k)[width * height + r * width + 2 * c + 1] == uv_sample(v, uv_stride, r, c),
        chroma_cells(u, v, uv_stride, out, width, height, width / 2, k).len() == out.len(),
    decreases k,
{
    let cols = width / 2;
    let wh = width * height;
    let m = k - 1;
    let row = m / cols;
    let col = m % cols;
    vstd::arithmetic::div_mod::lemma_fundamental_div_mod(m, cols);
    assert(0 <= col < cols);
    assert(0 <= row) by (nonlinear_arith)
        requires
            m >= 0,
            cols > 0,
            row == m / cols,
    ;
    let prev = chroma_cells(u, v, uv_stride, out, width, height, cols, m);
    assert(row < height / 2) by (nonlinear_arith)
        requires
            m == cols * row + col,
            0 <= col,
            m < (height / 2) * cols,
            cols > 0,
    ;
    assert(0 <= row * width && row * width + width <= (height / 2) * width * 2 + width) by (nonlinear_arith)
        requires
            0 <= row < height / 2,
            width >= 0,
    ;
    assert(wh + row * width + 2 * col + 1 < (wh * 3) / 2) by (nonlinear_arith)
        requires
            wh == width * height,
            0 <= row < height / 2,
            0 <= col < width / 2,
            width >= 0,
            height >= 0,
    ;
    assert(0 <= r * width) by (nonlinear_arith)
        requires
            0 <= r,
            width >= 0,
    ;
    assert(uv_dst(width, height, row, col) == wh + row * width + 2 * col);
    if m == r * cols + c {
        vstd::arithmetic::div_mod::lemma_fundamental_div_mod_converse(m, cols, r, c);
        lemma_chroma_len(u, v, uv_stride, out, width, height, cols, m);
    } else {
        lemma_chroma_cell_at(u, v, uv_stride, out, width, height, m, r, c);
        assert(r <= row) by (nonlinear_arith)
            requires
                m == cols * row + col,
                r * cols + c < m,
                0 <= col < cols,
                0 <= c,
        ;
        assert(r < row || c < col) by (nonlinear_arith)
            requires
                m == cols * row + col,
                r * cols + c < m,
                r <= row,
        ;
        assert(r * width + 2 * c + 1 < row * width + 2 * col) by (nonlinear_arith)
            requires
                r <= row,
                r < row || c < col,
                0 <= c < cols,
                0 <= col < cols,
                2 * cols <= width,
        ;
    }
}

/// Writing chroma cells keeps the length.
proof fn lemma_chroma_len(u: Seq<u8>, v: Seq<u8>, uv_stride: int, out: Seq<u8>, width: int, height: int, cols: int, k: int)
    ensures
        chroma_cells(u, v, uv_stride, out, width, height, cols, k).len() == out.len(),
    decreases k,
{
    if k > 0 && cols > 0 {
        lemma_chroma_len(u, v, uv_stride, out, width, height, cols, k - 1);
    }
}

/// The chroma part of an NV12 frame: the `u` and `v` samples of cell
/// (`c`, `r`) side by side at `width * height + r * width + 2 * c`.
pub proof fn lemma_nv12_chroma(y: Seq<u8>, u: Seq<u8>, v: Seq<u8>, width: int, height: int, y_stride: int, uv_stride: int, r: int, c: int)
    requires
        width >= 0,
        height >= 0,
        y_stride >= 0,
        y.len() <= isize::MAX,
        width * height * 3 <= isize::MAX,
        0 <= r < height / 2,
        0 <= c < width / 2,
    ensures
        nv12_spec(y, u, v, width, height, y_stride, uv_stride)[width * height + r * width + 2 * c] == uv_sample(u, uv_stride, r, c),
        nv12_spec(y, u, v, width, height, y_stride, uv_stride)[width * height + r * width + 2 * c + 1] == uv_sample(v, uv_stride, r, c),
{
    let wh = width * height;
    assert(0 <= wh) by (nonlinear_arith)
        requires
            width >= 0,
            height >= 0,
            wh == width * height,
    ;
    let len = sat_usize(sat_usize(wh) * 3) / 2;
    assert(len == (wh * 3) / 2);
    let zeros = Seq::new(len as nat, |i: int| 0u8);
    lemma_luma_rows_at(y, y_stride, zeros, width, height, 0, 0);
    let with_luma = luma_rows(y, y_stride, zeros, width, height);
    assert(r * (width / 2) + c < (height / 2) * (width / 2)) by (nonlinear_arith)
        requires
            0 <= r < height / 2,
            0 <= c < width / 2,
    ;
    lemma_chroma_cell_at(u, v, uv_stride, with_luma, width, height, (height / 2) * (width / 2), r, c);
}

} // verus!
