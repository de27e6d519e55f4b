//! The payload of an analysed frame: a header of sixteen words describing
//! the vector grid, then one region per searched direction, each a marker
//! word and two words per block; and the header words a vector clip
//! carries as its own description.
use vstd::prelude::*;
use crate::analyse_opts::AnalyseOpts;
use crate::analyse_search::{Vec8, write_i32, write_vecs, padded_vecs};
use crate::bytes::{put_i32, read_i32_at, read_u32_at, lemma_read_put_same, lemma_read_put_other, lemma_i32_u32_roundtrip};
use crate::metadata::{
    DecodedVector, VectorShape, VECTOR_MAGIC, encode_region_spec, encoded_region_header, region_header,
    decode_region_spec, decode_vectors_spec, vector_count_spec, second_region, stored_vector, entry_pos,
    lemma_region_roundtrip, lemma_region_prefix_unchanged,
};
use crate::recalc::output_dims;

verus! {

/// `s` with the first `k` words of `w` written at offsets 0, 4, 8, ...
pub open spec fn put_words(s: Seq<u8>, w: Seq<i32>, k: int) -> Seq<u8>
    decreases k,
{
    if k <= 0 {
        s
    } else {
        put_i32(put_words(s, w, k - 1), 4 * (k - 1), w[k - 1])
    }
}

/// The level count a payload reports: 1 when a refinement pass makes the
/// output vectors, else the number of search levels.
pub open spec fn levels_word(opts: AnalyseOpts) -> i32 {
    if opts.refine_thsad is Some { 1 } else { opts.levels }
}

/// The sixteen header words of a payload with direction flags `flags` over
/// a `gw` x `gh` grid of output blocks.
pub open spec fn frame_words(opts: AnalyseOpts, flags: i32, gw: i32, gh: i32) -> Seq<i32> {
    let d = output_dims(opts);
    seq![
        16i32, VECTOR_MAGIC, flags, d.0 as i32, d.1 as i32, opts.pel, levels_word(opts), 0i32,
        opts.width, opts.height, d.2 as i32, d.3 as i32, gw, gh, 1i32, opts.delta,
    ]
}

/// The grid of output blocks.
pub open spec fn frame_grid(opts: AnalyseOpts) -> (int, int) {
    let d = output_dims(opts);
    opts.grid_spec(d.0, d.1, d.2, d.3)
}

/// The vectors per region.
pub open spec fn frame_count(opts: AnalyseOpts) -> int {
    frame_grid(opts).0 * frame_grid(opts).1
}

/// The bytes of one region of `count` blocks.
pub open spec fn region_len(count: int) -> int {
    4 + 8 * count
}

/// Whether the layout of `opts` has sizes a payload can hold.
pub open spec fn pack_ok(opts: AnalyseOpts) -> bool {
    &&& -0x10000 <= opts.block_w <= 0x10000 && -0x10000 <= opts.block_h <= 0x10000
    &&& -0x10000 <= opts.overlap_x <= 0x10000 && -0x10000 <= opts.overlap_y <= 0x10000
    &&& -0x10000 <= opts.width <= 0x10000 && -0x10000 <= opts.height <= 0x10000
    &&& frame_count(opts) <= 0x0800_0000
}

/// The direction flags of a payload: 1 for the backward field, 2 for the
/// forward one.
pub open spec fn direction_flags(previous: bool, current: bool) -> i32 {
    ((if previous { 1int } else { 0int }) + (if current { 2int } else { 0int })) as i32
}

/// A field of search results as the vectors of a payload region.
pub open spec fn region_vectors(vecs: Seq<Vec8>, count: int) -> Seq<DecodedVector> {
    padded_vecs(vecs, count)
}

/// The payload of an analysed frame up to its forward field: the header
/// and the backward field (`previous`) when given; room is left for the
/// forward field when `current` is given.
pub open spec fn pack_head(opts: AnalyseOpts, previous: Option<Seq<Vec8>>, current: bool) -> Seq<u8> {
    let g = frame_grid(opts);
    let count = frame_count(opts);
    let flags = direction_flags(previous is Some, current);
    let n = (if previous is Some { 1int } else { 0int }) + (if current { 1int } else { 0int });
    let s0 = Seq::new((0x40 + n * region_len(count)) as nat, |i: int| 0u8);
    let s1 = put_words(s0, frame_words(opts, flags, g.0 as i32, g.1 as i32), 16);
    match previous {
        Some(p) => encode_region_spec(s1, 0x40, count, region_vectors(p, count)),
        None => s1,
    }
}

/// The payload of an analysed frame: header, then the backward field
/// (`previous`) and the forward field (`current`), each present only when
/// given; a field is cut or padded with zero vectors to the grid.
pub open spec fn pack_spec(opts: AnalyseOpts, previous: Option<Seq<Vec8>>, current: Option<Seq<Vec8>>) -> Seq<u8> {
    let count = frame_count(opts);
    let head = pack_head(opts, previous, current is Some);
    let at = if previous is Some { 0x40 + region_len(count) } else { 0x40 };
    match current {
        Some(c) => encode_region_spec(head, at, count, region_vectors(c, count)),
        None => head,
    }
}

/// The view of an optional field.
pub open spec fn field_view(f: Option<&[Vec8]>) -> Option<Seq<Vec8>> {
    match f {
        Some(v) => Some(v@),
        None => None,
    }
}

/// Bounds on the grid and its size.
proof fn lemma_frame_sizes(opts: AnalyseOpts)
    requires
        pack_ok(opts),
    ensures
        1 <= frame_grid(opts).0 <= 0x20001,
        1 <= frame_grid(opts).1 <= 0x20001,
        1 <= frame_count(opts) <= 0x0800_0000,
{
    let g = frame_grid(opts);
    assert(1 <= g.0 && 1 <= g.1);
    assert(g.0 <= 0x20001 && g.1 <= 0x20001) by {
        let d = output_dims(opts);
        crate::arith::lemma_div_shrinks(if opts.width - d.2 < 0 { d.2 - opts.width } else { opts.width - d.2 }, crate::recalc::max_i(d.0 - d.2, 1));
        crate::arith::lemma_div_shrinks(if opts.height - d.3 < 0 { d.3 - opts.height } else { opts.height - d.3 }, crate::recalc::max_i(d.1 - d.3, 1));
    }
    assert(1 <= g.0 * g.1) by (nonlinear_arith)
        requires 1 <= g.0, 1 <= g.1;
}

/// Writes a region of `count` blocks at `at`: the marker `2 * count + 1`
/// and the first `count` results of `vecs` (zero vectors past its end).
fn write_region(out: &mut Vec<u8>, at: usize, vecs: &[Vec8], count: usize)
    requires
        4 <= at,
        count <= 0x0800_0000,
        at + 4 + 8 * count <= usize::MAX,
    ensures
        final(out)@ == encode_region_spec(old(out)@, at as int, count as int, region_vectors(vecs@, count as int)),
{
    let marker = (2 * count + 1) as i32;
    assert(encoded_region_header(count as int) == marker);
    write_i32(out, at, marker);
    let _ = write_vecs(out, at + 4, vecs, count);
}

/// The payload of an analysed frame (see `pack_spec`).
pub fn pack_vector_frame(opts: &AnalyseOpts, previous: Option<&[Vec8]>, current: Option<&[Vec8]>) -> (r: Vec<u8>)
    requires
        pack_ok(*opts),
    ensures
        r@ == pack_spec(*opts, field_view(previous), field_view(current)),
{
    proof {
        lemma_frame_sizes(*opts);
    }
    let (bw, bh, ox, oy) = opts.output_block();
    let (gw, gh) = opts.grid(bw, bh, ox, oy);
    assert((bw as int, bh as int, ox as int, oy as int) == output_dims(*opts));
    assert(gw as int * gh as int == frame_count(*opts));
    let count = (gw * gh) as usize;
    let flags: i32 = (if previous.is_some() { 1i32 } else { 0i32 }) + (if current.is_some() { 2i32 } else { 0i32 });
    let region = 4 + count * 8;
    let mut n_regions: usize = 0;
    if previous.is_some() {
        n_regions = n_regions + 1;
    }
    if current.is_some() {
        n_regions = n_regions + 1;
    }
    assert(n_regions <= 2);
    assert(n_regions * region <= 2 * region) by (nonlinear_arith)
        requires n_regions <= 2, 0 <= region;
    let total = 0x40 + n_regions * region;
    let mut out: Vec<u8> = vec![0u8; total];
    let ghost s0 = out@;
    let levels: i32 = if opts.refine_thsad.is_some() { 1 } else { opts.levels };
    let words: Vec<i32> = vec![
        16i32, 0xA0i32, flags, bw, bh, opts.pel, levels, 0i32,
        opts.width, opts.height, ox, oy, gw, gh, 1i32, opts.delta,
    ];
    assert(words@ =~= frame_words(*opts, flags, gw, gh));
    let mut k: usize = 0;
    while k < 16
        invariant
            0 <= k <= 16,
            words@.len() == 16,
            out@ == put_words(s0, words@, k as int),
        decreases 16 - k,
    {
        write_i32(&mut out, 4 * k, words[k]);
        k = k + 1;
    }
    let mut cursor: usize = 0x40;
    if let Some(vecs) = previous {
        write_region(&mut out, cursor, vecs, count);
        cursor = cursor + region;
    }
    if let Some(vecs) = current {
        write_region(&mut out, cursor, vecs, count);
    }
    proof {
        assert(s0 =~= Seq::new(total as nat, |i: int| 0u8));
    }
    out
}

/// The direction flags of a vector clip: 1 or 2 for one direction, 3 for
/// both.
pub open spec fn clip_flags(vectors: i32) -> i32 {
    if vectors == 1 { 1 } else if vectors == 2 { 2 } else { 3 }
}

/// The header words a vector clip reports: those of its payloads after the
/// size word, with the clip's direction flags, and a final 0.
pub open spec fn vdata_words(opts: AnalyseOpts) -> Seq<i32> {
    let d = output_dims(opts);
    let g = frame_grid(opts);
    seq![
        VECTOR_MAGIC, clip_flags(opts.vectors), d.0 as i32, d.1 as i32, opts.pel, levels_word(opts), 0i32, opts.width,
        opts.height, d.2 as i32, d.3 as i32, g.0 as i32, g.1 as i32, 1i32, opts.delta, 0i32,
    ]
}

/// The header words of a vector clip (see `vdata_words`).
pub fn pack_vdata_header(opts: &AnalyseOpts) -> (r: Vec<i32>)
    requires
        pack_ok(*opts),
    ensures
        r@ == vdata_words(*opts),
{
    proof {
        lemma_frame_sizes(*opts);
    }
    let (bw, bh, ox, oy) = opts.output_block();
    let (gw, gh) = opts.grid(bw, bh, ox, oy);
    let flags: i32 = if opts.vectors == 1 { 1 } else if opts.vectors == 2 { 2 } else { 3 };
    let levels: i32 = if opts.refine_thsad.is_some() { 1 } else { opts.levels };
    let h: Vec<i32> = vec![
        0xA0i32, flags, bw, bh, opts.pel, levels, 0i32, opts.width,
        opts.height, ox, oy, gw, gh, 1i32, opts.delta, 0i32,
    ];
    assert(h@ =~= vdata_words(*opts));
    h
}

/// The words of `put_words` read back, and its length is kept.
proof fn lemma_put_words(s: Seq<u8>, w: Seq<i32>, k: int)
    requires
        0 <= k <= 16,
        w.len() == 16,
        s.len() >= 0x40,
    ensures
        put_words(s, w, k).len() == s.len(),
        forall|j: int| 0 <= j < k ==> #[trigger] read_i32_at(put_words(s, w, k), 4 * j) == Some(w[j]),
        forall|o: int| o >= 4 * k ==> #[trigger] read_u32_at(put_words(s, w, k), o) == read_u32_at(s, o),
    decreases k,
{
    if k > 0 {
        lemma_put_words(s, w, k - 1);
        let prev = put_words(s, w, k - 1);
        lemma_read_put_same(prev, 4 * (k - 1), w[k - 1] as u32);
        lemma_i32_u32_roundtrip(w[k - 1]);
        assert forall|j: int| 0 <= j < k implies #[trigger] read_i32_at(put_words(s, w, k), 4 * j) == Some(w[j]) by {
            if j < k - 1 {
                lemma_read_put_other(prev, 4 * (k - 1), w[k - 1] as u32, 4 * j);
                assert(read_i32_at(prev, 4 * j) == Some(w[j]));
            } else {
                assert(read_u32_at(put_words(s, w, k), 4 * j) == Some(w[j] as u32));
            }
        }
        assert forall|o: int| o >= 4 * k implies #[trigger] read_u32_at(put_words(s, w, k), o) == read_u32_at(s, o) by {
            lemma_read_put_other(prev, 4 * (k - 1), w[k - 1] as u32, o);
        }
    }
}

/// A payload reads back as it was packed: its direction flags, and each
/// field asked for by `select` (bit 1 the backward field, bit 2 the
/// forward one), cut or padded with zero vectors to the grid, with scores
/// cut to 24 bits. The forward field reads back only beside a backward
/// one: alone, the packer puts it where the reader expects the backward
/// field.
pub proof fn lemma_pack_roundtrip(opts: AnalyseOpts, previous: Option<Seq<Vec8>>, current: Option<Seq<Vec8>>, select: i32)
    requires
        pack_ok(opts),
        select & 1 != 0 ==> previous is Some,
        select & 2 != 0 ==> previous is Some && current is Some,
    ensures
        ({
            let g = frame_grid(opts);
            let count = frame_count(opts);
            decode_vectors_spec(
                pack_spec(opts, previous, current),
                direction_flags(previous is Some, current is Some),
                VectorShape { width: g.0 as i32, height: g.1 as i32 },
                select,
            ) == Some((
                if select & 1 != 0 {
                    Some(region_vectors(previous.unwrap(), count).map_values(|v: DecodedVector| stored_vector(v)))
                } else {
                    None
                },
                if select & 2 != 0 {
                    Some(region_vectors(current.unwrap(), count).map_values(|v: DecodedVector| stored_vector(v)))
                } else {
                    None
                },
            ))
        }),
{
    lemma_pack_head(opts, previous, current is Some);
    let g = frame_grid(opts);
    let count = frame_count(opts);
    let flags = direction_flags(previous is Some, current is Some);
    let shape = VectorShape { width: g.0 as i32, height: g.1 as i32 };
    assert(vector_count_spec(shape) == Some(count));
    let head = pack_head(opts, previous, current is Some);
    let s3 = pack_spec(opts, previous, current);
    match current {
        Some(c) => {
            assert(region_vectors(c, count).len() == count);
            if previous is Some {
                assert(0x40 + region_len(count) == second_region(count));
                lemma_region_roundtrip(head, second_region(count), region_vectors(c, count));
                lemma_region_prefix_unchanged(head, s3, 0x40, count, second_region(count));
            } else {
                lemma_region_roundtrip(head, 0x40, region_vectors(c, count));
            }
            assert(read_i32_at(s3, 0) == Some(16i32));
            assert(read_i32_at(s3, 4) == Some(VECTOR_MAGIC));
            assert(read_i32_at(s3, 8) == Some(flags));
        },
        None => {},
    }
}

/// The head of a payload reads back its size word, magic word and flags,
/// and its backward field; it has room for the forward field when asked.
proof fn lemma_pack_head(opts: AnalyseOpts, previous: Option<Seq<Vec8>>, current: bool)
    requires
        pack_ok(opts),
    ensures
        ({
            let count = frame_count(opts);
            let head = pack_head(opts, previous, current);
            let n = (if previous is Some { 1int } else { 0int }) + (if current { 1int } else { 0int });
            &&& head.len() == 0x40 + n * region_len(count)
            &&& 1 <= count <= 0x0800_0000
            &&& head.len() <= 0x40 + 2 * region_len(count)
            &&& (previous is Some ==> head.len() >= 0x40 + region_len(count))
            &&& (current ==> head.len() >= 0x40 + (if previous is Some { 2 * region_len(count) } else { region_len(count) }))
            &&& read_i32_at(head, 0) == Some(16i32)
            &&& read_i32_at(head, 4) == Some(VECTOR_MAGIC)
            &&& read_i32_at(head, 8) == Some(direction_flags(previous is Some, current))
            &&& (previous matches Some(p) ==> decode_region_spec(head, 0x40, count)
                == Some(region_vectors(p, count).map_values(|v: DecodedVector| stored_vector(v))))
        }),
{
    lemma_frame_sizes(opts);
    let g = frame_grid(opts);
    let count = frame_count(opts);
    let flags = direction_flags(previous is Some, current);
    let n = (if previous is Some { 1int } else { 0int }) + (if current { 1int } else { 0int });
    let s0 = Seq::new((0x40 + n * region_len(count)) as nat, |i: int| 0u8);
    let w = frame_words(opts, flags, g.0 as i32, g.1 as i32);
    let s1 = put_words(s0, w, 16);
    lemma_put_words(s0, w, 16);
    assert(n * region_len(count) <= 2 * region_len(count)) by (nonlinear_arith)
        requires 0 <= n <= 2, 0 <= region_len(count);
    assert(n >= 1 ==> n * region_len(count) >= region_len(count)) by (nonlinear_arith)
        requires 0 <= n, 0 <= region_len(count);
    assert(n == 2 ==> n * region_len(count) == 2 * region_len(count));
    assert(read_i32_at(s1, 4int * 0) == Some(w[0]));
    assert(read_i32_at(s1, 4int * 1) == Some(w[1]));
    assert(read_i32_at(s1, 4int * 2) == Some(w[2]));
    match previous {
        Some(p) => {
            assert(region_vectors(p, count).len() == count);
            lemma_region_roundtrip(s1, 0x40, region_vectors(p, count));
        },
        None => {},
    }
}

} // verus!
