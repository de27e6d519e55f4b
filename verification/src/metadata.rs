//! Motion-vector metadata: the vector-clip header, the packed super-clip
//! handle, and the per-frame vector payload with its encoder and decoder.
use vstd::prelude::*;
use crate::arith::{sat_usize, sat_add_usize, sat_mul_usize};
use crate::bytes::{
    byte_of, le_u32, put_i32, put_u32, read_i32_at, read_i32_slice, read_u32_at,
    read_u32_slice, write_i32_slice, write_u32_slice, lemma_read_put_same,
    lemma_read_put_other, lemma_put_outside, lemma_i32_u32_roundtrip, lemma_le_u32_bytes,
};

verus! {

/// Layout of a vector clip: block and frame size, grid and overlap.
#[derive(Clone, Copy)]
pub struct VectorData {
    pub flags: i32,
    pub block: VectorShape,
    pub shape: VectorShape,
    pub grid: VectorShape,
    pub marker: i32,
    pub selector: i32,
    pub delta: i32,
    pub overlap_x: i32,
    pub overlap_y: i32,
}

#[derive(Clone, Copy)]
pub struct VectorShape {
    pub width: i32,
    pub height: i32,
}

/// A vector clip header as read from a frame property.
pub enum VectorRecord {
    Missing,
    Invalid,
    Ready(VectorData),
}

/// The fields packed into a super clip's 64-bit handle.
pub struct SuperData {
    pub marker: i32,
    pub width: i32,
    pub height: i32,
    pub selector: i32,
    pub limit: i32,
}

/// One block's motion vector, match score and mean luma.
#[derive(Clone, Copy, Default)]
pub struct DecodedVector {
    pub dx: i16,
    pub dy: i16,
    pub score: u32,
    pub luma: u8,
}

/// The backward and forward vector fields of one frame.
pub struct DecodedVectors {
    pub previous: Option<Vec<DecodedVector>>,
    pub current: Option<Vec<DecodedVector>>,
}

pub const VECTOR_MAGIC: i32 = 0xA0;
pub const FLAGS: usize = 0x04;
pub const BLOCK_WIDTH: usize = 0x08;
pub const BLOCK_HEIGHT: usize = 0x0C;
pub const MARKER: usize = 0x10;
pub const WIDTH: usize = 0x1C;
pub const HEIGHT: usize = 0x20;
pub const OVERLAP_X: usize = 0x24;
pub const OVERLAP_Y: usize = 0x28;
pub const GRID_WIDTH: usize = 0x2C;
pub const GRID_HEIGHT: usize = 0x30;
pub const SELECTOR: usize = 0x34;
pub const DELTA: usize = 0x38;
pub const VECTOR_DATA_LEN: usize = 0x3C;

/// The signed word at `off` of a header long enough to hold it.
pub open spec fn header_field(s: Seq<u8>, off: int) -> i32 {
    match read_i32_at(s, off) {
        Some(v) => v,
        None => 0,
    }
}

/// Whether `s` is a vector clip header: long enough and with the magic word.
pub open spec fn is_vector_header(s: Seq<u8>) -> bool {
    s.len() >= VECTOR_DATA_LEN && read_i32_at(s, 0) == Some(VECTOR_MAGIC)
}

/// `value` when positive, else 1.
pub open spec fn positive_spec(value: int) -> int {
    if value > 0 { value } else { 1 }
}

/// `ceil(value / divisor)` for positive values, 0 otherwise.
pub open spec fn ceil_div_spec(value: int, divisor: int) -> int {
    if value <= 0 { 0 } else { (value + divisor - 1) / divisor }
}

/// Number of blocks along one axis, one more when the blocks stop short of
/// the frame edge.
pub open spec fn extended_grid_spec(block: int, overlap: int, grid: int, source: int) -> int {
    let span = (block - overlap) * grid + overlap;
    grid + if span < source { 1int } else { 0int }
}

/// Number of vectors in a `shape` grid, when it fits in an `i32`.
pub open spec fn vector_count_spec(shape: VectorShape) -> Option<int> {
    let w: int = if shape.width > 0 { shape.width as int } else { 0 };
    let h: int = if shape.height > 0 { shape.height as int } else { 0 };
    if w * h <= i32::MAX { Some(w * h) } else { None }
}

/// The first packed word of a vector: `dy` in the low half, `dx` above.
pub open spec fn packed_motion(v: DecodedVector) -> u32 {
    ((v.dy as u16) as u32) | (((v.dx as u16) as u32) << 16u32)
}

/// The second packed word of a vector: luma in the top byte, score below.
pub open spec fn packed_score(v: DecodedVector) -> u32 {
    ((v.luma as u32) << 24u32) | (v.score & 0x00ff_ffffu32)
}

/// The vector held by the two words `raw0` and `raw1`.
pub open spec fn unpack_vector(raw0: u32, raw1: u32) -> DecodedVector {
    DecodedVector {
        dx: ((raw0 >> 16u32) as u16) as i16,
        dy: (raw0 as u16) as i16,
        score: raw1 & 0x00ff_ffffu32,
        luma: (raw1 >> 24u32) as u8,
    }
}

/// A vector as the payload keeps it: the score cut to 24 bits.
pub open spec fn stored_vector(v: DecodedVector) -> DecodedVector {
    DecodedVector { score: v.score & 0x00ff_ffffu32, ..v }
}

/// The vector whose words start at `cursor`.
pub open spec fn entry_at(s: Seq<u8>, cursor: int) -> DecodedVector {
    unpack_vector(
        read_u32_at(s, cursor).unwrap(),
        read_u32_at(s, cursor + 4).unwrap(),
    )
}

/// Offset of the first word of entry `j` in a region at `offset`.
pub open spec fn entry_pos(offset: int, j: int) -> int {
    offset + 4 + 8 * j
}

/// The header word of a region holding `count` vectors.
pub open spec fn region_header(count: int) -> int {
    2 * count + 1
}

/// A region at `offset`: a header word `2 * count + 1` and `count` entries
/// of two words each; `None` when the header differs or the bytes run out.
pub open spec fn decode_region_spec(s: Seq<u8>, offset: int, count: int) -> Option<
    Seq<DecodedVector>,
> {
    if region_header(count) > i32::MAX {
        None
    } else if read_i32_at(s, offset) != Some(region_header(count) as i32) {
        None
    } else if offset + 4 + 8 * count > s.len() {
        None
    } else {
        Some(Seq::new(count as nat, |i: int| entry_at(s, entry_pos(offset, i))))
    }
}

/// Offset of the second region of a payload with `count` vectors per field.
pub open spec fn second_region(count: int) -> int {
    0x44 + 8 * count
}

/// The two vector fields of a payload, as `decode_vectors` reads them.
pub open spec fn decode_vectors_spec(
    s: Seq<u8>,
    mode_flags: i32,
    shape: VectorShape,
    flags: i32,
) -> Option<(Option<Seq<DecodedVector>>, Option<Seq<DecodedVector>>)> {
    if read_i32_at(s, 0) != Some(16i32) || read_i32_at(s, 4) != Some(VECTOR_MAGIC)
        || read_i32_at(s, 8) != Some(mode_flags) {
        None
    } else {
        match vector_count_spec(shape) {
            None => None,
            Some(count) => {
                let previous = if flags & 1 != 0 {
                    Some(decode_region_spec(s, 0x40, count))
                } else {
                    None
                };
                let current = if flags & 2 != 0 {
                    Some(decode_region_spec(s, second_region(count), count))
                } else {
                    None
                };
                if previous == Some(None::<Seq<DecodedVector>>) || current == Some(
                    None::<Seq<DecodedVector>>,
                ) {
                    None
                } else {
                    Some(
                        (
                            match previous {
                                Some(p) => p,
                                None => None,
                            },
                            match current {
                                Some(c) => c,
                                None => None,
                            },
                        ),
                    )
                }
            },
        }
    }
}

/// Offset of entry `index` of a region at `offset`, with the encoder's
/// saturating arithmetic.
pub open spec fn entry_offset(offset: int, index: int) -> int {
    sat_usize(sat_usize(offset + 4) + sat_usize(index * 8))
}

/// `s` with the first `n` entries of `vectors` written into the region at
/// `offset`.
pub open spec fn encode_entries(s: Seq<u8>, offset: int, vectors: Seq<DecodedVector>, n: nat) -> Seq<
    u8,
>
    decreases n,
{
    if n == 0 {
        s
    } else {
        let prev = encode_entries(s, offset, vectors, (n - 1) as nat);
        let cursor = entry_offset(offset, n - 1);
        let v = vectors[n - 1];
        put_u32(put_u32(prev, cursor, packed_motion(v)), sat_usize(cursor + 4), packed_score(v))
    }
}

/// The header word the encoder writes for `count` vectors.
pub open spec fn encoded_region_header(count: int) -> i32 {
    let h = sat_usize(sat_usize(count * 2) + 1);
    if h <= i32::MAX { h as i32 } else { i32::MAX }
}

/// `s` with a region of `count` vectors at `offset`, filled from `vectors`.
pub open spec fn encode_region_spec(
    s: Seq<u8>,
    offset: int,
    count: int,
    vectors: Seq<DecodedVector>,
) -> Seq<u8> {
    let n: nat = if count < vectors.len() { count as nat } else { vectors.len() };
    encode_entries(put_i32(s, offset, encoded_region_header(count)), offset, vectors, n)
}

/// Number of vectors that the encoder writes per field for `data`.
pub open spec fn encoded_count(data: VectorData) -> int {
    match vector_count_spec(data.grid) {
        Some(c) => c,
        None => 0,
    }
}

/// The payload header: size, magic and the layout of `data`.
pub open spec fn encode_header_spec(s: Seq<u8>, data: VectorData) -> Seq<u8> {
    let s = put_i32(s, 0x00, 16);
    let s = put_i32(s, 0x04, VECTOR_MAGIC);
    let s = put_i32(s, 0x08, data.flags);
    let s = put_i32(s, 0x0C, data.block.width);
    let s = put_i32(s, 0x10, data.block.height);
    let s = put_i32(s, 0x14, data.marker);
    let s = put_i32(s, 0x20, data.shape.width);
    let s = put_i32(s, 0x24, data.shape.height);
    let s = put_i32(s, 0x28, data.overlap_x);
    let s = put_i32(s, 0x2C, data.overlap_y);
    let s = put_i32(s, 0x30, data.grid.width);
    let s = put_i32(s, 0x34, data.grid.height);
    let s = put_i32(s, 0x38, data.selector);
    put_i32(s, 0x3C, data.delta)
}

/// The bytes of the payload that `encode_vector_payload` builds.
pub open spec fn encode_vector_payload_spec(
    data: VectorData,
    previous: Option<Seq<DecodedVector>>,
    current: Seq<DecodedVector>,
) -> Seq<u8> {
    let count = encoded_count(data);
    let len = sat_usize(0x48 + sat_usize(count * 16));
    let s = encode_header_spec(Seq::new(len as nat, |i: int| 0u8), data);
    let second = 0x44 + sat_usize(count * 8);
    let s = match previous {
        Some(p) => encode_region_spec(s, 0x40, count, p),
        None => s,
    };
    encode_region_spec(s, second, count, current)
}

/// Parses a vector clip header: `Invalid` unless it is long enough and
/// starts with the magic word; otherwise every field read at its offset.
pub fn vector_data(data: &[u8]) -> (r: VectorRecord)
    ensures
        !is_vector_header(data@) <==> r is Invalid,
        is_vector_header(data@) <==> r is Ready,
        r matches VectorRecord::Ready(v) ==> {
            &&& v.flags == header_field(data@, FLAGS as int)
            &&& v.block.width == header_field(data@, BLOCK_WIDTH as int)
            &&& v.block.height == header_field(data@, BLOCK_HEIGHT as int)
            &&& v.shape.width == header_field(data@, WIDTH as int)
            &&& v.shape.height == header_field(data@, HEIGHT as int)
            &&& v.grid.width == header_field(data@, GRID_WIDTH as int)
            &&& v.grid.height == header_field(data@, GRID_HEIGHT as int)
            &&& v.marker == header_field(data@, MARKER as int)
            &&& v.selector == header_field(data@, SELECTOR as int)
            &&& v.delta == header_field(data@, DELTA as int)
            &&& v.overlap_x == header_field(data@, OVERLAP_X as int)
            &&& v.overlap_y == header_field(data@, OVERLAP_Y as int)
        },
{
    if data.len() < VECTOR_DATA_LEN {
        return VectorRecord::Invalid;
    }
    match read_i32_slice(data, 0) {
        Some(m) => {
            if m != VECTOR_MAGIC {
                return VectorRecord::Invalid;
            }
        },
        None => {
            return VectorRecord::Invalid;
        },
    }
    VectorRecord::Ready(
        VectorData {
            flags: field(data, FLAGS),
            block: VectorShape {
                width: field(data, BLOCK_WIDTH),
                height: field(data, BLOCK_HEIGHT),
            },
            shape: VectorShape { width: field(data, WIDTH), height: field(data, HEIGHT) },
            grid: VectorShape { width: field(data, GRID_WIDTH), height: field(data, GRID_HEIGHT) },
            marker: field(data, MARKER),
            selector: field(data, SELECTOR),
            delta: field(data, DELTA),
            overlap_x: field(data, OVERLAP_X),
            overlap_y: field(data, OVERLAP_Y),
        },
    )
}

/// The signed word at `offset`, or 0 when it does not fit.
fn field(data: &[u8], offset: usize) -> (r: i32)
    ensures
        r == header_field(data@, offset as int),
{
    match read_i32_slice(data, offset) {
        Some(v) => v,
        None => 0,
    }
}

/// Bits `shift .. shift + 8` of `raw`.
pub open spec fn byte_spec(raw: u64, shift: u64) -> int {
    ((raw >> shift) & 0xff) as int
}

/// Bits `shift .. shift + 16` of `raw`.
pub open spec fn word_spec(raw: u64, shift: u64) -> int {
    ((raw >> shift) & 0xffff) as int
}

/// Unpacks a super clip handle: height in bits 0-15, width in 16-31,
/// marker (pel) in 32-39, selector in 48-55 and limit in 56-63.
pub fn super_data(handle: i64) -> (r: SuperData)
    ensures
        r.height == word_spec(handle as u64, 0),
        r.width == word_spec(handle as u64, 16),
        r.marker == byte_spec(handle as u64, 32),
        r.selector == byte_spec(handle as u64, 48),
        r.limit == byte_spec(handle as u64, 56),
{
    let raw = handle as u64;
    SuperData {
        marker: byte(raw, 32),
        width: word(raw, 16),
        height: word(raw, 0),
        selector: byte(raw, 48),
        limit: byte(raw, 56),
    }
}

fn byte(raw: u64, shift: u64) -> (r: i32)
    requires
        shift < 64,
    ensures
        r == byte_spec(raw, shift),
{
    let b = (raw >> shift) & 0xff;
    assert(b <= 0xff) by (bit_vector)
        requires
            b == (raw >> shift) & 0xff,
    ;
    b as i32
}

fn word(raw: u64, shift: u64) -> (r: i32)
    requires
        shift < 64,
    ensures
        r == word_spec(raw, shift),
{
    let w = (raw >> shift) & 0xffff;
    assert(w <= 0xffff) by (bit_vector)
        requires
            w == (raw >> shift) & 0xffff,
    ;
    w as i32
}

impl SuperData {
    /// Whether this super clip fits `vectors`: same pel, same frame size,
    /// and a compatible selector.
    pub open spec fn matches_spec(&self, vectors: &VectorData) -> bool {
        &&& self.marker == vectors.marker
        &&& self.width == vectors.shape.width
        &&& self.height == vectors.shape.height
        &&& (self.limit >= 4 || self.selector >= 3 || self.selector
            == vectors.selector)
    }

    /// The pel (sub-pixel scale) of the super clip.
    pub fn scale(&self) -> (r: i32)
        ensures
            r == self.marker,
    {
        self.marker
    }

    pub fn matches_vectors(&self, vectors: &VectorData) -> (r: bool)
        ensures
            r == self.matches_spec(vectors),
    {
        self.marker == vectors.marker && self.width == vectors.shape.width && self.height
            == vectors.shape.height && (self.limit >= 4 || self.selector >= 3 || self.selector
            == vectors.selector)
    }
}

impl VectorData {
    /// The layout of vectors generated by frame interpolation on 16x16
    /// blocks for a `width` x `height` frame.
    pub fn generated_rife(width: i32, height: i32) -> (r: Self)
        requires
            width <= i32::MAX - 16,
            height <= i32::MAX - 16,
        ensures
            r.flags == 2,
            r.block.width == 16 && r.block.height == 16,
            r.shape.width == width && r.shape.height == height,
            r.grid.width == ceil_div_spec(width as int, 16),
            r.grid.height == ceil_div_spec(height as int, 16),
            r.marker == 1,
            r.selector == 1,
            r.delta == 1,
            r.overlap_x == 0 && r.overlap_y == 0,
    {
        VectorData {
            flags: 2,
            block: VectorShape { width: 16, height: 16 },
            shape: VectorShape { width, height },
            grid: VectorShape { width: ceil_div(width, 16), height: ceil_div(height, 16) },
            marker: 1,
            selector: 1,
            delta: 1,
            overlap_x: 0,
            overlap_y: 0,
        }
    }

    /// The layout of vectors computed from an 8-bit copy of the source on
    /// 4x4 blocks.
    pub fn generated_source_8bit(width: i32, height: i32, scene_mode: i64) -> (r: Self)
        requires
            width <= i32::MAX - 4,
            height <= i32::MAX - 4,
        ensures
            r.flags == (if scene_mode == 1 { 2int } else { 3int }),
            r.block.width == 4 && r.block.height == 4,
            r.shape.width == width && r.shape.height == height,
            r.grid.width == ceil_div_spec(width as int, 4),
            r.grid.height == ceil_div_spec(height as int, 4),
            r.marker == 4,
            r.selector == 1,
            r.delta == 1,
            r.overlap_x == 0 && r.overlap_y == 0,
    {
        VectorData {
            flags: if scene_mode == 1 { 2 } else { 3 },
            block: VectorShape { width: 4, height: 4 },
            shape: VectorShape { width, height },
            grid: VectorShape { width: ceil_div(width, 4), height: ceil_div(height, 4) },
            marker: 4,
            selector: 1,
            delta: 1,
            overlap_x: 0,
            overlap_y: 0,
        }
    }

    pub fn marker_is_one(&self) -> (r: bool)
        ensures
            r == (self.marker == 1),
    {
        self.marker == 1
    }

    pub fn render_mode_one(&self) -> (r: bool)
        ensures
            r == (self.selector < 1),
    {
        self.selector < 1
    }

    pub fn rejects_cubic(&self) -> (r: bool)
        ensures
            r == (self.selector == 0),
    {
        self.selector == 0
    }

    /// Whether either overlap is odd.
    pub fn has_odd_overlap(&self) -> (r: bool)
        ensures
            r == (self.overlap_x % 2 != 0 || self.overlap_y % 2 != 0),
    {
        let ox = self.overlap_x;
        let oy = self.overlap_y;
        assert((ox & 1 != 0) == (ox % 2 != 0)) by (bit_vector);
        assert((oy & 1 != 0) == (oy % 2 != 0)) by (bit_vector);
        ox & 1 != 0 || oy & 1 != 0
    }

    /// Distance between block origins: block size less overlap, at least 1.
    pub fn effective_block(&self) -> (r: VectorShape)
        requires
            self.block.width - self.overlap_x <= i32::MAX,
            self.block.width - self.overlap_x >= i32::MIN,
            self.block.height - self.overlap_y <= i32::MAX,
            self.block.height - self.overlap_y >= i32::MIN,
        ensures
            r.width == positive_spec(self.block.width - self.overlap_x),
            r.height == positive_spec(self.block.height - self.overlap_y),
    {
        VectorShape {
            width: positive(self.block.width - self.overlap_x),
            height: positive(self.block.height - self.overlap_y),
        }
    }

    /// The offset of the first full block: the overlap.
    pub fn origin(&self) -> (r: VectorShape)
        ensures
            r.width == self.overlap_x,
            r.height == self.overlap_y,
    {
        VectorShape { width: self.overlap_x, height: self.overlap_y }
    }

    pub open spec fn motion_grid_fits(&self) -> bool {
        &&& extended_grid_fits(
            self.block.width as int,
            self.overlap_x as int,
            self.grid.width as int,
            self.shape.width as int,
        )
        &&& extended_grid_fits(
            self.block.height as int,
            self.overlap_y as int,
            self.grid.height as int,
            self.shape.height as int,
        )
    }

    /// The motion grid: the vector grid, one wider or taller where the
    /// blocks stop short of the frame.
    pub fn motion_grid(&self) -> (r: VectorShape)
        requires
            self.motion_grid_fits(),
        ensures
            r.width == extended_grid_spec(
                self.block.width as int,
                self.overlap_x as int,
                self.grid.width as int,
                self.shape.width as int,
            ),
            r.height == extended_grid_spec(
                self.block.height as int,
                self.overlap_y as int,
                self.grid.height as int,
                self.shape.height as int,
            ),
    {
        VectorShape {
            width: extended_grid(
                self.block.width,
                self.overlap_x,
                self.grid.width,
                self.shape.width,
            ),
            height: extended_grid(
                self.block.height,
                self.overlap_y,
                self.grid.height,
                self.shape.height,
            ),
        }
    }
}

fn positive(value: i32) -> (r: i32)
    ensures
        r == positive_spec(value as int),
{
    if value > 0 {
        value
    } else {
        1
    }
}

/// `ceil(value / divisor)` for a positive value, else 0.
fn ceil_div(value: i32, divisor: i32) -> (r: i32)
    requires
        divisor > 0,
        value <= i32::MAX - divisor,
    ensures
        r == ceil_div_spec(value as int, divisor as int),
{
    if value <= 0 {
        0
    } else {
        (value + divisor - 1) / divisor
    }
}

/// Whether `extended_grid` stays within `i32` for these inputs: the span
/// of the blocks, and the grid plus one where that span stops short of
/// `source`.
pub open spec fn extended_grid_fits(block: int, overlap: int, grid: int, source: int) -> bool {
    &&& i32::MIN <= block - overlap <= i32::MAX
    &&& i32::MIN <= (block - overlap) * grid <= i32::MAX
    &&& i32::MIN <= (block - overlap) * grid + overlap <= i32::MAX
    &&& (block - overlap) * grid + overlap < source ==> grid < i32::MAX
}

fn extended_grid(block: i32, overlap: i32, grid: i32, source: i32) -> (r: i32)
    requires
        extended_grid_fits(block as int, overlap as int, grid as int, source as int),
    ensures
        r == extended_grid_spec(block as int, overlap as int, grid as int, source as int),
{
    let span = (block - overlap) * grid + overlap;
    grid + if span < source {
        1
    } else {
        0
    }
}

/// Number of vectors in a `shape` grid, when it fits in an `i32`.
pub fn vector_count(shape: VectorShape) -> (r: Option<usize>)
    ensures
        match vector_count_spec(shape) {
            Some(c) => r == Some(c as usize),
            None => r is None,
        },
{
    let w: i32 = if shape.width > 0 { shape.width } else { 0 };
    let h: i32 = if shape.height > 0 { shape.height } else { 0 };
    match w.checked_mul(h) {
        Some(p) => {
            assert(p >= 0) by (nonlinear_arith)
                requires
                    p == w * h,
                    w >= 0,
                    h >= 0,
            ;
            Some(p as usize)
        },
        None => {
            assert(w * h >= 0) by (nonlinear_arith)
                requires
                    w >= 0,
                    h >= 0,
            ;
            None
        },
    }
}

/// Splits the two packed words of a vector.
fn unpack(raw0: u32, raw1: u32) -> (r: DecodedVector)
    ensures
        r == unpack_vector(raw0, raw1),
{
    DecodedVector {
        dx: ((raw0 >> 16u32) as u16) as i16,
        dy: (raw0 as u16) as i16,
        score: raw1 & 0x00ff_ffffu32,
        luma: (raw1 >> 24u32) as u8,
    }
}

/// Reads a region of `count` vectors at `offset`.
pub fn decode_region(payload: &[u8], offset: usize, count: usize) -> (r: Option<
    Vec<DecodedVector>,
>)
    ensures
        match decode_region_spec(payload@, offset as int, count as int) {
            Some(s) => r matches Some(v) && v@ == s,
            None => r is None,
        },
{
    if count > 0x3fff_ffff {
        return None;
    }
    let expected: i32 = (2 * count + 1) as i32;
    let len = payload.len();
    let header = read_i32_slice(payload, offset);
    match header {
        Some(h) => {
            if h != expected {
                return None;
            }
        },
        None => {
            return None;
        },
    }
    assert(offset + 4 <= payload@.len());
    let mut vectors: Vec<DecodedVector> = Vec::new();
    let mut cursor: usize = offset + 4;
    let mut i: usize = 0;
    while i < count
        invariant
            0 <= i <= count <= 0x3fff_ffff,
            cursor == offset + 4 + 8 * i,
            cursor <= payload@.len(),
            len == payload@.len(),
            read_i32_at(payload@, offset as int) == Some(region_header(count as int) as i32),
            vectors@ == Seq::new(i as nat, |j: int| entry_at(payload@, entry_pos(offset as int, j))),
        decreases count - i,
    {
        let first_word = read_u32_slice(payload, cursor);
        let raw0 = match first_word {
            Some(v) => v,
            None => {
                return None;
            },
        };
        assert(cursor + 4 <= payload@.len());
        let second_word = read_u32_slice(payload, cursor + 4);
        let raw1 = match second_word {
            Some(v) => v,
            None => {
                return None;
            },
        };
        assert(cursor + 8 <= payload@.len());
        let v = unpack(raw0, raw1);
        vectors.push(v);
        cursor = cursor + 8;
        i = i + 1;
        assert(vectors@ =~= Seq::new(
            i as nat,
            |j: int| entry_at(payload@, entry_pos(offset as int, j)),
        ));
    }
    Some(vectors)
}

/// Reads the backward (`flags & 1`) and forward (`flags & 2`) vector fields
/// of a payload whose header names `mode_flags`, for a `shape` grid.
pub fn decode_vectors(payload: &[u8], mode_flags: i32, shape: VectorShape, flags: i32) -> (r:
    Option<DecodedVectors>)
    requires
        vector_count_spec(shape) matches Some(c) ==> second_region(c) <= usize::MAX,
    ensures
        match decode_vectors_spec(payload@, mode_flags, shape, flags) {
            None => r is None,
            Some((p, c)) => r matches Some(d) && d.previous_view() == p && d.current_view() == c,
        },
{
    match (read_i32_slice(payload, 0), read_i32_slice(payload, 4), read_i32_slice(payload, 8)) {
        (Some(a), Some(b), Some(c)) => {
            if a != 16 || b != VECTOR_MAGIC || c != mode_flags {
                return None;
            }
        },
        _ => {
            return None;
        },
    }
    let count = match vector_count(shape) {
        Some(c) => c,
        None => {
            return None;
        },
    };
    let first: usize = 0x40;
    let second: usize = first + 4 + count * 8;
    let previous = if flags & 1 != 0 {
        match decode_region(payload, first, count) {
            Some(v) => Some(v),
            None => {
                return None;
            },
        }
    } else {
        None
    };
    let current = if flags & 2 != 0 {
        match decode_region(payload, second, count) {
            Some(v) => Some(v),
            None => {
                return None;
            },
        }
    } else {
        None
    };
    Some(DecodedVectors { previous, current })
}

impl DecodedVectors {
    pub open spec fn previous_view(&self) -> Option<Seq<DecodedVector>> {
        match self.previous {
            Some(v) => Some(v@),
            None => None,
        }
    }

    pub open spec fn current_view(&self) -> Option<Seq<DecodedVector>> {
        match self.current {
            Some(v) => Some(v@),
            None => None,
        }
    }
}

/// Writes a region header for `count` vectors at `offset`, then the first
/// `count` entries of `vectors`.
pub fn encode_region(payload: &mut [u8], offset: usize, count: usize, vectors: &[DecodedVector])
    ensures
        final(payload)@ == encode_region_spec(old(payload)@, offset as int, count as int, vectors@),
{
    let twice = sat_mul_usize(count, 2);
    let h = sat_add_usize(twice, 1);
    let header: i32 = if h <= i32::MAX as usize {
        h as i32
    } else {
        i32::MAX
    };
    write_i32_slice(payload, offset, header);
    let ghost start = payload@;
    let n: usize = if count < vectors.len() {
        count
    } else {
        vectors.len()
    };
    let mut index: usize = 0;
    while index < n
        invariant
            0 <= index <= n,
            n <= vectors@.len(),
            payload@ == encode_entries(start, offset as int, vectors@, index as nat),
        decreases n - index,
    {
        let cursor = sat_add_usize(sat_add_usize(offset, 4), sat_mul_usize(index, 8));
        let v = vectors[index];
        let raw0 = ((v.dy as u16) as u32) | (((v.dx as u16) as u32) << 16u32);
        let raw1 = ((v.luma as u32) << 24u32) | (v.score & 0x00ff_ffffu32);
        write_u32_slice(payload, cursor, raw0);
        write_u32_slice(payload, sat_add_usize(cursor, 4), raw1);
        index = index + 1;
    }
}

/// Builds the payload of one frame: the header describing `data`, then the
/// backward field (when given) and the forward field, `count` vectors each
/// for the grid of `data`.
pub fn encode_vector_payload(
    data: VectorData,
    previous: Option<&[DecodedVector]>,
    current: &[DecodedVector],
) -> (r: Vec<u8>)
    requires
        0x44 + 8 * encoded_count(data) <= usize::MAX,
    ensures
        r@ == encode_vector_payload_spec(
            data,
            match previous {
                Some(p) => Some(p@),
                None => None,
            },
            current@,
        ),
{
    let count: usize = match vector_count(data.grid) {
        Some(c) => c,
        None => 0,
    };
    let len = sat_add_usize(0x48, sat_mul_usize(count, 16));
    let mut payload: Vec<u8> = vec![0u8; len];
    assert(payload@ =~= Seq::new(len as nat, |i: int| 0u8));
    write_i32_slice(payload.as_mut_slice(), 0x00, 16);
    write_i32_slice(payload.as_mut_slice(), 0x04, VECTOR_MAGIC);
    write_i32_slice(payload.as_mut_slice(), 0x08, data.flags);
    write_i32_slice(payload.as_mut_slice(), 0x0C, data.block.width);
    write_i32_slice(payload.as_mut_slice(), 0x10, data.block.height);
    write_i32_slice(payload.as_mut_slice(), 0x14, data.marker);
    write_i32_slice(payload.as_mut_slice(), 0x20, data.shape.width);
    write_i32_slice(payload.as_mut_slice(), 0x24, data.shape.height);
    write_i32_slice(payload.as_mut_slice(), 0x28, data.overlap_x);
    write_i32_slice(payload.as_mut_slice(), 0x2C, data.overlap_y);
    write_i32_slice(payload.as_mut_slice(), 0x30, data.grid.width);
    write_i32_slice(payload.as_mut_slice(), 0x34, data.grid.height);
    write_i32_slice(payload.as_mut_slice(), 0x38, data.selector);
    write_i32_slice(payload.as_mut_slice(), 0x3C, data.delta);
    let first: usize = 0x40;
    let second: usize = first + 4 + sat_mul_usize(count, 8);
    match previous {
        Some(vectors) => {
            encode_region(payload.as_mut_slice(), first, count, vectors);
        },
        None => {},
    }
    encode_region(payload.as_mut_slice(), second, count, current);
    payload
}

/// Unpacking the packed words of a vector gives the vector with its score
/// cut to 24 bits.
pub proof fn lemma_unpack_packed(v: DecodedVector)
    ensures
        unpack_vector(packed_motion(v), packed_score(v)) == stored_vector(v),
{
    let dx = v.dx;
    let dy = v.dy;
    let luma = v.luma;
    let score = v.score;
    assert((((((dy as u16) as u32) | (((dx as u16) as u32) << 16u32)) >> 16u32) as u16) as i16
        == dx) by (bit_vector);
    assert(((((dy as u16) as u32) | (((dx as u16) as u32) << 16u32)) as u16) as i16 == dy)
        by (bit_vector);
    assert(((((luma as u32) << 24u32) | (score & 0x00ff_ffffu32)) & 0x00ff_ffffu32) == (score
        & 0x00ff_ffffu32)) by (bit_vector);
    assert(((((luma as u32) << 24u32) | (score & 0x00ff_ffffu32)) >> 24u32) as u8 == luma)
        by (bit_vector);
}

/// After the first `n` entries are written, each of them reads back, the
/// words before the region are unchanged, and so is the length.
pub proof fn lemma_encode_entries(s: Seq<u8>, offset: int, vs: Seq<DecodedVector>, n: nat)
    requires
        0 <= offset,
        n <= vs.len(),
        entry_pos(offset, n as int) <= s.len() <= usize::MAX,
    ensures
        encode_entries(s, offset, vs, n).len() == s.len(),
        forall|j: int|
            0 <= j < n ==> #[trigger] read_u32_at(encode_entries(s, offset, vs, n), entry_pos(offset, j))
                == Some(packed_motion(vs[j])),
        forall|j: int|
            0 <= j < n ==> read_u32_at(encode_entries(s, offset, vs, n), #[trigger] entry_pos(offset, j) + 4)
                == Some(packed_score(vs[j])),
        forall|o: int| o <= offset ==> #[trigger] read_u32_at(encode_entries(s, offset, vs, n), o) == read_u32_at(s, o),
    decreases n,
{
    if n > 0 {
        let k = n - 1;
        lemma_encode_entries(s, offset, vs, k as nat);
        let prev = encode_entries(s, offset, vs, k as nat);
        let cursor = entry_pos(offset, k);
        assert(entry_offset(offset, k) == cursor);
        assert(sat_usize(cursor + 4) == cursor + 4);
        let mid = put_u32(prev, cursor, packed_motion(vs[k]));
        let fin = put_u32(mid, cursor + 4, packed_score(vs[k]));
        assert(fin == encode_entries(s, offset, vs, n));
        assert forall|j: int| 0 <= j < n implies #[trigger] read_u32_at(fin, entry_pos(offset, j))
            == Some(packed_motion(vs[j])) by {
            if j < k {
                lemma_read_put_other(prev, cursor, packed_motion(vs[k]), entry_pos(offset, j));
                lemma_read_put_other(mid, cursor + 4, packed_score(vs[k]), entry_pos(offset, j));
            } else {
                lemma_read_put_same(prev, cursor, packed_motion(vs[k]));
                lemma_read_put_other(mid, cursor + 4, packed_score(vs[k]), cursor);
            }
        }
        assert forall|j: int| 0 <= j < n implies read_u32_at(fin, #[trigger] entry_pos(offset, j) + 4)
            == Some(packed_score(vs[j])) by {
            if j < k {
                lemma_read_put_other(prev, cursor, packed_motion(vs[k]), entry_pos(offset, j) + 4);
                lemma_read_put_other(mid, cursor + 4, packed_score(vs[k]), entry_pos(offset, j) + 4);
            } else {
                lemma_read_put_same(mid, cursor + 4, packed_score(vs[k]));
            }
        }
        assert forall|o: int| o <= offset implies #[trigger] read_u32_at(fin, o) == read_u32_at(s, o) by {
            lemma_read_put_other(prev, cursor, packed_motion(vs[k]), o);
            lemma_read_put_other(mid, cursor + 4, packed_score(vs[k]), o);
        }
    }
}

/// Writing a region leaves the words before it unchanged, and a full region
/// reads back as the stored form of the vectors written.
pub proof fn lemma_region_roundtrip(s: Seq<u8>, offset: int, vs: Seq<DecodedVector>)
    requires
        0 <= offset,
        region_header(vs.len() as int) <= i32::MAX,
        entry_pos(offset, vs.len() as int) <= s.len() <= usize::MAX,
    ensures
        encode_region_spec(s, offset, vs.len() as int, vs).len() == s.len(),
        forall|o: int|
            o + 4 <= offset ==> #[trigger] read_u32_at(encode_region_spec(s, offset, vs.len() as int, vs), o)
                == read_u32_at(s, o),
        decode_region_spec(encode_region_spec(s, offset, vs.len() as int, vs), offset, vs.len() as int)
            == Some(vs.map_values(|v: DecodedVector| stored_vector(v))),
{
    let c = vs.len() as int;
    let header = encoded_region_header(c);
    assert(header == region_header(c));
    let s1 = put_i32(s, offset, header);
    lemma_encode_entries(s1, offset, vs, vs.len());
    let s2 = encode_entries(s1, offset, vs, vs.len());
    assert(s2 == encode_region_spec(s, offset, c, vs));
    assert forall|o: int| o + 4 <= offset implies #[trigger] read_u32_at(s2, o) == read_u32_at(s, o) by {
        lemma_read_put_other(s, offset, header as u32, o);
    }
    lemma_read_put_same(s, offset, header as u32);
    lemma_i32_u32_roundtrip(header);
    assert(read_i32_at(s2, offset) == Some(region_header(c) as i32));
    let decoded = Seq::new(c as nat, |i: int| entry_at(s2, entry_pos(offset, i)));
    assert forall|i: int| 0 <= i < c implies decoded[i] == stored_vector(vs[i]) by {
        assert(read_u32_at(s2, entry_pos(offset, i)) == Some(packed_motion(vs[i])));
        assert(read_u32_at(s2, entry_pos(offset, i) + 4) == Some(packed_score(vs[i])));
        lemma_unpack_packed(vs[i]);
    }
    assert(decoded =~= vs.map_values(|v: DecodedVector| stored_vector(v)));
}

/// The payload header reads back its size word, the magic word and the
/// flags, and keeps the length.
pub proof fn lemma_header_reads(s: Seq<u8>, data: VectorData)
    requires
        s.len() >= 0x40,
    ensures
        encode_header_spec(s, data).len() == s.len(),
        read_i32_at(encode_header_spec(s, data), 0) == Some(16i32),
        read_i32_at(encode_header_spec(s, data), 4) == Some(VECTOR_MAGIC),
        read_i32_at(encode_header_spec(s, data), 8) == Some(data.flags),
{
    let h0 = s;
    let h1 = put_i32(h0, 0x00, 16);
    let h2 = put_i32(h1, 0x04, VECTOR_MAGIC);
    let h3 = put_i32(h2, 0x08, data.flags);
    let h4 = put_i32(h3, 0x0C, data.block.width);
    let h5 = put_i32(h4, 0x10, data.block.height);
    let h6 = put_i32(h5, 0x14, data.marker);
    let h7 = put_i32(h6, 0x20, data.shape.width);
    let h8 = put_i32(h7, 0x24, data.shape.height);
    let h9 = put_i32(h8, 0x28, data.overlap_x);
    let h10 = put_i32(h9, 0x2C, data.overlap_y);
    let h11 = put_i32(h10, 0x30, data.grid.width);
    let h12 = put_i32(h11, 0x34, data.grid.height);
    let h13 = put_i32(h12, 0x38, data.selector);
    let h14 = put_i32(h13, 0x3C, data.delta);
    assert(h14 == encode_header_spec(s, data));
    lemma_read_put_same(h0, 0x00, (16) as u32);
    lemma_i32_u32_roundtrip(16);
    lemma_read_put_other(h1, 0x04, (VECTOR_MAGIC) as u32, 0x00);
    lemma_read_put_other(h2, 0x08, (data.flags) as u32, 0x00);
    lemma_read_put_other(h3, 0x0C, (data.block.width) as u32, 0x00);
    lemma_read_put_other(h4, 0x10, (data.block.height) as u32, 0x00);
    lemma_read_put_other(h5, 0x14, (data.marker) as u32, 0x00);
    lemma_read_put_other(h6, 0x20, (data.shape.width) as u32, 0x00);
    lemma_read_put_other(h7, 0x24, (data.shape.height) as u32, 0x00);
    lemma_read_put_other(h8, 0x28, (data.overlap_x) as u32, 0x00);
    lemma_read_put_other(h9, 0x2C, (data.overlap_y) as u32, 0x00);
    lemma_read_put_other(h10, 0x30, (data.grid.width) as u32, 0x00);
    lemma_read_put_other(h11, 0x34, (data.grid.height) as u32, 0x00);
    lemma_read_put_other(h12, 0x38, (data.selector) as u32, 0x00);
    lemma_read_put_other(h13, 0x3C, (data.delta) as u32, 0x00);
    lemma_read_put_same(h1, 0x04, (VECTOR_MAGIC) as u32);
    lemma_i32_u32_roundtrip(VECTOR_MAGIC);
    lemma_read_put_other(h2, 0x08, (data.flags) as u32, 0x04);
    lemma_read_put_other(h3, 0x0C, (data.block.width) as u32, 0x04);
    lemma_read_put_other(h4, 0x10, (data.block.height) as u32, 0x04);
    lemma_read_put_other(h5, 0x14, (data.marker) as u32, 0x04);
    lemma_read_put_other(h6, 0x20, (data.shape.width) as u32, 0x04);
    lemma_read_put_other(h7, 0x24, (data.shape.height) as u32, 0x04);
    lemma_read_put_other(h8, 0x28, (data.overlap_x) as u32, 0x04);
    lemma_read_put_other(h9, 0x2C, (data.overlap_y) as u32, 0x04);
    lemma_read_put_other(h10, 0x30, (data.grid.width) as u32, 0x04);
    lemma_read_put_other(h11, 0x34, (data.grid.height) as u32, 0x04);
    lemma_read_put_other(h12, 0x38, (data.selector) as u32, 0x04);
    lemma_read_put_other(h13, 0x3C, (data.delta) as u32, 0x04);
    lemma_read_put_same(h2, 0x08, (data.flags) as u32);
    lemma_i32_u32_roundtrip(data.flags);
    lemma_read_put_other(h3, 0x0C, (data.block.width) as u32, 0x08);
    lemma_read_put_other(h4, 0x10, (data.block.height) as u32, 0x08);
    lemma_read_put_other(h5, 0x14, (data.marker) as u32, 0x08);
    lemma_read_put_other(h6, 0x20, (data.shape.width) as u32, 0x08);
    lemma_read_put_other(h7, 0x24, (data.shape.height) as u32, 0x08);
    lemma_read_put_other(h8, 0x28, (data.overlap_x) as u32, 0x08);
    lemma_read_put_other(h9, 0x2C, (data.overlap_y) as u32, 0x08);
    lemma_read_put_other(h10, 0x30, (data.grid.width) as u32, 0x08);
    lemma_read_put_other(h11, 0x34, (data.grid.height) as u32, 0x08);
    lemma_read_put_other(h12, 0x38, (data.selector) as u32, 0x08);
    lemma_read_put_other(h13, 0x3C, (data.delta) as u32, 0x08);
}

/// Decoding an encoded payload gives back the vectors written, their scores
/// cut to 24 bits: the backward field when `flags & 1` asks for it (and it
/// was written), the forward field when `flags & 2` asks for it.
pub proof fn lemma_payload_roundtrip(
    data: VectorData,
    previous: Option<Seq<DecodedVector>>,
    current: Seq<DecodedVector>,
    flags: i32,
)
    requires
        vector_count_spec(data.grid) == Some(current.len() as int),
        previous matches Some(p) ==> p.len() == current.len(),
        flags & 1 != 0 ==> previous is Some,
        region_header(current.len() as int) <= i32::MAX,
        0x48 + 16 * current.len() <= usize::MAX,
    ensures
        decode_vectors_spec(
            encode_vector_payload_spec(data, previous, current),
            data.flags,
            data.grid,
            flags,
        ) == Some(
            (
                if flags & 1 != 0 {
                    Some(previous.unwrap().map_values(|v: DecodedVector| stored_vector(v)))
                } else {
                    None
                },
                if flags & 2 != 0 {
                    Some(current.map_values(|v: DecodedVector| stored_vector(v)))
                } else {
                    None
                },
            ),
        ),
{
    let c = current.len() as int;
    assert(encoded_count(data) == c);
    let len = 0x48 + 16 * c;
    assert(sat_usize(c * 16) == c * 16);
    assert(sat_usize(0x48 + sat_usize(c * 16)) == len);
    assert(sat_usize(c * 8) == c * 8);
    let s0 = Seq::new(len as nat, |i: int| 0u8);
    let s1 = encode_header_spec(s0, data);
    lemma_header_reads(s0, data);
    let second = 0x44 + 8 * c;
    assert(second == second_region(c));
    let s2 = match previous {
        Some(p) => encode_region_spec(s1, 0x40, c, p),
        None => s1,
    };
    match previous {
        Some(p) => {
            lemma_region_roundtrip(s1, 0x40, p);
        },
        None => {},
    }
    assert(s2.len() == len);
    assert(read_i32_at(s2, 0) == Some(16i32));
    assert(read_i32_at(s2, 4) == Some(VECTOR_MAGIC));
    assert(read_i32_at(s2, 8) == Some(data.flags));
    let s3 = encode_region_spec(s2, second, c, current);
    lemma_region_roundtrip(s2, second, current);
    assert(s3 == encode_vector_payload_spec(data, previous, current));
    assert(read_i32_at(s3, 0) == Some(16i32));
    assert(read_i32_at(s3, 4) == Some(VECTOR_MAGIC));
    assert(read_i32_at(s3, 8) == Some(data.flags));
    if flags & 1 != 0 {
        let p = previous.unwrap();
        assert(decode_region_spec(s2, 0x40, c) == Some(p.map_values(|v: DecodedVector| stored_vector(v))));
        lemma_region_prefix_unchanged(s2, s3, 0x40, c, second);
    }
}

/// A region that ends before `limit` decodes alike in two sequences of one
/// length that agree on every word ending at or before `limit`.
pub proof fn lemma_region_prefix_unchanged(a: Seq<u8>, b: Seq<u8>, offset: int, c: int, limit: int)
    requires
        0 <= offset,
        0 <= c,
        a.len() == b.len(),
        entry_pos(offset, c) <= limit,
        forall|o: int| o + 4 <= limit ==> #[trigger] read_u32_at(b, o) == read_u32_at(a, o),
    ensures
        decode_region_spec(b, offset, c) == decode_region_spec(a, offset, c),
{
    assert(read_u32_at(b, offset) == read_u32_at(a, offset));
    assert(read_i32_at(b, offset) == read_i32_at(a, offset));
    assert forall|i: int| 0 <= i < c implies entry_at(b, entry_pos(offset, i)) == entry_at(
        a,
        entry_pos(offset, i),
    ) by {
        assert(read_u32_at(b, entry_pos(offset, i)) == read_u32_at(a, entry_pos(offset, i)));
        assert(read_u32_at(b, entry_pos(offset, i) + 4) == read_u32_at(a, entry_pos(offset, i) + 4));
    }
    assert(Seq::new(c as nat, |i: int| entry_at(b, entry_pos(offset, i))) =~= Seq::new(
        c as nat,
        |i: int| entry_at(a, entry_pos(offset, i)),
    ));
}

/// Writing the first `n` entries of a region at or past `0x40` leaves the
/// length and the first `0x40` bytes unchanged.
proof fn lemma_entries_keep_head(s: Seq<u8>, offset: int, vectors: Seq<DecodedVector>, n: nat)
    requires
        offset >= 0x40,
    ensures
        encode_entries(s, offset, vectors, n).len() == s.len(),
        forall|k: int| 0 <= k < 0x40 && k < s.len() ==> #[trigger] encode_entries(s, offset, vectors, n)[k] == s[k],
    decreases n,
{
    if n > 0 {
        lemma_entries_keep_head(s, offset, vectors, (n - 1) as nat);
        let prev = encode_entries(s, offset, vectors, (n - 1) as nat);
        let cursor = entry_offset(offset, n - 1);
        let v = vectors[n - 1];
        let mid = put_u32(prev, cursor, packed_motion(v));
        assert forall|k: int| 0 <= k < 0x40 && k < s.len() implies #[trigger] encode_entries(s, offset, vectors, n)[k] == s[k] by {
            lemma_put_outside(prev, cursor, packed_motion(v), k);
            lemma_put_outside(mid, sat_usize(cursor + 4), packed_score(v), k);
        }
    }
}

/// Writing a region at or past `0x40` leaves the length and the first
/// `0x40` bytes unchanged.
proof fn lemma_region_keeps_head(s: Seq<u8>, offset: int, count: int, vectors: Seq<DecodedVector>)
    requires
        offset >= 0x40,
    ensures
        encode_region_spec(s, offset, count, vectors).len() == s.len(),
        forall|k: int| 0 <= k < 0x40 && k < s.len() ==> #[trigger] encode_region_spec(s, offset, count, vectors)[k] == s[k],
{
    let n: nat = if count < vectors.len() { count as nat } else { vectors.len() };
    let s1 = put_i32(s, offset, encoded_region_header(count));
    lemma_entries_keep_head(s1, offset, vectors, n);
    assert forall|k: int| 0 <= k < 0x40 && k < s.len() implies #[trigger] encode_region_spec(s, offset, count, vectors)[k] == s[k] by {
        lemma_put_outside(s, offset, encoded_region_header(count) as u32, k);
    }
}

/// After its leading size word, a frame's payload is a vector clip header
/// that reads back every field of the layout it was built from.
#[verifier::rlimit(60)]
#[verifier::spinoff_prover]
pub proof fn lemma_payload_header_reads_back(
    data: VectorData,
    previous: Option<Seq<DecodedVector>>,
    current: Seq<DecodedVector>,
)
    ensures
        ({
            let p = encode_vector_payload_spec(data, previous, current);
            let h = p.subrange(4, p.len() as int);
            &&& is_vector_header(h)
            &&& header_field(h, FLAGS as int) == data.flags
            &&& header_field(h, BLOCK_WIDTH as int) == data.block.width
            &&& header_field(h, BLOCK_HEIGHT as int) == data.block.height
            &&& header_field(h, MARKER as int) == data.marker
            &&& header_field(h, WIDTH as int) == data.shape.width
            &&& header_field(h, HEIGHT as int) == data.shape.height
            &&& header_field(h, OVERLAP_X as int) == data.overlap_x
            &&& header_field(h, OVERLAP_Y as int) == data.overlap_y
            &&& header_field(h, GRID_WIDTH as int) == data.grid.width
            &&& header_field(h, GRID_HEIGHT as int) == data.grid.height
            &&& header_field(h, SELECTOR as int) == data.selector
            &&& header_field(h, DELTA as int) == data.delta
        }),
{
    let count = encoded_count(data);
    let len = sat_usize(0x48 + sat_usize(count * 16));
    let z = Seq::new(len as nat, |i: int| 0u8);
    let s0 = encode_header_spec(z, data);
    let second = 0x44 + sat_usize(count * 8);
    let s1 = match previous {
        Some(pv) => encode_region_spec(s0, 0x40, count, pv),
        None => s0,
    };
    match previous {
        Some(pv) => lemma_region_keeps_head(s0, 0x40, count, pv),
        None => {},
    }
    lemma_region_keeps_head(s1, second, count, current);
    let p = encode_vector_payload_spec(data, previous, current);
    assert(p == encode_region_spec(s1, second, count, current));
    assert(len >= 0x48);
    assert(s0.len() == len);
    assert(forall|k: int| 0 <= k < 0x40 ==> #[trigger] p[k] == s0[k]);
    let h = p.subrange(4, p.len() as int);
    lemma_le_u32_bytes(VECTOR_MAGIC as u32);
    lemma_le_u32_bytes(data.flags as u32);
    lemma_le_u32_bytes(data.block.width as u32);
    lemma_le_u32_bytes(data.block.height as u32);
    lemma_le_u32_bytes(data.marker as u32);
    lemma_le_u32_bytes(data.shape.width as u32);
    lemma_le_u32_bytes(data.shape.height as u32);
    lemma_le_u32_bytes(data.overlap_x as u32);
    lemma_le_u32_bytes(data.overlap_y as u32);
    lemma_le_u32_bytes(data.grid.width as u32);
    lemma_le_u32_bytes(data.grid.height as u32);
    lemma_le_u32_bytes(data.selector as u32);
    lemma_le_u32_bytes(data.delta as u32);
    lemma_i32_u32_roundtrip(VECTOR_MAGIC);
    lemma_i32_u32_roundtrip(data.flags);
    lemma_i32_u32_roundtrip(data.block.width);
    lemma_i32_u32_roundtrip(data.block.height);
    lemma_i32_u32_roundtrip(data.marker);
    lemma_i32_u32_roundtrip(data.shape.width);
    lemma_i32_u32_roundtrip(data.shape.height);
    lemma_i32_u32_roundtrip(data.overlap_x);
    lemma_i32_u32_roundtrip(data.overlap_y);
    lemma_i32_u32_roundtrip(data.grid.width);
    lemma_i32_u32_roundtrip(data.grid.height);
    lemma_i32_u32_roundtrip(data.selector);
    lemma_i32_u32_roundtrip(data.delta);
    assert(forall|k: int| 0 <= k < 0x3C ==> #[trigger] h[k] == s0[k + 4]);
}

} // verus!
