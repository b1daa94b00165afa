//! The device-independent bitmap codec: header fields, decoding stored rows
//! into a top-down RGBA buffer, and encoding such a buffer back in place.
use vstd::prelude::*;
use crate::error::BitmapError;
use vstd::arithmetic::div_mod::lemma_fundamental_div_mod_converse;

verus! {

/// Size of the fixed bitmap header that precedes the palette.
pub const HEADER_LEN: u64 = 40;

/// A little-endian 32-bit unsigned integer stored at `b[i..i + 4]`.
pub open spec fn le_u32(b: Seq<u8>, i: int) -> int {
    b[i] + 256 * b[i + 1] + 65536 * b[i + 2] + 16777216 * b[i + 3]
}

/// A little-endian 16-bit unsigned integer stored at `b[i..i + 2]`.
pub open spec fn le_u16(b: Seq<u8>, i: int) -> int {
    b[i] + 256 * b[i + 1]
}

pub open spec fn width_of(b: Seq<u8>) -> int {
    le_u32(b, 4)
}

pub open spec fn height_of(b: Seq<u8>) -> int {
    le_u32(b, 8)
}

pub open spec fn depth_of(b: Seq<u8>) -> int {
    le_u16(b, 14)
}

pub open spec fn supported_depth(d: int) -> bool {
    d == 1 || d == 2 || d == 4 || d == 8 || d == 16 || d == 24 || d == 32
}

/// Depths whose pixels are palette indices.
pub open spec fn indexed_depth(d: int) -> bool {
    d == 1 || d == 2 || d == 4 || d == 8 || d == 16
}

/// Number of colours an index of `d` bits can select.
pub open spec fn capacity(d: int) -> int {
    if d == 1 {
        2
    } else if d == 2 {
        4
    } else if d == 4 {
        16
    } else if d == 8 {
        256
    } else {
        65536
    }
}

/// The palette size: the explicit field at byte 32 when nonzero, else
/// `2^depth`.
pub open spec fn palette_len(b: Seq<u8>) -> int {
    if le_u32(b, 32) == 0 {
        capacity(depth_of(b))
    } else {
        le_u32(b, 32)
    }
}

/// Bytes per stored row: always a multiple of four.
pub open spec fn stride(w: int, d: int) -> int {
    if d <= 16 {
        (w * d + 31) / 32 * 4
    } else {
        (w * (d / 8) + 3) / 4 * 4
    }
}

/// Offset of the first stored row (the bottom row of the image).
pub open spec fn data_start(b: Seq<u8>) -> int {
    if depth_of(b) <= 16 {
        40 + 4 * palette_len(b)
    } else {
        40
    }
}

/// The header is present, its depth supported, and its palette and rows fit.
pub open spec fn well_formed(b: Seq<u8>) -> bool {
    &&& b.len() >= 40
    &&& supported_depth(depth_of(b))
    &&& data_start(b) + stride(width_of(b), depth_of(b)) * height_of(b) <= b.len()
}

/// Offset of the stored row that holds image row `y`, counted from the top.
pub open spec fn row_start(b: Seq<u8>, y: int) -> int {
    data_start(b) + (height_of(b) - 1 - y) * stride(width_of(b), depth_of(b))
}

/// The geometry of a bitmap, read from its header.
pub struct Layout {
    pub width: u64,
    pub height: u64,
    pub depth: u64,
    pub palette_len: u64,
    pub data_start: u64,
    pub stride: u64,
}

impl Layout {
    pub open spec fn describes(&self, b: Seq<u8>) -> bool {
        &&& self.width == width_of(b)
        &&& self.height == height_of(b)
        &&& self.depth == depth_of(b)
        &&& (indexed_depth(depth_of(b)) ==> self.palette_len == palette_len(b))
        &&& self.data_start == data_start(b)
        &&& self.stride == stride(width_of(b), depth_of(b))
    }
}

pub(crate) fn read_u32(buffer: &[u8], i: usize) -> (r: u32)
    requires
        i + 4 <= buffer@.len(),
    ensures
        r == le_u32(buffer@, i as int),
{
    buffer[i] as u32 + buffer[i + 1] as u32 * 256 + buffer[i + 2] as u32 * 65536
        + buffer[i + 3] as u32 * 16777216
}

fn read_u16(buffer: &[u8], i: usize) -> (r: u16)
    requires
        i + 2 <= buffer@.len(),
    ensures
        r == le_u16(buffer@, i as int),
{
    buffer[i] as u16 + buffer[i + 1] as u16 * 256
}

/// Reads `((width, height), depth)` from a bitmap header.
pub fn parse(buffer: &[u8]) -> (r: Result<((u32, u32), u16), BitmapError>)
    ensures
        buffer@.len() < 40 ==> r == Err::<((u32, u32), u16), BitmapError>(
            BitmapError::HeaderTooShort,
        ),
        buffer@.len() >= 40 ==> (r matches Ok(((w, h), d)) && w == width_of(buffer@) && h
            == height_of(buffer@) && d == depth_of(buffer@)),
{
    if buffer.len() < 40 {
        return Err(BitmapError::HeaderTooShort);
    }
    Ok(((read_u32(buffer, 4), read_u32(buffer, 8)), read_u16(buffer, 14)))
}

/// Reads and checks the geometry of a bitmap.
pub fn layout(buffer: &[u8]) -> (r: Result<Layout, BitmapError>)
    ensures
        match r {
            Ok(l) => well_formed(buffer@) && l.describes(buffer@),
            Err(e) => !well_formed(buffer@) && e == (if buffer@.len() < 40 {
                BitmapError::HeaderTooShort
            } else if !supported_depth(depth_of(buffer@)) {
                BitmapError::UnsupportedBitDepth
            } else {
                BitmapError::RegionOutOfBounds
            }),
        },
{
    if buffer.len() < 40 {
        return Err(BitmapError::HeaderTooShort);
    }
    let width = read_u32(buffer, 4) as u64;
    let height = read_u32(buffer, 8) as u64;
    let depth = read_u16(buffer, 14) as u64;
    if !(depth == 1 || depth == 2 || depth == 4 || depth == 8 || depth == 16 || depth == 24
        || depth == 32) {
        return Err(BitmapError::UnsupportedBitDepth);
    }
    let explicit = read_u32(buffer, 32) as u64;
    let cap: u64 = if depth == 1 {
        2
    } else if depth == 2 {
        4
    } else if depth == 4 {
        16
    } else if depth == 8 {
        256
    } else {
        65536
    };
    let palette_len: u64 = if explicit == 0 { cap } else { explicit };
    let data_start: u64 = if depth <= 16 { 40 + 4 * palette_len } else { 40 };
    proof {
        assert(width * depth <= 0xffff_ffff * 32) by (nonlinear_arith)
            requires width <= 0xffff_ffff, depth <= 32;
        assert(width * (depth / 8) <= 0xffff_ffff * 4) by (nonlinear_arith)
            requires width <= 0xffff_ffff, depth / 8 <= 4;
    }
    let stride: u64 = if depth <= 16 {
        (width * depth + 31) / 32 * 4
    } else {
        (width * (depth / 8) + 3) / 4 * 4
    };
    let len = buffer.len() as u64;
    if data_start > len {
        return Err(BitmapError::RegionOutOfBounds);
    }
    match stride.checked_mul(height) {
        None => {
            proof {
                assert(stride * height >= 0x1_0000_0000_0000_0000) by (nonlinear_arith)
                    requires stride * height > u64::MAX;
            }
            Err(BitmapError::RegionOutOfBounds)
        },
        Some(rows) => {
            if rows > len - data_start {
                return Err(BitmapError::RegionOutOfBounds);
            }
            Ok(Layout { width, height, depth, palette_len, data_start, stride })
        },
    }
}

/// The `d`-bit field of `byte` that starts `bit` bits from its most
/// significant end.
pub open spec fn bit_field(byte: u8, d: int, bit: int) -> int {
    ((byte >> ((8 - d - bit) as u8)) & ((capacity(d) - 1) as u8)) as int
}

/// The palette index stored for pixel `(x, y)`, `y` counted from the top.
/// Sub-byte indices are packed most significant bit first; two-byte indices
/// are read most significant byte first.
pub open spec fn index_at(b: Seq<u8>, x: int, y: int) -> int {
    let d = depth_of(b);
    let rs = row_start(b, y);
    if d == 16 {
        b[rs + 2 * x] * 256 + b[rs + 2 * x + 1]
    } else if d == 8 {
        b[rs + x] as int
    } else {
        bit_field(b[rs + (x * d) / 8], d, (x * d) % 8)
    }
}

/// Every stored index selects a palette slot.
pub open spec fn indices_in_range(b: Seq<u8>) -> bool {
    indexed_depth(depth_of(b)) ==> forall|x: int, y: int|
        0 <= x < width_of(b) && 0 <= y < height_of(b) ==> #[trigger] index_at(b, x, y)
            < palette_len(b)
}

/// Byte `i` of the decoded top-down RGBA buffer.
pub open spec fn decoded_byte(b: Seq<u8>, i: int) -> u8 {
    let w = width_of(b);
    let p = i / 4;
    let c = i % 4;
    let x = p % w;
    let y = p / w;
    let d = depth_of(b);
    if d <= 16 {
        let e = 40 + 4 * index_at(b, x, y);
        if c == 0 {
            b[e + 2]
        } else if c == 1 {
            b[e + 1]
        } else if c == 2 {
            b[e]
        } else {
            255
        }
    } else {
        let o = row_start(b, y) + x * (d / 8);
        if c == 0 {
            b[o + 2]
        } else if c == 1 {
            b[o + 1]
        } else if c == 2 {
            b[o]
        } else if d == 32 {
            b[o + 3]
        } else {
            255
        }
    }
}

pub open spec fn pixel_buffer_len(b: Seq<u8>) -> int {
    width_of(b) * height_of(b) * 4
}

/// The decoded image: `width * height` RGBA pixels, top row first.
pub open spec fn decoded(b: Seq<u8>) -> Seq<u8> {
    Seq::new(pixel_buffer_len(b) as nat, |i: int| decoded_byte(b, i))
}

/// The bitmap decodes: its layout holds, its pixel buffer fits in memory and
/// every index is in range.
pub open spec fn decodable(b: Seq<u8>) -> bool {
    well_formed(b) && pixel_buffer_len(b) <= usize::MAX && indices_in_range(b)
}

proof fn lemma_pixel_coords(p: int, w: int, x: int, y: int, c: int)
    requires
        0 <= x < w,
        0 <= y,
        p == y * w + x,
        0 <= c < 4,
    ensures
        (4 * p + c) / 4 == p,
        (4 * p + c) % 4 == c,
        p % w == x,
        p / w == y,
{
    lemma_fundamental_div_mod_converse(p, w, y, x);
    lemma_fundamental_div_mod_converse(4 * p + c, 4, p, c);
}

proof fn lemma_row_in_bounds(h: int, y: int, stride: int, ds: int, len: int)
    requires
        0 <= y < h,
        0 <= stride,
        ds + stride * h <= len,
    ensures
        ds + (h - 1 - y) * stride + stride <= len,
        0 <= (h - 1 - y) * stride,
{
    assert((h - 1 - y) * stride + stride <= stride * h) by (nonlinear_arith)
        requires 0 <= y < h, 0 <= stride;
    assert(0 <= (h - 1 - y) * stride) by (nonlinear_arith)
        requires 0 <= y < h, 0 <= stride;
}

proof fn lemma_pixel_in_row(w: int, d: int, x: int)
    requires
        supported_depth(d),
        0 <= x < w,
    ensures
        d < 8 ==> (x * d) / 8 < stride(w, d) && 0 <= (x * d) % 8 <= 8 - d,
        d == 8 ==> x + 1 <= stride(w, d),
        d == 16 ==> 2 * x + 2 <= stride(w, d),
        d > 16 ==> x * (d / 8) + d / 8 <= stride(w, d),
{
    if d <= 16 {
        let q = (w * d + 31) / 32;
        lemma_fundamental_div_mod_converse(w * d + 31, 32, q, (w * d + 31) % 32);
        assert(w * d <= 32 * q);
        assert(x * d + d <= w * d) by (nonlinear_arith)
            requires x < w, 0 <= d;
        if d == 1 {
            lemma_fundamental_div_mod_converse(x, 8, x / 8, x % 8);
        } else if d == 2 {
            lemma_fundamental_div_mod_converse(2 * x, 8, x / 4, 2 * (x % 4));
        } else if d == 4 {
            lemma_fundamental_div_mod_converse(4 * x, 8, x / 2, 4 * (x % 2));
        }
    } else {
        let o = d / 8;
        let q = (w * o + 3) / 4;
        lemma_fundamental_div_mod_converse(w * o + 3, 4, q, (w * o + 3) % 4);
        assert(x * o + o <= w * o) by (nonlinear_arith)
            requires x < w, 0 <= o;
    }
}

fn palette_index(buffer: &[u8], l: &Layout, rs: usize, x: usize) -> (k: u64)
    requires
        well_formed(buffer@),
        l.describes(buffer@),
        indexed_depth(l.depth as int),
        x < l.width,
        rs + l.stride <= buffer@.len(),
    ensures
        k == ({
            let d = l.depth as int;
            if d == 16 {
                buffer@[rs + 2 * x] * 256 + buffer@[rs + 2 * x + 1]
            } else if d == 8 {
                buffer@[rs + x] as int
            } else {
                bit_field(buffer@[rs + (x * d) / 8], d, (x * d) % 8)
            }
        }),
{
    proof {
        lemma_pixel_in_row(l.width as int, l.depth as int, x as int);
    }
    let len = buffer.len();
    if l.depth == 16 {
        buffer[rs + 2 * x] as u64 * 256 + buffer[rs + 2 * x + 1] as u64
    } else if l.depth == 8 {
        buffer[rs + x] as u64
    } else {
        let d = l.depth;
        let xb = x as u64 * d;
        let bit = (xb % 8) as u8;
        let mask: u8 = if d == 1 {
            1
        } else if d == 2 {
            3
        } else {
            15
        };
        ((buffer[rs + (xb / 8) as usize] >> (8 - d as u8 - bit)) & mask) as u64
    }
}

/// The error `read` reports on a bitmap that does not decode.
pub open spec fn read_error(b: Seq<u8>) -> BitmapError {
    if b.len() < 40 {
        BitmapError::HeaderTooShort
    } else if !supported_depth(depth_of(b)) {
        BitmapError::UnsupportedBitDepth
    } else if !well_formed(b) || pixel_buffer_len(b) > usize::MAX {
        BitmapError::RegionOutOfBounds
    } else {
        BitmapError::PaletteIndexOutOfRange
    }
}

/// Decodes a bitmap into a top-down RGBA buffer of `width * height * 4`
/// bytes. Palette colours come out fully opaque; 24-bit pixels too.
pub fn read(buffer: &[u8]) -> (r: Result<Vec<u8>, BitmapError>)
    ensures
        r is Ok <==> decodable(buffer@),
        r matches Ok(v) ==> v@ == decoded(buffer@),
        r matches Err(e) ==> e == read_error(buffer@),
{
    let l = match layout(buffer) {
        Ok(l) => l,
        Err(e) => return Err(e),
    };
    let ghost b = buffer@;
    let len = buffer.len();
    proof {
        assert(l.width * l.height <= 0xffff_ffff * 0xffff_ffff) by (nonlinear_arith)
            requires l.width <= 0xffff_ffff, l.height <= 0xffff_ffff;
    }
    let area = l.width * l.height;
    if area > usize::MAX as u64 / 4 {
        return Err(BitmapError::RegionOutOfBounds);
    }
    let w = l.width as usize;
    let h = l.height as usize;
    proof {
        if h > 0 {
            assert(l.width <= area) by (nonlinear_arith)
                requires area == l.width * l.height, l.height > 0;
        }
    }
    if h == 0 {
        let out: Vec<u8> = Vec::new();
        assert(pixel_buffer_len(b) == 0) by (nonlinear_arith)
            requires height_of(b) == 0, pixel_buffer_len(b) == width_of(b) * height_of(b) * 4;
        assert(out@ =~= decoded(b));
        return Ok(out);
    }
    proof {
        assert(l.stride <= l.stride * l.height) by (nonlinear_arith)
            requires l.height >= 1;
    }
    let row = l.stride as usize;
    let ds = l.data_start as usize;
    let mut out: Vec<u8> = Vec::new();
    let mut y: usize = 0;
    while y < h
        invariant
            l.describes(b),
            well_formed(b),
            b == buffer@,
            b.len() <= usize::MAX,
            w == width_of(b),
            h == height_of(b),
            row == stride(width_of(b), depth_of(b)),
            ds == data_start(b),
            area == w * h,
            area * 4 <= usize::MAX,
            0 <= y <= h,
            out@.len() == 4 * (y * w),
            forall|i: int| 0 <= i < out@.len() ==> out@[i] == decoded_byte(b, i),
            indexed_depth(depth_of(b)) ==> forall|xx: int, yy: int|
                0 <= xx < w && 0 <= yy < y ==> #[trigger] index_at(b, xx, yy)
                    < palette_len(b),
        decreases h - y,
    {
        proof {
            lemma_row_in_bounds(h as int, y as int, row as int, ds as int, b.len() as int);
        }
        let rs = ds + (h - 1 - y) * row;
        let mut x: usize = 0;
        while x < w
            invariant
                l.describes(b),
                well_formed(b),
                b == buffer@,
                b.len() <= usize::MAX,
                w == width_of(b),
                h == height_of(b),
                row == stride(width_of(b), depth_of(b)),
                ds == data_start(b),
                area == w * h,
                area * 4 <= usize::MAX,
                0 <= y < h,
                rs == row_start(b, y as int),
                rs + row <= b.len(),
                0 <= x <= w,
                out@.len() == 4 * (y * w + x),
                forall|i: int| 0 <= i < out@.len() ==> out@[i] == decoded_byte(b, i),
                indexed_depth(depth_of(b)) ==> forall|xx: int, yy: int|
                    0 <= xx < w && 0 <= yy < y ==> #[trigger] index_at(b, xx, yy)
                        < palette_len(b),
                indexed_depth(depth_of(b)) ==> forall|xx: int|
                    0 <= xx < x ==> #[trigger] index_at(b, xx, y as int) < palette_len(b),
            decreases w - x,
        {
            let ghost p = y * w + x;
            proof {
                assert(y * w + x < w * h) by (nonlinear_arith)
                    requires x < w, y < h;
                lemma_pixel_coords(p, w as int, x as int, y as int, 0);
                lemma_pixel_coords(p, w as int, x as int, y as int, 1);
                lemma_pixel_coords(p, w as int, x as int, y as int, 2);
                lemma_pixel_coords(p, w as int, x as int, y as int, 3);
            }
            if l.depth <= 16 {
                let k = palette_index(buffer, &l, rs, x);
                assert(k == index_at(b, x as int, y as int));
                if k >= l.palette_len {
                    return Err(BitmapError::PaletteIndexOutOfRange);
                }
                let e = 40 + 4 * k as usize;
                out.push(buffer[e + 2]);
                out.push(buffer[e + 1]);
                out.push(buffer[e]);
                out.push(255);
            } else {
                proof {
                    lemma_pixel_in_row(w as int, l.depth as int, x as int);
                }
                let o = rs + x * (l.depth as usize / 8);
                out.push(buffer[o + 2]);
                out.push(buffer[o + 1]);
                out.push(buffer[o]);
                out.push(if l.depth == 32 { buffer[o + 3] } else { 255 });
            }
            x = x + 1;
            proof {
                assert(4 * (y * w + x) == 4 * p + 4);
            }
        }
        y = y + 1;
        proof {
            assert(y * w == (y - 1) * w + w) by (nonlinear_arith);
        }
    }
    assert(4 * (y * w) == w * h * 4) by (nonlinear_arith)
        requires y == h;
    assert(out@ =~= decoded(b));
    Ok(out)
}

} // verus!
