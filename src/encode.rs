//! Encoding a top-down RGBA buffer back into a bitmap's bytes, in place.
use vstd::prelude::*;
use crate::dib::{
    capacity, depth_of, height_of, indexed_depth, layout, read_u32, palette_len, pixel_buffer_len, row_start,
    stride, supported_depth, well_formed, width_of,
};
use vstd::arithmetic::div_mod::lemma_fundamental_div_mod_converse;
use crate::error::BitmapError;
use std::collections::HashMap;

verus! {

broadcast use vstd::std_specs::hash::group_hash_axioms;

/// The RGBA colour of pixel `p` of a pixel buffer.
pub open spec fn colour_at(px: Seq<u8>, p: int) -> (u8, u8, u8, u8) {
    (px[4 * p], px[4 * p + 1], px[4 * p + 2], px[4 * p + 3])
}

/// The distinct colours of the first `n` pixels, in order of first
/// appearance.
pub open spec fn palette_of(px: Seq<u8>, n: nat) -> Seq<(u8, u8, u8, u8)>
    decreases n,
{
    if n == 0 {
        seq![]
    } else {
        let pal = palette_of(px, (n - 1) as nat);
        let c = colour_at(px, n - 1);
        if pal.contains(c) {
            pal
        } else {
            pal.push(c)
        }
    }
}

/// The palette slot that the colour of pixel `p` takes in `palette_of(px, n)`.
pub open spec fn code_of(px: Seq<u8>, n: nat, p: int) -> int {
    choose|k: int| 0 <= k < palette_of(px, n).len() && palette_of(px, n)[k] == colour_at(px, p)
}

/// The code as stored in `d` bits.
pub open spec fn stored_code(px: Seq<u8>, n: nat, d: int, p: int) -> int {
    code_of(px, n, p) % capacity(d) as int
}

/// Pixels per byte at a sub-byte depth.
pub open spec fn per_byte(d: int) -> int {
    8int / d
}

/// The first `t` codes of byte `j` of row `y`, packed most significant bit
/// first; pixels past the row's end count as zero.
pub open spec fn packed(px: Seq<u8>, n: nat, d: int, w: int, y: int, j: int, t: nat) -> u8
    decreases t,
{
    if t == 0 {
        0
    } else {
        let x = j * per_byte(d) + t - 1;
        let v = if x < w {
            stored_code(px, n, d, y * w + x)
        } else {
            0
        };
        ((packed(px, n, d, w, y, j, (t - 1) as nat) << (d as u8)) | (v as u8)) as u8
    }
}

/// Bytes of a stored row that carry pixels (the rest is row padding).
pub open spec fn row_bytes(w: int, d: int) -> int {
    (w * d + 7) / 8
}

/// Byte `j` of a stored row of palette codes for image row `y`. One-byte
/// codes are stored as is, two-byte codes least significant byte first.
pub open spec fn indexed_byte(px: Seq<u8>, n: nat, d: int, w: int, y: int, j: int) -> u8 {
    if d == 16 {
        let k = stored_code(px, n, d, y * w + j / 2);
        if j % 2 == 0 {
            (k % 256) as u8
        } else {
            (k / 256) as u8
        }
    } else if d == 8 {
        stored_code(px, n, d, y * w + j) as u8
    } else {
        packed(px, n, d, w, y, j, per_byte(d) as nat)
    }
}

/// Byte `j` of a stored row of direct colours for image row `y`: blue, green,
/// red and, at 32 bits, alpha.
pub open spec fn direct_byte(px: Seq<u8>, d: int, w: int, y: int, j: int) -> u8 {
    let o = d / 8;
    let p = y * w + j / o;
    let c = j % o;
    if c == 0 {
        px[4 * p + 2]
    } else if c == 1 {
        px[4 * p + 1]
    } else if c == 2 {
        px[4 * p]
    } else {
        px[4 * p + 3]
    }
}

/// Byte `j` of the stored row that holds image row `y` (counted from the
/// top), when the pixel buffer `px` is encoded over the header of `b`.
pub open spec fn encoded_byte(b: Seq<u8>, px: Seq<u8>, y: int, j: int) -> u8 {
    let w = width_of(b);
    let d = depth_of(b);
    if d <= 16 {
        indexed_byte(px, (w * height_of(b)) as nat, d, w, y, j)
    } else {
        direct_byte(px, d, w, y, j)
    }
}

/// The bytes of the stored row for image row `y`.
pub open spec fn encoded_row(b: Seq<u8>, px: Seq<u8>, y: int) -> Seq<u8> {
    Seq::new(row_bytes(width_of(b), depth_of(b)) as nat, |j: int| encoded_byte(b, px, y, j))
}

/// The palette that encoding `px` over `b` writes.
pub open spec fn new_palette(b: Seq<u8>, px: Seq<u8>) -> Seq<(u8, u8, u8, u8)> {
    palette_of(px, (width_of(b) * height_of(b)) as nat)
}

/// Byte `i` lies in the pixel-carrying bytes of one of the first `count`
/// image rows.
pub open spec fn in_rows(b: Seq<u8>, i: int, count: int) -> bool {
    exists|y: int|
        0 <= y < count && #[trigger] row_start(b, y) <= i < row_start(b, y) + row_bytes(
            width_of(b),
            depth_of(b),
        )
}

/// Byte `i` is one that encoding `px` over `b0` writes: a slot of the new
/// palette, or a pixel-carrying byte of a row. Unused palette slots and row
/// padding are not written.
pub open spec fn written(b0: Seq<u8>, px: Seq<u8>, i: int) -> bool {
    (indexed_depth(depth_of(b0)) && 40 <= i < 40 + 4 * new_palette(b0, px).len()) || in_rows(
        b0,
        i,
        height_of(b0),
    )
}

/// What `patch` leaves in the bitmap `b1` when it encodes `px` over `b0`.
pub open spec fn encoded(b0: Seq<u8>, b1: Seq<u8>, px: Seq<u8>) -> bool {
    let d = depth_of(b0);
    let pal = new_palette(b0, px);
    &&& b1.len() == b0.len()
    &&& forall|i: int| 0 <= i < 40 ==> b1[i] == b0[i]
    &&& forall|i: int| 0 <= i < b0.len() && !written(b0, px, i) ==> #[trigger] b1[i] == b0[i]
    &&& indexed_depth(d) ==> forall|k: int|
        0 <= k < pal.len() ==> {
            &&& #[trigger] b1[40 + 4 * k] == pal[k].2
            &&& b1[40 + 4 * k + 1] == pal[k].1
            &&& b1[40 + 4 * k + 2] == pal[k].0
            &&& b1[40 + 4 * k + 3] == 0
        }
    &&& forall|y: int|
        0 <= y < height_of(b0) ==> #[trigger] b1.subrange(
            row_start(b0, y),
            row_start(b0, y) + row_bytes(width_of(b0), d),
        ) == encoded_row(b0, px, y)
}

pub proof fn lemma_palette_grows(px: Seq<u8>, m: nat, n: nat)
    requires
        m <= n,
    ensures
        palette_of(px, m).len() <= palette_of(px, n).len(),
        palette_of(px, n).subrange(0, palette_of(px, m).len() as int) == palette_of(px, m),
    decreases n - m,
{
    if m < n {
        lemma_palette_grows(px, m, (n - 1) as nat);
        let a = palette_of(px, m);
        let b = palette_of(px, (n - 1) as nat);
        assert(palette_of(px, n).subrange(0, a.len() as int) =~= b.subrange(0, a.len() as int));
    } else {
        assert(palette_of(px, n).subrange(0, palette_of(px, n).len() as int) =~= palette_of(px, n));
    }
}

pub proof fn lemma_palette_distinct(px: Seq<u8>, n: nat)
    ensures
        palette_of(px, n).no_duplicates(),
        palette_of(px, n).len() <= n,
    decreases n,
{
    if n > 0 {
        lemma_palette_distinct(px, (n - 1) as nat);
    }
}

/// The colour of each of the first `n` pixels stands in `palette_of(px, n)`.
pub proof fn lemma_palette_covers(px: Seq<u8>, n: nat, p: int)
    requires
        0 <= p < n,
    ensures
        palette_of(px, n).contains(colour_at(px, p)),
    decreases n,
{
    if p < n - 1 {
        lemma_palette_covers(px, (n - 1) as nat, p);
        lemma_palette_grows(px, (n - 1) as nat, n);
        let a = palette_of(px, (n - 1) as nat);
        let k = choose|k: int| 0 <= k < a.len() && a[k] == colour_at(px, p);
        assert(palette_of(px, n)[k] == palette_of(px, n).subrange(0, a.len() as int)[k]);
    } else {
        let a = palette_of(px, (n - 1) as nat);
        if !a.contains(colour_at(px, p)) {
            assert(palette_of(px, n)[a.len() as int] == colour_at(px, p));
        }
    }
}

proof fn lemma_code_unique(px: Seq<u8>, n: nat, p: int, k: int)
    requires
        0 <= k < palette_of(px, n).len(),
        palette_of(px, n)[k] == colour_at(px, p),
    ensures
        code_of(px, n, p) == k,
{
    lemma_palette_distinct(px, n);
}

/// A colour packed into one integer, red in the most significant byte.
pub open spec fn colour_key(c: (u8, u8, u8, u8)) -> int {
    c.0 * 16777216 + c.1 * 65536 + c.2 * 256 + c.3
}

proof fn lemma_colour_key_unique(a: (u8, u8, u8, u8), b: (u8, u8, u8, u8))
    requires
        colour_key(a) == colour_key(b),
    ensures
        a == b,
{
}

/// The index maps the key of each palette colour to its slot, and nothing
/// else.
pub open spec fn indexes(index: Map<u32, usize>, pal: Seq<(u8, u8, u8, u8)>) -> bool {
    &&& forall|k: int| 0 <= k < pal.len() ==> index.contains_key(#[trigger] colour_key(pal[k]) as u32)
    &&& forall|key: u32|
        #[trigger] index.contains_key(key) ==> index[key] < pal.len() && colour_key(
            pal[index[key] as int],
        ) == key
}

/// Collects the distinct colours of the first `count` pixels in order of
/// first appearance, with each pixel's slot; `None` when there are more than
/// `limit` of them.
pub fn collect_palette(pixels: &[u8], count: usize, limit: u64) -> (r: Option<
    (Vec<(u8, u8, u8, u8)>, Vec<u64>),
>)
    requires
        4 * count <= pixels@.len(),
    ensures
        r is None <==> palette_of(pixels@, count as nat).len() > limit,
        r matches Some((pal, codes)) ==> pal@ == palette_of(pixels@, count as nat) && codes@.len()
            == count && forall|p: int|
            0 <= p < count ==> #[trigger] codes@[p] == code_of(pixels@, count as nat, p),
{
    let ghost px = pixels@;
    let len = pixels.len();
    let mut pal: Vec<(u8, u8, u8, u8)> = Vec::new();
    let mut index: HashMap<u32, usize> = HashMap::new();
    let mut codes: Vec<u64> = Vec::new();
    let mut p: usize = 0;
    while p < count
        invariant
            px == pixels@,
            px.len() == len,
            4 * count <= px.len(),
            0 <= p <= count,
            pal@ == palette_of(px, p as nat),
            pal@.len() <= limit,
            indexes(index@, pal@),
            codes@.len() == p,
            forall|q: int|
                0 <= q < p ==> #[trigger] codes@[q] < pal@.len() && pal@[codes@[q] as int]
                    == colour_at(px, q),
        decreases count - p,
    {
        let c = (pixels[4 * p], pixels[4 * p + 1], pixels[4 * p + 2], pixels[4 * p + 3]);
        assert(c == colour_at(px, p as int));
        let key = pixels[4 * p] as u32 * 16777216 + pixels[4 * p + 1] as u32 * 65536
            + pixels[4 * p + 2] as u32 * 256 + pixels[4 * p + 3] as u32;
        assert(key == colour_key(c));
        match index.get(&key) {
            Some(k) => {
                let k = *k;
                proof {
                    lemma_colour_key_unique(pal@[k as int], c);
                }
                codes.push(k as u64);
            },
            None => {
                proof {
                    lemma_palette_distinct(px, p as nat);
                    assert(!pal@.contains(c)) by {
                        if pal@.contains(c) {
                            let k = choose|k: int| 0 <= k < pal@.len() && pal@[k] == c;
                            assert(index@.contains_key(colour_key(pal@[k]) as u32));
                        }
                    }
                }
                let ghost old_pal = pal@;
                codes.push(pal.len() as u64);
                index.insert(key, pal.len());
                pal.push(c);
                proof {
                    assert forall|k: int| 0 <= k < pal@.len() implies index@.contains_key(
                        #[trigger] colour_key(pal@[k]) as u32,
                    ) by {
                        if k < old_pal.len() {
                            assert(pal@[k] == old_pal[k]);
                        }
                    }
                    assert forall|kk: u32| #[trigger] index@.contains_key(kk) implies index@[kk]
                        < pal@.len() && colour_key(pal@[index@[kk] as int]) == kk by {
                        if kk != key {
                            assert(pal@[index@[kk] as int] == old_pal[index@[kk] as int]);
                        }
                    }
                }
                if pal.len() as u64 > limit {
                    proof {
                        lemma_palette_grows(px, (p + 1) as nat, count as nat);
                    }
                    return None;
                }
            },
        }
        p = p + 1;
    }
    proof {
        assert forall|q: int| 0 <= q < count implies #[trigger] codes@[q] == code_of(
            px,
            count as nat,
            q,
        ) by {
            lemma_code_unique(px, count as nat, q, codes@[q] as int);
        }
    }
    Some((pal, codes))
}

/// The bytes of stored row `y` of a `w`-pixel-wide image at palette depth
/// `d`, from the slot of each pixel.
fn indexed_row(codes: &Vec<u64>, w: usize, d: u64, y: usize, Ghost(px): Ghost<Seq<u8>>) -> (r:
    Vec<u8>)
    requires
        indexed_depth(d as int),
        w <= 0xffff_ffff,
        row_bytes(w as int, d as int) <= usize::MAX,
        y * w + w <= codes@.len(),
        forall|p: int|
            0 <= p < codes@.len() ==> #[trigger] codes@[p] == code_of(px, codes@.len() as nat, p),
    ensures
        r@ =~= Seq::new(
            row_bytes(w as int, d as int) as nat,
            |j: int| indexed_byte(px, codes@.len() as nat, d as int, w as int, y as int, j),
        ),
{
    let ghost n = codes@.len() as nat;
    let n_codes = codes.len();
    let start = y * w;
    let rb = ((w as u64 * d + 7) / 8) as usize;
    let cap: u64 = if d == 1 {
        2
    } else if d == 2 {
        4
    } else if d == 4 {
        16
    } else if d == 8 {
        256
    } else {
        65536
    };
    let mut out: Vec<u8> = Vec::new();
    let mut j: usize = 0;
    while j < rb
        invariant
            indexed_depth(d as int),
            cap == capacity(d as int),
            start == y * w,
            start + w <= codes@.len(),
            n == codes@.len(),
            n <= usize::MAX,
            forall|p: int| 0 <= p < codes@.len() ==> #[trigger] codes@[p] == code_of(px, n, p),
            rb == row_bytes(w as int, d as int),
            w <= 0xffff_ffff,
            0 <= j <= rb,
            out@.len() == j,
            forall|i: int|
                0 <= i < j ==> out@[i] == indexed_byte(px, n, d as int, w as int, y as int, i),
        decreases rb - j,
    {
        proof {
            if d == 16 {
                assert(j / 2 < w);
            } else if d == 8 {
                assert(j < w);
            } else {
                assert(rb <= w + 1);
            }
        }
        let byte: u8 = if d == 16 {
            let k = codes[start + j / 2] % cap;
            if j % 2 == 0 {
                (k % 256) as u8
            } else {
                (k / 256) as u8
            }
        } else if d == 8 {
            (codes[start + j] % cap) as u8
        } else {
            let ppb = (8 / d) as usize;
            let mut acc: u8 = 0;
            let mut t: usize = 0;
            while t < ppb
                invariant
                    d == 1 || d == 2 || d == 4,
                    ppb == per_byte(d as int),
                    cap == capacity(d as int),
                    start == y * w,
                    start + w <= codes@.len(),
                    n == codes@.len(),
                    n <= usize::MAX,
                    forall|p: int|
                        0 <= p < codes@.len() ==> #[trigger] codes@[p] == code_of(px, n, p),
                    j < rb,
                    rb == row_bytes(w as int, d as int),
                    w <= 0xffff_ffff,
                    0 <= t <= ppb,
                    acc == packed(px, n, d as int, w as int, y as int, j as int, t as nat),
                decreases ppb - t,
            {
                proof {
                    assert(j * ppb + t < 8 * rb) by (nonlinear_arith)
                        requires j < rb, t < ppb, ppb <= 8;
                }
                let x = j as u64 * ppb as u64 + t as u64;
                let v: u8 = if x < w as u64 {
                    (codes[start + x as usize] % cap) as u8
                } else {
                    0
                };
                acc = (acc << (d as u8)) | v;
                t = t + 1;
            }
            acc
        };
        out.push(byte);
        j = j + 1;
    }
    out
}

/// The bytes of stored row `y` of a `w`-pixel-wide image at direct depth `d`.
fn direct_row(pixels: &[u8], w: usize, d: u64, y: usize) -> (r: Vec<u8>)
    requires
        d == 24 || d == 32,
        w <= 0xffff_ffff,
        row_bytes(w as int, d as int) <= usize::MAX,
        4 * (y * w + w) <= pixels@.len(),
    ensures
        r@ =~= Seq::new(
            row_bytes(w as int, d as int) as nat,
            |j: int| direct_byte(pixels@, d as int, w as int, y as int, j),
        ),
{
    let len = pixels.len();
    let o = (d / 8) as usize;
    proof {
        if d == 24 {
            assert((w * 24 + 7) / 8 == w * 3);
        } else {
            assert((w * 32 + 7) / 8 == w * 4);
        }
    }
    let rb = w * o;
    let start = y * w;
    let mut out: Vec<u8> = Vec::new();
    let mut j: usize = 0;
    while j < rb
        invariant
            d == 24 || d == 32,
            o == d / 8,
            rb == row_bytes(w as int, d as int),
            rb == w * o,
            start == y * w,
            4 * (start + w) <= pixels@.len(),
            pixels@.len() == len,
            0 <= j <= rb,
            out@.len() == j,
            forall|i: int|
                0 <= i < j ==> out@[i] == direct_byte(pixels@, d as int, w as int, y as int, i),
        decreases rb - j,
    {
        let x = j / o;
        let c = j % o;
        proof {
            assert(x < w) by (nonlinear_arith)
                requires x == j / o, j < w * o, o > 0;
        }
        let p = start + x;
        let byte = if c == 0 {
            pixels[4 * p + 2]
        } else if c == 1 {
            pixels[4 * p + 1]
        } else if c == 2 {
            pixels[4 * p]
        } else {
            pixels[4 * p + 3]
        };
        out.push(byte);
        j = j + 1;
    }
    out
}

/// Copies `src` over `buffer[at..at + src.len()]`.
pub(crate) fn write_at(buffer: &mut [u8], at: usize, src: &Vec<u8>)
    requires
        at + src@.len() <= old(buffer)@.len(),
    ensures
        final(buffer)@.len() == old(buffer)@.len(),
        forall|i: int|
            0 <= i < old(buffer)@.len() && !(at <= i < at + src@.len()) ==> final(buffer)@[i]
                == old(buffer)@[i],
        forall|i: int| 0 <= i < src@.len() ==> final(buffer)@[at + i] == src@[i],
{
    let n = buffer.len();
    let mut i: usize = 0;
    while i < src.len()
        invariant
            at + src@.len() <= buffer@.len(),
            buffer@.len() == n,
            buffer@.len() == old(buffer)@.len(),
            0 <= i <= src@.len(),
            forall|k: int|
                0 <= k < old(buffer)@.len() && !(at <= k < at + i) ==> buffer@[k]
                    == old(buffer)@[k],
            forall|k: int| 0 <= k < i ==> buffer@[at + k] == src@[k],
        decreases src@.len() - i,
    {
        buffer[at + i] = src[i];
        i = i + 1;
    }
}

/// The pixel buffer fits the bitmap `b`: the header is sound, the buffer
/// holds `width * height` pixels, and at a palette depth its distinct
/// colours fit in the palette.
pub open spec fn encodable(b: Seq<u8>, px: Seq<u8>) -> bool {
    &&& well_formed(b)
    &&& px.len() == pixel_buffer_len(b)
    &&& indexed_depth(depth_of(b)) ==> new_palette(b, px).len() <= palette_len(b)
}

pub(crate) proof fn lemma_row_bytes_fit(w: int, d: int)
    requires
        supported_depth(d),
        0 <= w,
    ensures
        0 <= row_bytes(w, d) <= stride(w, d),
{
    if d <= 16 {
        let q = (w * d + 31) / 32;
        lemma_fundamental_div_mod_converse(w * d + 31, 32, q, (w * d + 31) % 32);
        assert(0 <= w * d) by (nonlinear_arith)
            requires 0 <= w, 0 <= d;
    } else {
        let o = d / 8;
        let q = (w * o + 3) / 4;
        lemma_fundamental_div_mod_converse(w * o + 3, 4, q, (w * o + 3) % 4);
        assert(w * d == 8 * (w * o)) by (nonlinear_arith)
            requires d == 8 * o;
    }
}

proof fn lemma_rows_apart(h: int, y1: int, y2: int, s: int)
    requires
        0 <= y1 < y2 < h,
        0 <= s,
    ensures
        (h - 1 - y1) * s >= (h - 1 - y2) * s + s,
        (h - 1 - y2) * s >= 0,
{
    assert((h - 1 - y1) * s >= (h - 1 - y2) * s + s) by (nonlinear_arith)
        requires 0 <= y1 < y2 < h, 0 <= s;
    assert((h - 1 - y2) * s >= 0) by (nonlinear_arith)
        requires y2 < h, 0 <= s;
}

/// The error `patch` reports when `px` cannot be encoded over `b`. The size
/// of the pixel buffer is checked as soon as the header can be read.
pub open spec fn patch_error(b: Seq<u8>, px: Seq<u8>) -> BitmapError {
    if b.len() < 40 {
        BitmapError::HeaderTooShort
    } else if px.len() != pixel_buffer_len(b) {
        BitmapError::WrongPixelBufferSize
    } else if !supported_depth(depth_of(b)) {
        BitmapError::UnsupportedBitDepth
    } else if !well_formed(b) {
        BitmapError::RegionOutOfBounds
    } else {
        BitmapError::TooManyColours
    }
}

/// Encodes a top-down RGBA buffer into the bitmap `buffer` in place, in the
/// bitmap's own depth; its length never changes. At a palette depth the
/// palette is rebuilt from the colours in order of first appearance. On an
/// error nothing is written.
pub fn patch(buffer: &mut [u8], pixels: &[u8]) -> (r: Result<(), BitmapError>)
    ensures
        r is Ok <==> encodable(old(buffer)@, pixels@),
        r is Ok ==> encoded(old(buffer)@, final(buffer)@, pixels@),
        r matches Err(e) ==> final(buffer)@ == old(buffer)@ && e == patch_error(old(buffer)@, pixels@),
{
    let ghost b0 = buffer@;
    let ghost px = pixels@;
    let len = buffer.len();
    if len < 40 {
        return Err(BitmapError::HeaderTooShort);
    }
    let width = read_u32(buffer, 4) as u64;
    let height = read_u32(buffer, 8) as u64;
    proof {
        assert(width * height <= 0xffff_ffff * 0xffff_ffff) by (nonlinear_arith)
            requires width <= 0xffff_ffff, height <= 0xffff_ffff;
    }
    let area = width * height;
    let plen = pixels.len();
    if area > 0x3fff_ffff_ffff_ffff || area * 4 != pixels.len() as u64 {
        return Err(BitmapError::WrongPixelBufferSize);
    }
    let l = match layout(buffer) {
        Ok(l) => l,
        Err(e) => return Err(e),
    };
    let w = l.width as usize;
    let h = l.height as usize;
    let n = area as usize;
    let d = l.depth;
    let indexed = d <= 16;
    let (pal, codes) = if indexed {
        match collect_palette(pixels, n, l.palette_len) {
            None => return Err(BitmapError::TooManyColours),
            Some(found) => found,
        }
    } else {
        (Vec::new(), Vec::new())
    };
    if h == 0 {
        assert(w * h == 0) by (nonlinear_arith)
            requires h == 0;
        assert(encoded(b0, buffer@, px));
        return Ok(());
    }
    proof {
        assert(l.stride <= l.stride * l.height) by (nonlinear_arith)
            requires l.height >= 1;
        lemma_row_bytes_fit(w as int, d as int);
        if indexed {
            lemma_palette_distinct(px, n as nat);
        }
    }
    let ds = l.data_start as usize;
    let row_stride = l.stride as usize;
    let ghost pal_view = pal@;
    let mut k: usize = 0;
    while k < pal.len()
        invariant
            buffer@.len() == b0.len(),
            b0.len() == len,
            indexed ==> pal@ == new_palette(b0, px),
            indexed ==> pal@.len() <= l.palette_len,
            !indexed ==> pal@.len() == 0,
            l.describes(b0),
            well_formed(b0),
            indexed == indexed_depth(depth_of(b0)),
            0 <= k <= pal@.len(),
            forall|i: int| 0 <= i < 40 ==> buffer@[i] == b0[i],
            forall|i: int|
                0 <= i < b0.len() && !(40 <= i < 40 + 4 * k) ==> buffer@[i] == b0[i],
            forall|kk: int|
                0 <= kk < k ==> {
                    &&& #[trigger] buffer@[40 + 4 * kk] == pal@[kk].2
                    &&& buffer@[40 + 4 * kk + 1] == pal@[kk].1
                    &&& buffer@[40 + 4 * kk + 2] == pal@[kk].0
                    &&& buffer@[40 + 4 * kk + 3] == 0
                },
        decreases pal@.len() - k,
    {
        let e = pal[k];
        let at = 40 + 4 * k;
        let ghost before = buffer@;
        buffer[at] = e.2;
        buffer[at + 1] = e.1;
        buffer[at + 2] = e.0;
        buffer[at + 3] = 0;
        proof {
            assert forall|kk: int| 0 <= kk < k + 1 implies {
                &&& #[trigger] buffer@[40 + 4 * kk] == pal@[kk].2
                &&& buffer@[40 + 4 * kk + 1] == pal@[kk].1
                &&& buffer@[40 + 4 * kk + 2] == pal@[kk].0
                &&& buffer@[40 + 4 * kk + 3] == 0
            } by {
                if kk < k {
                    assert(before[40 + 4 * kk] == pal@[kk].2);
                }
            }
        }
        k = k + 1;
    }
    let ghost rb = row_bytes(w as int, d as int);
    let mut y: usize = 0;
    while y < h
        invariant
            buffer@.len() == b0.len(),
            b0.len() == len,
            px == pixels@,
            px.len() == 4 * n,
            n == w * h,
            w == width_of(b0),
            h == height_of(b0),
            d == depth_of(b0),
            h >= 1,
            w <= 0xffff_ffff,
            ds == l.data_start,
            row_stride == l.stride,
            rb == row_bytes(w as int, d as int),
            0 <= rb <= row_stride,
            ds + row_stride * h <= len,
            indexed ==> pal@ == new_palette(b0, px),
            indexed ==> pal@.len() <= l.palette_len,
            indexed ==> codes@.len() == n,
            indexed ==> forall|p: int|
                0 <= p < codes@.len() ==> #[trigger] codes@[p] == code_of(px, n as nat, p),
            !indexed ==> pal@.len() == 0,
            l.describes(b0),
            well_formed(b0),
            indexed == indexed_depth(depth_of(b0)),
            0 <= y <= h,
            forall|i: int| 0 <= i < 40 ==> buffer@[i] == b0[i],
            forall|kk: int|
                0 <= kk < pal@.len() ==> {
                    &&& #[trigger] buffer@[40 + 4 * kk] == pal@[kk].2
                    &&& buffer@[40 + 4 * kk + 1] == pal@[kk].1
                    &&& buffer@[40 + 4 * kk + 2] == pal@[kk].0
                    &&& buffer@[40 + 4 * kk + 3] == 0
                },
            forall|yy: int, j: int|
                0 <= yy < y && 0 <= j < rb ==> buffer@[row_start(b0, yy) + j]
                    == #[trigger] encoded_byte(b0, px, yy, j),
            forall|i: int|
                0 <= i < len && !(40 <= i < 40 + 4 * pal@.len()) && !in_rows(b0, i, y as int)
                    ==> buffer@[i] == b0[i],
        decreases h - y,
    {
        proof {
            assert(y * w + w <= n) by (nonlinear_arith)
                requires y < h, n == w * h;
        }
        let row = if indexed {
            indexed_row(&codes, w, d, y, Ghost(px))
        } else {
            direct_row(pixels, w, d, y)
        };
        proof {
            assert((h - 1 - y) * row_stride + row_stride <= row_stride * h) by (nonlinear_arith)
                requires y < h;
            assert(0 <= (h - 1 - y) * row_stride) by (nonlinear_arith)
                requires y < h;
        }
        let rs = ds + (h - 1 - y) * row_stride;
        let ghost before = buffer@;
        write_at(buffer, rs, &row);
        proof {
            assert forall|yy: int, j: int|
                0 <= yy < y + 1 && 0 <= j < rb implies buffer@[row_start(b0, yy) + j]
                == #[trigger] encoded_byte(b0, px, yy, j) by {
                if yy < y {
                    lemma_rows_apart(h as int, yy, y as int, row_stride as int);
                    assert((h - 1 - yy) * row_stride + row_stride <= row_stride * h)
                        by (nonlinear_arith)
                        requires 0 <= yy < h;
                    assert(before[row_start(b0, yy) + j] == encoded_byte(b0, px, yy, j));
                } else {
                    assert(buffer@[rs + j] == row@[j]);
                }
            }
            assert forall|i: int|
                0 <= i < len && !(40 <= i < 40 + 4 * pal@.len()) && !in_rows(
                    b0,
                    i,
                    y + 1,
                ) implies buffer@[i] == b0[i] by {
                if rs <= i < rs + rb {
                    assert(rs == row_start(b0, y as int));
                    assert(0 <= y < y + 1 && row_start(b0, y as int) <= i < row_start(b0, y as int)
                        + row_bytes(width_of(b0), depth_of(b0)));
                    assert(in_rows(b0, i, y + 1));
                }
                if in_rows(b0, i, y as int) {
                    let yy = choose|yy: int|
                        0 <= yy < y && #[trigger] row_start(b0, yy) <= i < row_start(b0, yy) + row_bytes(
                            width_of(b0),
                            depth_of(b0),
                        );
                    assert(in_rows(b0, i, y + 1));
                }
                assert(buffer@[i] == before[i]);
            }
            assert forall|kk: int| 0 <= kk < pal@.len() implies {
                &&& #[trigger] buffer@[40 + 4 * kk] == pal@[kk].2
                &&& buffer@[40 + 4 * kk + 1] == pal@[kk].1
                &&& buffer@[40 + 4 * kk + 2] == pal@[kk].0
                &&& buffer@[40 + 4 * kk + 3] == 0
            } by {
                assert(before[40 + 4 * kk] == pal@[kk].2);
            }
        }
        y = y + 1;
    }
    proof {
        assert forall|yy: int| 0 <= yy < height_of(b0) implies #[trigger] buffer@.subrange(
            row_start(b0, yy),
            row_start(b0, yy) + row_bytes(width_of(b0), depth_of(b0)),
        ) == encoded_row(b0, px, yy) by {
            assert((h - 1 - yy) * row_stride + row_stride <= row_stride * h) by (nonlinear_arith)
                requires 0 <= yy < h;
            assert(0 <= (h - 1 - yy) * row_stride) by (nonlinear_arith)
                requires 0 <= yy < h;
            assert(buffer@.subrange(row_start(b0, yy), row_start(b0, yy) + rb) =~= encoded_row(
                b0,
                px,
                yy,
            ));
        }
    }
    Ok(())
}

} // verus!
