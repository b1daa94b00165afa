//! Properties that relate decoding and encoding.
use vstd::prelude::*;
use crate::dib::{
    bit_field, capacity, data_start, decodable, decoded, decoded_byte, depth_of, height_of, index_at,
    indices_in_range, palette_len, pixel_buffer_len, row_start, stride, supported_depth,
    well_formed, width_of,
};
use crate::encode::{
    code_of, colour_at, encodable, encoded, encoded_row, in_rows, written, lemma_palette_covers,
    lemma_row_bytes_fit,
    new_palette, packed, per_byte, row_bytes, stored_code,
};
use vstd::arithmetic::div_mod::{
    lemma_fundamental_div_mod, lemma_fundamental_div_mod_converse, lemma_mod_pos_bound,
};

verus! {

/// Row order: image row 0, the top one, lives in the last stored row, and
/// the last image row in the first stored row; decoding reads and encoding
/// writes rows there.
pub proof fn lemma_row_order(b: Seq<u8>)
    requires
        well_formed(b),
        height_of(b) > 0,
    ensures
        row_start(b, 0) == data_start(b) + (height_of(b) - 1) * stride(width_of(b), depth_of(b)),
        row_start(b, height_of(b) - 1) == data_start(b),
{
}

/// Every pixel is fully opaque.
pub open spec fn opaque(px: Seq<u8>) -> bool {
    forall|p: int| 0 <= p < px.len() / 4 ==> #[trigger] px[4 * p + 3] == 255
}

proof fn lemma_header_kept(b0: Seq<u8>, b1: Seq<u8>)
    requires
        b0.len() == b1.len(),
        b0.len() >= 40,
        forall|i: int| 0 <= i < 40 ==> b1[i] == b0[i],
    ensures
        width_of(b1) == width_of(b0),
        height_of(b1) == height_of(b0),
        depth_of(b1) == depth_of(b0),
        palette_len(b1) == palette_len(b0),
        data_start(b1) == data_start(b0),
        well_formed(b1) == well_formed(b0),
        pixel_buffer_len(b1) == pixel_buffer_len(b0),
        forall|y: int| #[trigger] row_start(b1, y) == row_start(b0, y),
{
    assert(b1[4] == b0[4] && b1[5] == b0[5] && b1[6] == b0[6] && b1[7] == b0[7]);
    assert(b1[8] == b0[8] && b1[9] == b0[9] && b1[10] == b0[10] && b1[11] == b0[11]);
    assert(b1[14] == b0[14] && b1[15] == b0[15]);
    assert(b1[32] == b0[32] && b1[33] == b0[33] && b1[34] == b0[34] && b1[35] == b0[35]);
}

/// The field that decoding reads back out of a byte packed from four
/// two-bit codes, or two four-bit codes, or eight one-bit codes.
proof fn lemma_unpack(d: int, p: u8, vals: Seq<u8>, t: int)
    requires
        d == 1 || d == 2 || d == 4,
        vals.len() == 8int / d,
        forall|s: int| 0 <= s < vals.len() ==> #[trigger] vals[s] < capacity(d),
        p == fold_codes(vals, d, vals.len() as nat),
        0 <= t < 8int / d,
    ensures
        bit_field(p, d, t * d) == vals[t],
{
    let v0 = vals[0];
    let v1 = vals[1];
    let du = d as u8;
    assert(fold_codes(vals, d, 0) == 0u8);
    assert(fold_codes(vals, d, 1) == ((0u8 << du) | v0) as u8);
    assert(fold_codes(vals, d, 2) == ((fold_codes(vals, d, 1) << du) | v1) as u8);
    if d <= 2 {
        assert(fold_codes(vals, d, 3) == ((fold_codes(vals, d, 2) << du) | vals[2]) as u8);
        assert(fold_codes(vals, d, 4) == ((fold_codes(vals, d, 3) << du) | vals[3]) as u8);
    }
    if d == 1 {
        assert(fold_codes(vals, d, 5) == ((fold_codes(vals, d, 4) << du) | vals[4]) as u8);
        assert(fold_codes(vals, d, 6) == ((fold_codes(vals, d, 5) << du) | vals[5]) as u8);
        assert(fold_codes(vals, d, 7) == ((fold_codes(vals, d, 6) << du) | vals[6]) as u8);
        assert(fold_codes(vals, d, 8) == ((fold_codes(vals, d, 7) << du) | vals[7]) as u8);
    }
    if d == 4 {
        assert(du == 4u8);
        assert(v0 < 16 && v1 < 16);
        assert(fold_codes(vals, d, 1) == ((0u8 << 4u8) | v0) as u8);
        assert(((0u8 << 4u8) | v0) as u8 == v0) by (bit_vector);
        assert(p == ((v0 << 4u8) | v1) as u8);
        assert((((v0 << 4u8) | v1) as u8 >> 4u8) & 15u8 == v0 && (((v0 << 4u8) | v1) as u8
            >> 0u8) & 15u8 == v1) by (bit_vector)
            requires v0 < 16, v1 < 16;
    } else if d == 2 {
        assert(du == 2u8);
        let v2 = vals[2];
        let v3 = vals[3];
        assert(v0 < 4 && v1 < 4 && v2 < 4 && v3 < 4);
        assert(fold_codes(vals, d, 1) == ((0u8 << 2u8) | v0) as u8);
        assert(((0u8 << 2u8) | v0) as u8 == v0) by (bit_vector);
        let q = ((((((v0 << 2u8) | v1) as u8) << 2u8) | v2) as u8) << 2u8 | v3;
        assert(p == q as u8);
        assert({
            let q = (((((((v0 << 2u8) | v1) as u8) << 2u8) | v2) as u8) << 2u8 | v3) as u8;
            &&& (q >> 6u8) & 3u8 == v0
            &&& (q >> 4u8) & 3u8 == v1
            &&& (q >> 2u8) & 3u8 == v2
            &&& (q >> 0u8) & 3u8 == v3
        }) by (bit_vector)
            requires v0 < 4, v1 < 4, v2 < 4, v3 < 4;
    } else {
        assert(du == 1u8);
        let v2 = vals[2];
        let v3 = vals[3];
        let v4 = vals[4];
        let v5 = vals[5];
        let v6 = vals[6];
        let v7 = vals[7];
        assert(v0 < 2 && v1 < 2 && v2 < 2 && v3 < 2 && v4 < 2 && v5 < 2 && v6 < 2 && v7 < 2);
        assert(fold_codes(vals, d, 1) == ((0u8 << 1u8) | v0) as u8);
        assert(((0u8 << 1u8) | v0) as u8 == v0) by (bit_vector);
        let q1 = ((v0 << 1u8) | v1) as u8;
        let q2 = ((q1 << 1u8) | v2) as u8;
        let q3 = ((q2 << 1u8) | v3) as u8;
        let q4 = ((q3 << 1u8) | v4) as u8;
        let q5 = ((q4 << 1u8) | v5) as u8;
        let q6 = ((q5 << 1u8) | v6) as u8;
        let q7 = ((q6 << 1u8) | v7) as u8;
        assert(p == q7);
        assert({
            let q1 = ((v0 << 1u8) | v1) as u8;
            let q2 = ((q1 << 1u8) | v2) as u8;
            let q3 = ((q2 << 1u8) | v3) as u8;
            let q4 = ((q3 << 1u8) | v4) as u8;
            let q5 = ((q4 << 1u8) | v5) as u8;
            let q6 = ((q5 << 1u8) | v6) as u8;
            let q7 = ((q6 << 1u8) | v7) as u8;
            &&& (q7 >> 7u8) & 1u8 == v0
            &&& (q7 >> 6u8) & 1u8 == v1
            &&& (q7 >> 5u8) & 1u8 == v2
            &&& (q7 >> 4u8) & 1u8 == v3
            &&& (q7 >> 3u8) & 1u8 == v4
            &&& (q7 >> 2u8) & 1u8 == v5
            &&& (q7 >> 1u8) & 1u8 == v6
            &&& (q7 >> 0u8) & 1u8 == v7
        }) by (bit_vector)
            requires v0 < 2, v1 < 2, v2 < 2, v3 < 2, v4 < 2, v5 < 2, v6 < 2, v7 < 2;
    }
}

/// The first `t` of `vals` packed into a byte, `d` bits each, most
/// significant first.
pub open spec fn fold_codes(vals: Seq<u8>, d: int, t: nat) -> u8
    decreases t,
{
    if t == 0 {
        0
    } else {
        ((fold_codes(vals, d, (t - 1) as nat) << (d as u8)) | vals[t - 1]) as u8
    }
}

/// The codes packed into byte `j` of row `y`, one per slot.
pub open spec fn slot_codes(px: Seq<u8>, n: nat, d: int, w: int, y: int, j: int) -> Seq<u8> {
    Seq::new(
        per_byte(d) as nat,
        |s: int|
            {
                let x = j * per_byte(d) + s;
                (if x < w {
                    stored_code(px, n, d, y * w + x)
                } else {
                    0
                }) as u8
            },
    )
}

proof fn lemma_packed_is_fold(px: Seq<u8>, n: nat, d: int, w: int, y: int, j: int, t: nat)
    requires
        d == 1 || d == 2 || d == 4,
        t <= per_byte(d),
    ensures
        packed(px, n, d, w, y, j, t) == fold_codes(slot_codes(px, n, d, w, y, j), d, t),
    decreases t,
{
    if t > 0 {
        lemma_packed_is_fold(px, n, d, w, y, j, (t - 1) as nat);
    }
}

/// A sub-byte code reads back as the code that was packed for it.
proof fn lemma_sub_byte_code(b0: Seq<u8>, b1: Seq<u8>, px: Seq<u8>, x: int, y: int)
    requires
        encodable(b0, px),
        encoded(b0, b1, px),
        depth_of(b0) == 1 || depth_of(b0) == 2 || depth_of(b0) == 4,
        new_palette(b0, px).len() <= capacity(depth_of(b0)),
        0 <= x < width_of(b0),
        0 <= y < height_of(b0),
        row_start(b1, y) == row_start(b0, y),
        depth_of(b1) == depth_of(b0),
    ensures
        index_at(b1, x, y) == stored_code(
            px,
            (width_of(b0) * height_of(b0)) as nat,
            depth_of(b0),
            y * width_of(b0) + x,
        ),
{
    let w = width_of(b0);
    let h = height_of(b0);
    let d = depth_of(b0);
    let n = (w * h) as nat;
    let ppb = per_byte(d);
    let j = x / ppb;
    let t = x % ppb;
    let rs = row_start(b0, y);
    if d == 4 {
        lemma_fundamental_div_mod_converse(4 * x, 8, x / 2, 4 * (x % 2));
    } else if d == 2 {
        lemma_fundamental_div_mod_converse(2 * x, 8, x / 4, 2 * (x % 4));
    } else {
        lemma_fundamental_div_mod_converse(x, 8, x / 8, x % 8);
    }
    assert((x * d) / 8 == j && (x * d) % 8 == t * d);
    assert(j < row_bytes(w, d));
    lemma_row_bytes_fit(w, d);
    assert((h - 1 - y) * stride(w, d) + stride(w, d) <= stride(w, d) * h
        && 0 <= (h - 1 - y) * stride(w, d)) by (nonlinear_arith)
        requires 0 <= y < h, 0 <= stride(w, d);
    assert(b1[rs + j] == b1.subrange(rs, rs + row_bytes(w, d))[j]);
    assert(b1[rs + j] == packed(px, n, d, w, y, j, ppb as nat));
    lemma_packed_is_fold(px, n, d, w, y, j, ppb as nat);
    let vals = slot_codes(px, n, d, w, y, j);
    assert(j * ppb + t == x);
    assert forall|s: int| 0 <= s < vals.len() implies #[trigger] vals[s] < capacity(d) by {
        let xx = j * ppb + s;
        if xx < w {
            let c = code_of(px, n, y * w + xx);
            assert(0 <= c % capacity(d) < capacity(d));
        }
    }
    lemma_unpack(d, b1[rs + j], vals, t);
    let c = code_of(px, n, y * w + x);
    assert(0 <= c % capacity(d) < capacity(d));
}

/// One-bit packing: an image eight pixels wide at one bit per pixel is
/// stored one byte per row, the code of the leftmost pixel in the most
/// significant bit; the other three bytes of the four-byte row are padding
/// and keep their values.
pub proof fn lemma_one_bit_row(b0: Seq<u8>, b1: Seq<u8>, px: Seq<u8>, y: int)
    requires
        encodable(b0, px),
        encoded(b0, b1, px),
        depth_of(b0) == 1,
        width_of(b0) == 8,
        0 <= y < height_of(b0),
    ensures
        stride(8, 1) == 4,
        row_bytes(8, 1) == 1,
        forall|c: int|
            0 <= c < 8 ==> #[trigger] bit_field(b1[row_start(b0, y)], 1, c) == stored_code(
                px,
                (8 * height_of(b0)) as nat,
                1,
                y * 8 + c,
            ),
        forall|k: int|
            1 <= k < 4 ==> #[trigger] b1[row_start(b0, y) + k] == b0[row_start(b0, y) + k],
{
    let h = height_of(b0);
    let n = (8 * h) as nat;
    let rs = row_start(b0, y);
    assert(stride(8, 1) == 4);
    assert(row_bytes(8, 1) == 1);
    assert(b1.subrange(rs, rs + 1) == encoded_row(b0, px, y));
    assert(b1[rs] == b1.subrange(rs, rs + 1)[0]);
    assert(b1[rs] == packed(px, n, 1, 8, y, 0, 8));
    lemma_packed_is_fold(px, n, 1, 8, y, 0, 8);
    let vals = slot_codes(px, n, 1, 8, y, 0);
    assert forall|s: int| 0 <= s < vals.len() implies #[trigger] vals[s] < capacity(1) by {
        let c = code_of(px, n, y * 8 + s);
        assert(0 <= c % 2 < 2);
    }
    assert forall|c: int| 0 <= c < 8 implies #[trigger] bit_field(b1[rs], 1, c) == stored_code(
        px,
        n,
        1,
        y * 8 + c,
    ) by {
        lemma_unpack(1, b1[rs], vals, c);
        let code = code_of(px, n, y * 8 + c);
        assert(0 <= code % 2 < 2);
    }
    assert forall|k: int| 1 <= k < 4 implies #[trigger] b1[rs + k] == b0[rs + k] by {
        let i = rs + k;
        assert(0 <= (h - 1 - y) * 4 && (h - 1 - y) * 4 + 4 <= 4 * h);
        if in_rows(b0, i, h) {
            let yy = choose|yy: int|
                0 <= yy < h && #[trigger] row_start(b0, yy) <= i < row_start(b0, yy) + row_bytes(
                    width_of(b0),
                    depth_of(b0),
                );
            assert(row_start(b0, yy) == i);
        }
        assert(!written(b0, px, i));
    }
}

/// Round trip: decoding what `patch` wrote gives back the pixel buffer.
/// It needs opaque pixels below 32 bits (the stored format has no alpha
/// there), at most `2^depth` colours, and a depth other than 16,
/// whose codes are written least significant byte first and read most
/// significant byte first.
pub proof fn lemma_round_trip(b0: Seq<u8>, b1: Seq<u8>, px: Seq<u8>)
    requires
        encodable(b0, px),
        encoded(b0, b1, px),
        px.len() <= usize::MAX,
        supported_depth(depth_of(b0)),
        depth_of(b0) != 16,
        depth_of(b0) <= 16 ==> new_palette(b0, px).len() <= capacity(depth_of(b0)),
        depth_of(b0) != 32 ==> opaque(px),
    ensures
        decodable(b1),
        decoded(b1) == px,
{
    lemma_header_kept(b0, b1);
    let w = width_of(b0);
    let h = height_of(b0);
    let d = depth_of(b0);
    let n = (w * h) as nat;
    let pal = new_palette(b0, px);
    assert forall|i: int| 0 <= i < px.len() implies decoded_byte(b1, i) == px[i] && (d <= 16
        ==> index_at(b1, (i / 4) % w, (i / 4) / w) < palette_len(b1)) by {
        let p = i / 4;
        let c = i % 4;
        let x = p % w;
        let y = p / w;
        assert(w > 0 && h > 0) by (nonlinear_arith)
            requires 0 <= i < px.len(), px.len() == w * h * 4, w >= 0, h >= 0;
        lemma_fundamental_div_mod_converse(i, 4, p, c);
        lemma_mod_pos_bound(p, w);
        lemma_fundamental_div_mod(p, w);
        assert(p < w * h);
        assert(y < h) by (nonlinear_arith)
            requires p == w * y + x, p < w * h, 0 <= x, w > 0;
        assert(0 <= y) by (nonlinear_arith)
            requires p == w * y + x, 0 <= p, x < w, w > 0;
        lemma_row_bytes_fit(w, d);
        assert((h - 1 - y) * stride(w, d) + stride(w, d) <= stride(w, d) * h
            && 0 <= (h - 1 - y) * stride(w, d)) by (nonlinear_arith)
            requires 0 <= y < h, 0 <= stride(w, d);
        let rs = row_start(b0, y);
        assert(b1.subrange(rs, rs + row_bytes(w, d)) == encoded_row(b0, px, y));
        if d <= 8 {
            lemma_palette_covers(px, n, p);
            let k = code_of(px, n, p);
            assert(0 <= k < pal.len() && pal[k] == colour_at(px, p));
            if d == 8 {
                assert(row_bytes(w, d) == w) by (nonlinear_arith)
                    requires d == 8;
                assert(b1[rs + x] == b1.subrange(rs, rs + row_bytes(w, d))[x]);
            } else {
                lemma_sub_byte_code(b0, b1, px, x, y);
            }
            assert(index_at(b1, x, y) == k);
            assert(b1[40 + 4 * k] == pal[k].2);
            assert(px[4 * p + 3] == 255);
            assert(k < palette_len(b1));
            assert(index_at(b1, (i / 4) % w, (i / 4) / w) < palette_len(b1));
            assert(decoded_byte(b1, i) == px[i]);
        } else {
            let o = d / 8;
            assert(row_bytes(w, d) == w * o && x * o + o <= w * o) by (nonlinear_arith)
                requires d == 24 || d == 32, o == d / 8, x < w;
            assert(b1[rs + x * o] == b1.subrange(rs, rs + row_bytes(w, d))[x * o]);
            assert(b1[rs + x * o + 1] == b1.subrange(rs, rs + row_bytes(w, d))[x * o + 1]);
            assert(b1[rs + x * o + 2] == b1.subrange(rs, rs + row_bytes(w, d))[x * o + 2]);
            lemma_fundamental_div_mod_converse(x * o, o, x, 0);
            lemma_fundamental_div_mod_converse(x * o + 1, o, x, 1);
            lemma_fundamental_div_mod_converse(x * o + 2, o, x, 2);
            if d == 32 {
                assert(b1[rs + x * o + 3] == b1.subrange(rs, rs + row_bytes(w, d))[x * o + 3]);
                lemma_fundamental_div_mod_converse(x * o + 3, o, x, 3);
            } else {
                assert(px[4 * p + 3] == 255);
            }
        }
    }
    assert(indices_in_range(b1)) by {
        if d <= 16 {
            assert forall|x: int, y: int| 0 <= x < w && 0 <= y < h implies #[trigger] index_at(b1, x, y)
                < palette_len(b1) by {
                let p = y * w + x;
                assert(0 <= y * w + x < w * h) by (nonlinear_arith)
                    requires 0 <= x < w, 0 <= y < h;
                assert(4 * (y * w + x) < px.len());
                assert(decoded_byte(b1, 4 * p) == px[4 * p]);
                lemma_fundamental_div_mod_converse(p, w, y, x);
                lemma_fundamental_div_mod_converse(4 * p, 4, p, 0);
                assert(0 <= 4 * p < px.len());
            }
        }
    }
    assert(decoded(b1) =~= px);
}

} // verus!
