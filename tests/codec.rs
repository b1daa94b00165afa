use bitmap_patch::dib::{parse, read};
use bitmap_patch::encode::patch;
use bitmap_patch::error::BitmapError;

fn header(width: u32, height: u32, bpp: u16, palette_size: u32) -> Vec<u8> {
    let mut h = vec![0u8; 40];
    h[0..4].copy_from_slice(&40u32.to_le_bytes());
    h[4..8].copy_from_slice(&width.to_le_bytes());
    h[8..12].copy_from_slice(&height.to_le_bytes());
    h[12..14].copy_from_slice(&1u16.to_le_bytes());
    h[14..16].copy_from_slice(&bpp.to_le_bytes());
    h[32..36].copy_from_slice(&palette_size.to_le_bytes());
    h
}

#[test]
fn parse_reads_header_fields() {
    let b = header(300, 70000, 24, 0);
    assert_eq!(parse(&b), Ok(((300, 70000), 24)));
}

#[test]
fn parse_rejects_short_header() {
    assert_eq!(parse(&[0u8; 39]), Err(BitmapError::HeaderTooShort));
}

#[test]
fn one_bit_palette_maps_indices_exactly() {
    let mut b = header(2, 1, 1, 0);
    b.extend_from_slice(&[0x00, 0x00, 0x00, 0x00]);
    b.extend_from_slice(&[0xff, 0xff, 0xff, 0x00]);
    b.extend_from_slice(&[0b1000_0000, 0, 0, 0]);
    assert_eq!(read(&b), Ok(vec![0xff, 0xff, 0xff, 0xff, 0x00, 0x00, 0x00, 0xff]));
}

#[test]
fn palette_entries_are_read_as_blue_green_red() {
    let mut b = header(1, 1, 8, 2);
    b.extend_from_slice(&[0x01, 0x02, 0x03, 0x04]);
    b.extend_from_slice(&[0x11, 0x22, 0x33, 0x44]);
    b.extend_from_slice(&[1, 0, 0, 0]);
    assert_eq!(read(&b), Ok(vec![0x33, 0x22, 0x11, 0xff]));
}

#[test]
fn direct_24_bit_pixel_is_opaque() {
    let mut b = header(1, 1, 24, 0);
    b.extend_from_slice(&[0x10, 0x20, 0x30, 0x00]);
    assert_eq!(read(&b), Ok(vec![0x30, 0x20, 0x10, 0xff]));
}

#[test]
fn direct_32_bit_pixel_keeps_alpha_and_reencodes_identically() {
    let mut b = header(1, 1, 32, 0);
    b.extend_from_slice(&[0x10, 0x20, 0x30, 0x80]);
    let original = b.clone();
    let pixels = read(&b).unwrap();
    assert_eq!(pixels, vec![0x30, 0x20, 0x10, 0x80]);
    assert_eq!(patch(&mut b, &pixels), Ok(()));
    assert_eq!(b, original);
}

#[test]
fn first_decoded_row_is_last_stored_row() {
    let mut b = header(1, 2, 24, 0);
    b.extend_from_slice(&[1, 2, 3, 0]);
    b.extend_from_slice(&[4, 5, 6, 0]);
    assert_eq!(read(&b), Ok(vec![6, 5, 4, 0xff, 3, 2, 1, 0xff]));
}

#[test]
fn encoding_writes_top_row_last() {
    let mut b = header(1, 2, 24, 0);
    b.extend_from_slice(&[0u8; 8]);
    let pixels = vec![6, 5, 4, 0xff, 3, 2, 1, 0xff];
    assert_eq!(patch(&mut b, &pixels), Ok(()));
    assert_eq!(&b[40..], &[1, 2, 3, 0, 4, 5, 6, 0]);
}

#[test]
fn one_bit_row_of_eight_packs_one_byte_msb_first() {
    let mut b = header(8, 1, 1, 0);
    b.extend_from_slice(&[0u8; 8]);
    b.extend_from_slice(&[0xaa; 4]);
    let w = [0xff, 0xff, 0xff, 0xff];
    let k = [0x00, 0x00, 0x00, 0xff];
    let mut pixels = Vec::new();
    for p in [w, k, w, w, k, k, k, w] {
        pixels.extend_from_slice(&p);
    }
    assert_eq!(patch(&mut b, &pixels), Ok(()));
    // white takes slot 0, black slot 1
    assert_eq!(&b[40..48], &[0xff, 0xff, 0xff, 0x00, 0x00, 0x00, 0x00, 0x00]);
    assert_eq!(b[48], 0b0100_1110);
    assert_eq!(&b[49..52], &[0xaa, 0xaa, 0xaa]);
    assert_eq!(read(&b), Ok(pixels));
}

#[test]
fn sixteen_bit_codes_are_written_low_byte_first() {
    let mut b = header(2, 1, 16, 0);
    b.extend_from_slice(&vec![0u8; 4 * 65536]);
    b.extend_from_slice(&[0u8; 4]);
    let pixels = vec![1, 1, 1, 0xff, 2, 2, 2, 0xff];
    assert_eq!(patch(&mut b, &pixels), Ok(()));
    let data = 40 + 4 * 65536;
    assert_eq!(&b[data..data + 4], &[0, 0, 1, 0]);
}

#[test]
fn too_many_colours_is_refused_and_nothing_written() {
    let mut b = header(3, 1, 1, 0);
    b.extend_from_slice(&[0u8; 12]);
    let before = b.clone();
    let pixels = vec![1, 1, 1, 0xff, 2, 2, 2, 0xff, 3, 3, 3, 0xff];
    assert_eq!(patch(&mut b, &pixels), Err(BitmapError::TooManyColours));
    assert_eq!(b, before);
}

#[test]
fn explicit_palette_size_bounds_colours() {
    let mut b = header(3, 1, 4, 2);
    b.extend_from_slice(&[0u8; 12]);
    let pixels = vec![1, 1, 1, 0xff, 2, 2, 2, 0xff, 3, 3, 3, 0xff];
    assert_eq!(patch(&mut b, &pixels), Err(BitmapError::TooManyColours));
}

#[test]
fn wrong_pixel_buffer_size_is_refused() {
    let mut b = header(2, 2, 24, 0);
    b.extend_from_slice(&[0u8; 16]);
    assert_eq!(patch(&mut b, &[0u8; 12]), Err(BitmapError::WrongPixelBufferSize));
}

#[test]
fn unsupported_depth_is_refused() {
    let mut b = header(1, 1, 12, 0);
    b.extend_from_slice(&[0u8; 4]);
    assert_eq!(read(&b), Err(BitmapError::UnsupportedBitDepth));
}

#[test]
fn truncated_pixel_rows_are_refused() {
    let mut b = header(4, 4, 24, 0);
    b.extend_from_slice(&[0u8; 20]);
    assert_eq!(read(&b), Err(BitmapError::RegionOutOfBounds));
}

#[test]
fn out_of_range_palette_index_is_refused() {
    let mut b = header(1, 1, 8, 2);
    b.extend_from_slice(&[0u8; 8]);
    b.extend_from_slice(&[5, 0, 0, 0]);
    assert_eq!(read(&b), Err(BitmapError::PaletteIndexOutOfRange));
}

#[test]
fn four_bit_round_trip() {
    let mut b = header(3, 2, 4, 0);
    b.extend_from_slice(&[0u8; 64]);
    b.extend_from_slice(&[0u8; 8]);
    let colours = [[9, 8, 7, 0xff], [1, 2, 3, 0xff], [0, 0, 0, 0xff], [50, 60, 70, 0xff], [1, 2, 3, 0xff], [200, 100, 0, 0xff]];
    let mut pixels = Vec::new();
    for c in colours {
        pixels.extend_from_slice(&c);
    }
    assert_eq!(patch(&mut b, &pixels), Ok(()));
    assert_eq!(read(&b), Ok(pixels));
}

#[test]
fn eight_bit_round_trip_with_padding() {
    let mut b = header(3, 3, 8, 0);
    b.extend_from_slice(&vec![0u8; 4 * 256]);
    b.extend_from_slice(&[0u8; 12]);
    let mut pixels = Vec::new();
    for i in 0..9u8 {
        pixels.extend_from_slice(&[i * 20, 255 - i, i % 3, 0xff]);
    }
    assert_eq!(patch(&mut b, &pixels), Ok(()));
    assert_eq!(read(&b), Ok(pixels));
}

#[test]
fn two_bit_round_trip_across_bytes() {
    let mut b = header(5, 2, 2, 0);
    b.extend_from_slice(&[0u8; 16]);
    b.extend_from_slice(&[0u8; 8]);
    let colours = [[10, 0, 0, 0xff], [0, 20, 0, 0xff], [0, 0, 30, 0xff], [40, 40, 40, 0xff]];
    let mut pixels = Vec::new();
    for i in [0, 1, 2, 3, 0, 3, 3, 2, 1, 0] {
        pixels.extend_from_slice(&colours[i]);
    }
    assert_eq!(patch(&mut b, &pixels), Ok(()));
    // bottom stored row holds the second image row: codes 3 3 2 1 0
    assert_eq!(&b[56..58], &[0b1111_1001, 0b0000_0000]);
    assert_eq!(read(&b), Ok(pixels));
}

#[test]
fn pixel_buffer_size_is_checked_before_depth() {
    let mut b = header(2, 2, 0, 0);
    assert_eq!(patch(&mut b, &[0u8; 3]), Err(BitmapError::WrongPixelBufferSize));
    assert_eq!(b, header(2, 2, 0, 0));
}

#[test]
fn unused_palette_slots_keep_their_bytes() {
    let mut b = header(1, 1, 8, 3);
    b.extend_from_slice(&[0x77; 12]);
    b.extend_from_slice(&[0u8; 4]);
    assert_eq!(patch(&mut b, &[5, 6, 7, 0xff]), Ok(()));
    assert_eq!(&b[40..52], &[7, 6, 5, 0, 0x77, 0x77, 0x77, 0x77, 0x77, 0x77, 0x77, 0x77]);
    assert_eq!(&b[52..56], &[0, 0, 0, 0]);
}
