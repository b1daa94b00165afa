use bitmap_patch::error::BitmapError;
use bitmap_patch::exe::{Exe, ImageInfo};
use bitmap_patch::locate::file_offset;

fn put16(b: &mut [u8], at: usize, v: u16) {
    b[at..at + 2].copy_from_slice(&v.to_le_bytes());
}

fn put32(b: &mut [u8], at: usize, v: u32) {
    b[at..at + 4].copy_from_slice(&v.to_le_bytes());
}

fn section(b: &mut [u8], at: usize, name: &[u8], va: u32, size: u32, file_at: u32) {
    b[at..at + name.len()].copy_from_slice(name);
    put32(b, at + 8, size);
    put32(b, at + 12, va);
    put32(b, at + 16, size);
    put32(b, at + 20, file_at);
}

fn table(b: &mut [u8], at: usize, name_or_id: u32, target: u32) {
    put16(b, at + 14, 1);
    put32(b, at + 16, name_or_id);
    put32(b, at + 20, target);
}

/// A 32-bit PE image with a code section at file offset 0x200 and a resource
/// section loaded at 0x2000 and stored at 0x300, holding one 1x1 24-bit
/// bitmap with id 7 at relative virtual address 0x2080.
fn image(bitmap_name: u32) -> Vec<u8> {
    let mut b = vec![0u8; 0x400];
    b[0] = b'M';
    b[1] = b'Z';
    put32(&mut b, 0x3c, 0x40);
    b[0x40..0x44].copy_from_slice(b"PE\0\0");
    put16(&mut b, 0x44, 0x14c);
    put16(&mut b, 0x46, 2);
    put16(&mut b, 0x54, 96);
    put16(&mut b, 0x58, 0x10b);
    section(&mut b, 0xb8, b".text", 0x1000, 0x10, 0x200);
    section(&mut b, 0xe0, b".rsrc", 0x2000, 0x100, 0x300);
    let r = 0x300;
    table(&mut b, r, 2, 0x8000_0018);
    table(&mut b, r + 0x18, bitmap_name, 0x8000_0030);
    table(&mut b, r + 0x30, 0x409, 0x48);
    put32(&mut b, r + 0x48, 0x2080);
    put32(&mut b, r + 0x4c, 44);
    let bmp = r + 0x80;
    put32(&mut b, bmp, 40);
    put32(&mut b, bmp + 4, 1);
    put32(&mut b, bmp + 8, 1);
    put16(&mut b, bmp + 12, 1);
    put16(&mut b, bmp + 14, 24);
    b[bmp + 40..bmp + 43].copy_from_slice(&[0x10, 0x20, 0x30]);
    b
}

#[test]
fn file_offset_is_rva_minus_section_va_plus_section_offset() {
    assert_eq!(file_offset(0x2080, 0x2000, 0x300), Some(0x380));
    assert_eq!(file_offset(0x1fff, 0x2000, 0x300), None);
}

#[test]
fn synthetic_image_locates_its_bitmap() {
    let exe = Exe::parse(&image(7)).unwrap();
    assert_eq!(exe.images_info, vec![ImageInfo { id: 7, width: 1, height: 1, bpp: 24 }]);
    assert_eq!(exe.read_image(7), Ok(vec![0x30, 0x20, 0x10, 0xff]));
}

#[test]
fn patching_writes_at_the_computed_file_offset() {
    let mut exe = Exe::parse(&image(7)).unwrap();
    assert_eq!(exe.patch_image(7, &[1, 2, 3, 0xff]), Ok(()));
    let bytes = exe.finish();
    let mut expected = image(7);
    expected[0x380 + 40..0x380 + 43].copy_from_slice(&[3, 2, 1]);
    assert_eq!(bytes, expected);
}

#[test]
fn unknown_id_is_refused() {
    let mut exe = Exe::parse(&image(7)).unwrap();
    assert_eq!(exe.read_image(8), Err(BitmapError::UnknownResourceId));
    assert_eq!(exe.patch_image(8, &[0, 0, 0, 0]), Err(BitmapError::UnknownResourceId));
}

#[test]
fn named_bitmap_is_refused() {
    assert_eq!(Exe::parse(&image(0x8000_0100)).err(), Some(BitmapError::NonIdResourceName));
}

#[test]
fn missing_bitmap_type_is_refused() {
    let mut b = image(7);
    put32(&mut b, 0x300 + 16, 3);
    assert_eq!(Exe::parse(&b).err(), Some(BitmapError::MissingResourceType));
}

#[test]
fn language_entry_pointing_to_a_table_is_refused() {
    let mut b = image(7);
    put32(&mut b, 0x330 + 20, 0x8000_0048);
    assert_eq!(Exe::parse(&b).err(), Some(BitmapError::MalformedResourceEntry));
}

#[test]
fn data_entry_below_the_section_is_refused() {
    let mut b = image(7);
    put32(&mut b, 0x348, 0x1000);
    assert_eq!(Exe::parse(&b).err(), Some(BitmapError::MalformedResourceEntry));
}

#[test]
fn short_bitmap_header_is_refused() {
    let mut b = image(7);
    put32(&mut b, 0x34c, 20);
    assert_eq!(Exe::parse(&b).err(), Some(BitmapError::HeaderTooShort));
}

#[test]
fn not_an_executable_is_refused() {
    assert_eq!(Exe::parse(&[0u8; 64]).err(), Some(BitmapError::MissingSection));
}

#[test]
fn colour_literals_are_replaced_after_safe_prefixes_only() {
    let mut b = image(7);
    b[0x200..0x20a].copy_from_slice(&[0x68, 0x11, 0x22, 0x33, 0x00, 0x90, 0x11, 0x22, 0x33, 0x00]);
    let mut exe = Exe::parse(&b).unwrap();
    assert_eq!(exe.patch_colours(&vec![(0x112233, 0xaabbcc)]), Ok(vec![0x90]));
    let out = exe.finish();
    assert_eq!(&out[0x200..0x20a], &[0x68, 0xaa, 0xbb, 0xcc, 0x00, 0x90, 0x11, 0x22, 0x33, 0x00]);
}
