//! An executable image held in memory, with the bitmaps found in its
//! resource directory, read and rewritten in place by id.
use vstd::prelude::*;
use vstd::slice::{slice_subrange, slice_to_vec};
use crate::dib::{decodable, decoded, read_error, depth_of, height_of, parse, read, width_of};
use crate::encode::{encodable, encoded, patch, patch_error, write_at};
use crate::error::BitmapError;
use crate::locate::{
    collect_locations, find_entry, id_of, find_location, first_failure, location_of, first_with_id, ids_unique, located_by, points_to_table,
    RT_BITMAP,
};
use crate::pe::{entry_is_table, pe_section, root_table, root_table_of, section_of, sub_table, sub_table_of, RawEntry};

verus! {

/// The header fields of one bitmap resource.
#[derive(Clone, Copy, Debug, PartialEq, Eq, Structural)]
pub struct ImageInfo {
    pub id: u16,
    pub width: u32,
    pub height: u32,
    pub bpp: u16,
}

/// The name of the code section, `.text`.
pub open spec fn text_name() -> Seq<u8> {
    seq![0x2e, 0x74, 0x65, 0x78, 0x74]
}

/// The name of the resource section, `.rsrc`.
pub open spec fn rsrc_name() -> Seq<u8> {
    seq![0x2e, 0x72, 0x73, 0x72, 0x63]
}

/// The bytes of the resource section of `image`, if it has one that lies
/// within the image.
pub open spec fn rsrc_dir(image: Seq<u8>) -> Option<Seq<u8>> {
    match section_of(image, rsrc_name()) {
        Some(s) => if s.0 + s.1 <= image.len() {
            Some(image.subrange(s.0 as int, s.0 + s.1))
        } else {
            None
        },
        None => None,
    }
}

/// The name-level entries under the first bitmap-type entry of the resource
/// directory `dir`, if they can be read.
pub open spec fn bitmap_entries(dir: Seq<u8>) -> Option<Seq<RawEntry>> {
    match root_table_of(dir) {
        Some(root) => if exists|k: int| first_with_id(root, RT_BITMAP, k) {
            let k = choose|k: int| first_with_id(root, RT_BITMAP, k);
            if points_to_table(root[k]) {
                sub_table_of(dir, root[k].1)
            } else {
                None
            }
        } else {
            None
        },
        None => None,
    }
}

/// A 32-bit PE image and the bitmap resources found in it.
pub struct Exe {
    buffer: Vec<u8>,
    text: (u64, u64),
    images: Vec<(u16, u64, u64)>,
    pub images_info: Vec<ImageInfo>,
}

impl Exe {
    /// The image's bytes.
    pub closed spec fn bytes(&self) -> Seq<u8> {
        self.buffer@
    }

    /// The file offset and length of the code section.
    pub closed spec fn code_range(&self) -> (u64, u64) {
        self.text
    }

    /// Each bitmap's id, file offset and length.
    pub closed spec fn locations(&self) -> Seq<(u16, u64, u64)> {
        self.images@
    }

    /// The header fields recorded for each bitmap.
    pub closed spec fn info(&self) -> Seq<ImageInfo> {
        self.images_info@
    }

    /// The bytes of the bitmap at `loc`.
    pub open spec fn region(&self, loc: (u16, u64, u64)) -> Seq<u8> {
        self.bytes().subrange(loc.1 as int, loc.1 + loc.2)
    }

    /// Ids are unique, every bitmap lies within the image, and `images_info`
    /// has one entry for each bitmap, in the same order.
    pub closed spec fn wf(&self) -> bool {
        &&& ids_unique(self.locations())
        &&& self.images_info@.len() == self.locations().len()
        &&& forall|i: int|
            0 <= i < self.locations().len() ==> {
                let loc = #[trigger] self.locations()[i];
                &&& loc.1 + loc.2 <= self.bytes().len()
                &&& self.images_info@[i].id == loc.0
            }
    }

    /// The location of the bitmap with id `id`, if there is one.
    pub open spec fn location(&self, id: u16) -> Option<(u16, u64, u64)> {
        if exists|i: int| 0 <= i < self.locations().len() && (#[trigger] self.locations()[i]).0 == id {
            Some(
                self.locations()[choose|i: int|
                    0 <= i < self.locations().len() && (#[trigger] self.locations()[i]).0 == id],
            )
        } else {
            None
        }
    }
}

/// The four bytes that stand for the 24-bit colour `c` as an immediate
/// operand: `c << 8` stored most significant byte first.
pub open spec fn colour_literal(c: u32) -> Seq<u8> {
    seq![((c / 65536) % 256) as u8, ((c / 256) % 256) as u8, (c % 256) as u8, 0u8]
}

/// Bytes that open an instruction whose 32-bit immediate may be a colour:
/// `PUSH imm32` and `MOV ecx, imm32`.
pub open spec fn safe_prefix(b: u8) -> bool {
    b == 0x68 || b == 0xb9
}

/// The first entry of `dict`, from `k` on, whose search colour stands as
/// `window`.
pub open spec fn first_search(dict: Seq<(u32, u32)>, window: Seq<u8>, k: nat) -> Option<int>
    decreases dict.len() - k,
{
    if k >= dict.len() {
        None
    } else if colour_literal(dict[k as int].0) =~= window {
        Some(k as int)
    } else {
        first_search(dict, window, k + 1)
    }
}

/// The code bytes and the warnings after the matches at the first `n`
/// positions of `orig` have been handled. Matches are found in the unpatched
/// bytes; each is replaced only when the byte before it, as it stands by
/// then, is a safe prefix, and is otherwise reported by that byte. A match at
/// the very start has no prefix byte and is left alone.
pub open spec fn colours_patched(orig: Seq<u8>, dict: Seq<(u32, u32)>, n: nat) -> (Seq<u8>, Seq<u8>)
    decreases n,
{
    if n == 0 {
        (orig, seq![])
    } else {
        let (cur, warn) = colours_patched(orig, dict, (n - 1) as nat);
        let i = n - 1;
        match first_search(dict, orig.subrange(i, i + 4), 0) {
            None => (cur, warn),
            Some(k) => if i == 0 {
                (cur, warn)
            } else if safe_prefix(cur[i - 1]) {
                (cur.subrange(0, i) + colour_literal(dict[k].1) + cur.subrange(i + 4, cur.len() as int), warn)
            } else {
                (cur, warn.push(cur[i - 1]))
            },
        }
    }
}

/// Number of four-byte windows in `n` bytes.
pub open spec fn windows(n: int) -> nat {
    if n >= 4 {
        (n - 3) as nat
    } else {
        0
    }
}

fn colour_bytes(c: u32) -> (r: [u8; 4])
    ensures
        r@ == colour_literal(c),
{
    let r = [((c / 65536) % 256) as u8, ((c / 256) % 256) as u8, (c % 256) as u8, 0u8];
    assert(r@ =~= colour_literal(c));
    r
}

fn find_search(dict: &Vec<(u32, u32)>, code: &Vec<u8>, i: usize) -> (r: Option<usize>)
    requires
        i + 4 <= code@.len(),
    ensures
        match r {
            Some(k) => k < dict@.len() && first_search(dict@, code@.subrange(i as int, i + 4), 0)
                == Some(k as int),
            None => first_search(dict@, code@.subrange(i as int, i + 4), 0) is None,
        },
{
    let ghost window = code@.subrange(i as int, i + 4);
    let len = code.len();
    let mut k: usize = 0;
    while k < dict.len()
        invariant
            0 <= k <= dict@.len(),
            code@.len() == len,
            window == code@.subrange(i as int, i + 4),
            i + 4 <= code@.len(),
            first_search(dict@, window, 0) == first_search(dict@, window, k as nat),
        decreases dict@.len() - k,
    {
        let lit = colour_bytes(dict[k].0);
        if lit[0] == code[i] && lit[1] == code[i + 1] && lit[2] == code[i + 2] && lit[3] == code[i + 3] {
            assert(colour_literal(dict@[k as int].0) =~= window);
            return Some(k);
        }
        assert(!(colour_literal(dict@[k as int].0) =~= window)) by {
            if colour_literal(dict@[k as int].0) =~= window {
                assert(lit@[0] == window[0] && lit@[1] == window[1]);
            }
        }
        k = k + 1;
    }
    None
}

/// The section named `name` lies within `image`.
pub open spec fn section_in_image(image: Seq<u8>, name: Seq<u8>) -> bool {
    match section_of(image, name) {
        Some(s) => s.0 + s.1 <= image.len(),
        None => false,
    }
}

/// Where the `i`-th name-level bitmap entry leads, in `data`'s resource
/// section.
pub open spec fn kid_location(data: Seq<u8>, kids: Seq<RawEntry>, i: int) -> Result<
    (u16, u64, u64),
    BitmapError,
> {
    location_of(
        rsrc_dir(data)->Some_0,
        kids[i],
        section_of(data, rsrc_name())->Some_0.2,
        section_of(data, rsrc_name())->Some_0.0,
    )
}

/// The error for a bitmap located at `t`: its bytes must lie within `data`
/// and hold at least the 40-byte header.
pub open spec fn region_error(data: Seq<u8>, t: (u16, u64, u64)) -> Option<BitmapError> {
    if t.1 + t.2 > data.len() {
        Some(BitmapError::MalformedResourceEntry)
    } else if t.2 < 40 {
        Some(BitmapError::HeaderTooShort)
    } else {
        None
    }
}

/// `data` is an image that `Exe::parse` accepts: both sections lie within
/// it, the bitmap entries can be read, and every one of them leads to a
/// bitmap that lies within the image and holds a header.
pub open spec fn parses(data: Seq<u8>) -> bool {
    &&& section_in_image(data, text_name())
    &&& rsrc_dir(data) is Some
    &&& bitmap_entries(rsrc_dir(data)->Some_0) is Some
    &&& forall|i: int|
        0 <= i < bitmap_entries(rsrc_dir(data)->Some_0)->Some_0.len() ==> match #[trigger] kid_location(
            data,
            bitmap_entries(rsrc_dir(data)->Some_0)->Some_0,
            i,
        ) {
            Ok(t) => region_error(data, t) is None,
            Err(_) => false,
        }
}

/// The error `Exe::parse` reports on `data`.
pub open spec fn parse_error(data: Seq<u8>, e: BitmapError) -> bool {
    if !section_in_image(data, text_name()) || rsrc_dir(data) is None {
        e == BitmapError::MissingSection
    } else if root_table_of(rsrc_dir(data)->Some_0) is None {
        e == BitmapError::MalformedResourceEntry
    } else if !exists|k: int|
        first_with_id(root_table_of(rsrc_dir(data)->Some_0)->Some_0, RT_BITMAP, k) {
        e == BitmapError::MissingResourceType
    } else if bitmap_entries(rsrc_dir(data)->Some_0) is None {
        e == BitmapError::MalformedResourceEntry
    } else {
        let kids = bitmap_entries(rsrc_dir(data)->Some_0)->Some_0;
        ||| first_failure(
            rsrc_dir(data)->Some_0,
            kids,
            section_of(data, rsrc_name())->Some_0.2,
            section_of(data, rsrc_name())->Some_0.0,
            e,
        )
        ||| (forall|i: int| 0 <= i < kids.len() ==> (#[trigger] kid_location(data, kids, i)) is Ok)
            && exists|i: int|
            0 <= i < kids.len() && match #[trigger] kid_location(data, kids, i) {
                Ok(t) => region_error(data, t) == Some(e),
                Err(_) => false,
            }
    }
}

/// What `Exe::parse` found in `data`: the code section's range, every bitmap
/// located below the bitmap-type entry, and the header of each.
pub open spec fn parsed_from(exe: Exe, data: Seq<u8>) -> bool {
    &&& exe.wf()
    &&& exe.bytes() == data
    &&& section_in_image(data, text_name())
    &&& exe.code_range() == (
        section_of(data, text_name())->Some_0.0,
        section_of(data, text_name())->Some_0.1,
    )
    &&& rsrc_dir(data) is Some
    &&& bitmap_entries(rsrc_dir(data)->Some_0) is Some
    &&& forall|i: int|
        0 <= i < bitmap_entries(rsrc_dir(data)->Some_0)->Some_0.len() ==> (#[trigger] location_of(
            rsrc_dir(data)->Some_0,
            bitmap_entries(rsrc_dir(data)->Some_0)->Some_0[i],
            section_of(data, rsrc_name())->Some_0.2,
            section_of(data, rsrc_name())->Some_0.0,
        )) is Ok
    &&& forall|i: int|
        0 <= i < exe.locations().len() ==> located_by(
            rsrc_dir(data)->Some_0,
            bitmap_entries(rsrc_dir(data)->Some_0)->Some_0,
            section_of(data, rsrc_name())->Some_0.2,
            section_of(data, rsrc_name())->Some_0.0,
            #[trigger] exe.locations()[i],
        )
    &&& forall|i: int|
        0 <= i < exe.locations().len() ==> {
            let region = exe.region(#[trigger] exe.locations()[i]);
            &&& region.len() >= 40
            &&& exe.info()[i].width == width_of(region)
            &&& exe.info()[i].height == height_of(region)
            &&& exe.info()[i].bpp == depth_of(region)
        }
}

/// The header of each located bitmap, after checking that it lies within
/// `data` and holds a header.
fn collect_infos(data: &[u8], images: &Vec<(u16, u64, u64)>) -> (r: Result<Vec<ImageInfo>, BitmapError>)
    ensures
        (forall|m: int| 0 <= m < images@.len() ==> region_error(data@, #[trigger] images@[m]) is None)
            ==> r is Ok,
        r matches Err(e) ==> exists|m: int|
            0 <= m < images@.len() && region_error(data@, #[trigger] images@[m]) == Some(e),
        r matches Ok(v) ==> v@.len() == images@.len() && forall|m: int|
            0 <= m < images@.len() ==> {
                let loc = #[trigger] images@[m];
                let region = data@.subrange(loc.1 as int, loc.1 + loc.2);
                &&& loc.1 + loc.2 <= data@.len()
                &&& v@[m].id == loc.0
                &&& region.len() >= 40
                &&& v@[m].width == width_of(region)
                &&& v@[m].height == height_of(region)
                &&& v@[m].bpp == depth_of(region)
            },
{
    let len = data.len();
    let mut images_info: Vec<ImageInfo> = Vec::new();
    let mut i: usize = 0;
    while i < images.len()
        invariant
            0 <= i <= images@.len(),
            len == data@.len(),
            images_info@.len() == i,
            forall|m: int|
                0 <= m < i ==> {
                    let loc = #[trigger] images@[m];
                    let region = data@.subrange(loc.1 as int, loc.1 + loc.2);
                    &&& loc.1 + loc.2 <= data@.len()
                    &&& images_info@[m].id == loc.0
                    &&& region.len() >= 40
                    &&& images_info@[m].width == width_of(region)
                    &&& images_info@[m].height == height_of(region)
                    &&& images_info@[m].bpp == depth_of(region)
                },
        decreases images@.len() - i,
    {
        let (id, offset, length) = images[i];
        if offset > len as u64 || length > len as u64 - offset {
            assert(region_error(data@, images@[i as int]) == Some(
                BitmapError::MalformedResourceEntry,
            ));
            return Err(BitmapError::MalformedResourceEntry);
        }
        let region = slice_subrange(data, offset as usize, (offset + length) as usize);
        let ((width, height), bpp) = match parse(region) {
            Err(e) => {
                assert(region_error(data@, images@[i as int]) == Some(e));
                return Err(e);
            },
            Ok(header) => header,
        };
        images_info.push(ImageInfo { id, width, height, bpp });
        i = i + 1;
    }
    Ok(images_info)
}

impl Exe {
    proof fn lemma_location(&self, j: int)
        requires
            self.wf(),
            0 <= j < self.locations().len(),
        ensures
            self.location(self.locations()[j].0) == Some(self.locations()[j]),
    {
        let id = self.locations()[j].0;
        assert(0 <= j < self.locations().len() && (#[trigger] self.locations()[j]).0 == id);
        let i = choose|i: int| 0 <= i < self.locations().len() && (#[trigger] self.locations()[i]).0 == id;
        if i != j {
            if i < j {
                assert(self.locations()[i].0 != self.locations()[j].0);
            } else {
                assert(self.locations()[j].0 != self.locations()[i].0);
            }
        }
    }

    /// Reads a 32-bit PE image: its code section, and every bitmap resource
    /// with its header. Bitmaps are not assumed localised: of each, the first
    /// language entry is used.
    #[verifier::loop_isolation(false)]
    pub fn parse(data: &[u8]) -> (r: Result<Exe, BitmapError>)
        ensures
            parses(data@) ==> r is Ok,
            match r {
                Ok(exe) => parsed_from(exe, data@),
                Err(e) => parse_error(data@, e),
            },
    {
        let len = data.len();
        let text_label: Vec<u8> = vec![0x2e, 0x74, 0x65, 0x78, 0x74];
        let rsrc_label: Vec<u8> = vec![0x2e, 0x72, 0x73, 0x72, 0x63];
        assert(text_label@ =~= text_name());
        assert(rsrc_label@ =~= rsrc_name());
        let text = match pe_section(data, text_label.as_slice()) {
            None => return Err(BitmapError::MissingSection),
            Some(t) => t,
        };
        let rsrc = match pe_section(data, rsrc_label.as_slice()) {
            None => return Err(BitmapError::MissingSection),
            Some(s) => s,
        };
        if rsrc.0 > len as u64 || rsrc.1 > len as u64 - rsrc.0 {
            return Err(BitmapError::MissingSection);
        }
        if text.0 > len as u64 || text.1 > len as u64 - text.0 {
            return Err(BitmapError::MissingSection);
        }
        let dir = slice_subrange(data, rsrc.0 as usize, (rsrc.0 + rsrc.1) as usize);
        let root = match root_table(dir) {
            None => return Err(BitmapError::MalformedResourceEntry),
            Some(root) => root,
        };
        let k = match find_entry(&root, RT_BITMAP) {
            None => return Err(BitmapError::MissingResourceType),
            Some(k) => k,
        };
        proof {
            let kk = choose|kk: int| first_with_id(root@, RT_BITMAP, kk);
            if kk < k {
                assert(id_of(root@[kk]) != Some(RT_BITMAP));
            } else if kk > k {
                assert(id_of(root@[k as int]) != Some(RT_BITMAP));
            }
            assert(kk == k);
            assert(rsrc_dir(data@) == Some(dir@));
            assert(root_table_of(dir@) == Some(root@));
        }
        if !entry_is_table(root[k].1) {
            return Err(BitmapError::MalformedResourceEntry);
        }
        let kids = match sub_table(dir, root[k].1) {
            None => return Err(BitmapError::MalformedResourceEntry),
            Some(kids) => kids,
        };
        assert(bitmap_entries(dir@) == Some(kids@));
        let images = match collect_locations(dir, &kids, rsrc.2, rsrc.0) {
            Err(e) => {
                proof {
                    let i = choose|i: int|
                        0 <= i < kids@.len() && #[trigger] location_of(dir@, kids@[i], rsrc.2, rsrc.0)
                            == Err::<(u16, u64, u64), BitmapError>(e) && forall|m: int|
                            0 <= m < i ==> (#[trigger] location_of(dir@, kids@[m], rsrc.2, rsrc.0)) is Ok;
                    assert(kid_location(data@, kids@, i) == Err::<(u16, u64, u64), BitmapError>(e));
                }
                return Err(e);
            },
            Ok(images) => images,
        };
        let images_info = match collect_infos(data, &images) {
            Err(e) => {
                proof {
                    let m = choose|m: int|
                        0 <= m < images@.len() && region_error(data@, #[trigger] images@[m])
                            == Some(e);
                    assert(located_by(dir@, kids@, rsrc.2, rsrc.0, images@[m]));
                    let w = choose|w: int|
                        0 <= w < kids@.len() && #[trigger] location_of(dir@, kids@[w], rsrc.2, rsrc.0)
                            == Ok::<(u16, u64, u64), BitmapError>(images@[m]);
                    assert(kid_location(data@, kids@, w) == Ok::<(u16, u64, u64), BitmapError>(
                        images@[m],
                    ));
                    assert(forall|i: int|
                        0 <= i < kids@.len() ==> (#[trigger] kid_location(data@, kids@, i)) is Ok);
                }
                return Err(e);
            },
            Ok(infos) => infos,
        };
        proof {
            if parses(data@) {
                assert forall|m: int| 0 <= m < images@.len() implies region_error(
                    data@,
                    #[trigger] images@[m],
                ) is None by {
                    assert(located_by(dir@, kids@, rsrc.2, rsrc.0, images@[m]));
                    let w = choose|w: int|
                        0 <= w < kids@.len() && #[trigger] location_of(dir@, kids@[w], rsrc.2, rsrc.0)
                            == Ok::<(u16, u64, u64), BitmapError>(images@[m]);
                    assert(kid_location(data@, kids@, w) == Ok::<(u16, u64, u64), BitmapError>(
                        images@[m],
                    ));
                }
            }
        }
        let exe = Exe { buffer: slice_to_vec(data), text: (text.0, text.1), images, images_info };
        proof {
            assert(exe.locations() == images@);
            assert(exe.info() == images_info@);
            assert forall|m: int| 0 <= m < exe.locations().len() implies {
                let region = exe.region(#[trigger] exe.locations()[m]);
                &&& region.len() >= 40
                &&& exe.info()[m].width == width_of(region)
                &&& exe.info()[m].height == height_of(region)
                &&& exe.info()[m].bpp == depth_of(region)
            } by {
                assert(images@[m] == exe.locations()[m]);
            }
            assert forall|m: int| 0 <= m < exe.locations().len() implies {
                let loc = #[trigger] exe.locations()[m];
                &&& loc.1 + loc.2 <= exe.bytes().len()
                &&& exe.info()[m].id == loc.0
            } by {
                assert(images@[m] == exe.locations()[m]);
            }
            assert(exe.wf());
        }
        Ok(exe)
    }

    /// Decodes the bitmap with id `id` into a top-down RGBA buffer.
    pub fn read_image(&self, id: u16) -> (r: Result<Vec<u8>, BitmapError>)
        requires
            self.wf(),
        ensures
            match self.location(id) {
                None => r == Err::<Vec<u8>, BitmapError>(BitmapError::UnknownResourceId),
                Some(loc) => {
                    &&& (r is Ok <==> decodable(self.region(loc)))
                    &&& (r matches Ok(v) ==> v@ == decoded(self.region(loc)))
                    &&& (r matches Err(e) ==> e == read_error(self.region(loc)))
                },
            },
    {
        let j = match find_location(&self.images, id) {
            None => {
                proof {
                    if exists|i: int| 0 <= i < self.locations().len() && (#[trigger] self.locations()[i]).0 == id {
                        let i = choose|i: int| 0 <= i < self.locations().len() && (#[trigger] self.locations()[i]).0 == id;
                        assert(self.images@[i].0 != id);
                    }
                }
                return Err(BitmapError::UnknownResourceId);
            },
            Some(j) => j,
        };
        proof {
            self.lemma_location(j as int);
            assert(self.locations()[j as int] == self.images@[j as int]);
        }
        let (_, offset, length) = self.images[j];
        let n = self.buffer.len();
        assert(offset + length <= n);
        let region = slice_subrange(self.buffer.as_slice(), offset as usize, (offset + length) as usize);
        read(region)
    }

    /// Encodes a top-down RGBA buffer into the bitmap with id `id`, in
    /// place; its length, and every byte outside it, stay as they were.
    pub fn patch_image(&mut self, id: u16, pixels: &[u8]) -> (r: Result<(), BitmapError>)
        requires
            old(self).wf(),
        ensures
            final(self).wf(),
            final(self).locations() == old(self).locations(),
            final(self).code_range() == old(self).code_range(),
            final(self).info() == old(self).info(),
            final(self).bytes().len() == old(self).bytes().len(),
            r is Err ==> final(self).bytes() == old(self).bytes(),
            match old(self).location(id) {
                None => r == Err::<(), BitmapError>(BitmapError::UnknownResourceId),
                Some(loc) => {
                    &&& (r is Ok <==> encodable(old(self).region(loc), pixels@))
                    &&& (r matches Err(e) ==> e == patch_error(old(self).region(loc), pixels@))
                    &&& (r is Ok ==> encoded(
                        old(self).region(loc),
                        final(self).region(loc),
                        pixels@,
                    ))
                    &&& forall|i: int|
                        0 <= i < old(self).bytes().len() && !(loc.1 <= i < loc.1 + loc.2)
                            ==> #[trigger] final(self).bytes()[i] == old(self).bytes()[i]
                },
            },
    {
        let j = match find_location(&self.images, id) {
            None => {
                proof {
                    if exists|i: int| 0 <= i < self.locations().len() && (#[trigger] self.locations()[i]).0 == id {
                        let i = choose|i: int| 0 <= i < self.locations().len() && (#[trigger] self.locations()[i]).0 == id;
                        assert(self.images@[i].0 != id);
                    }
                }
                return Err(BitmapError::UnknownResourceId);
            },
            Some(j) => j,
        };
        proof {
            self.lemma_location(j as int);
            assert(self.locations()[j as int] == self.images@[j as int]);
        }
        let (_, offset, length) = self.images[j];
        let n = self.buffer.len();
        assert(offset + length <= n);
        let ghost before = self.buffer@;
        let mut region = slice_to_vec(
            slice_subrange(self.buffer.as_slice(), offset as usize, (offset + length) as usize),
        );
        match patch(region.as_mut_slice(), pixels) {
            Err(e) => return Err(e),
            Ok(()) => {},
        }
        write_at(self.buffer.as_mut_slice(), offset as usize, &region);
        proof {
            assert(self.buffer@.subrange(offset as int, offset + length) =~= region@);
        }
        Ok(())
    }

    /// Rewrites colour constants in the code section: each four-byte
    /// occurrence of a search colour of `dict` (the first that matches) is
    /// replaced by its replacement colour when a safe instruction prefix
    /// precedes it. Returns the prefix byte of each occurrence left alone,
    /// as warnings; fails when the code section does not lie in the image.
    pub fn patch_colours(&mut self, dict: &Vec<(u32, u32)>) -> (r: Result<Vec<u8>, BitmapError>)
        requires
            old(self).wf(),
        ensures
            final(self).wf(),
            final(self).locations() == old(self).locations(),
            final(self).code_range() == old(self).code_range(),
            final(self).info() == old(self).info(),
            final(self).bytes().len() == old(self).bytes().len(),
            ({
                let (t0, t1) = old(self).code_range();
                let before = old(self).bytes();
                let after = final(self).bytes();
                if t0 + t1 > before.len() {
                    r == Err::<Vec<u8>, BitmapError>(BitmapError::MissingSection) && after == before
                } else {
                    let orig = before.subrange(t0 as int, t0 + t1);
                    let res = colours_patched(orig, dict@, windows(t1 as int));
                    &&& r matches Ok(warn) && warn@ == res.1
                    &&& after.subrange(t0 as int, t0 + t1) == res.0
                    &&& forall|i: int|
                        0 <= i < before.len() && !(t0 <= i < t0 + t1) ==> #[trigger] after[i]
                            == before[i]
                }
            }),
    {
        let n = self.buffer.len();
        let (t0, t1) = self.text;
        if t0 > n as u64 || t1 > n as u64 - t0 {
            return Err(BitmapError::MissingSection);
        }
        let start = t0 as usize;
        let size = t1 as usize;
        let orig = slice_to_vec(slice_subrange(self.buffer.as_slice(), start, start + size));
        let ghost before = self.buffer@;
        let mut warnings: Vec<u8> = Vec::new();
        let count: usize = if size >= 4 { size - 3 } else { 0 };
        let mut i: usize = 0;
        while i < count
            invariant
                self.buffer@.len() == n,
                before.len() == n,
                start + size <= n,
                orig@ == before.subrange(start as int, start + size),
                count == windows(size as int),
                0 <= i <= count,
                self.images == old(self).images,
                self.text == old(self).text,
                self.images_info == old(self).images_info,
                before == old(self).buffer@,
                ({
                    let res = colours_patched(orig@, dict@, i as nat);
                    &&& self.buffer@.subrange(start as int, start + size) == res.0
                    &&& warnings@ == res.1
                }),
                forall|k: int|
                    0 <= k < n && !(start <= k < start + size) ==> #[trigger] self.buffer@[k]
                        == before[k],
            decreases count - i,
        {
            let ghost cur = self.buffer@.subrange(start as int, start + size);
            let ghost prev = self.buffer@;
            match find_search(dict, &orig, i) {
                None => {},
                Some(k) => {
                    if i > 0 {
                        let prefix = self.buffer[start + i - 1];
                        assert(prefix == cur[i - 1]);
                        if prefix == 0x68 || prefix == 0xb9 {
                            let lit = colour_bytes(dict[k].1);
                            self.buffer.set(start + i, lit[0]);
                            self.buffer.set(start + i + 1, lit[1]);
                            self.buffer.set(start + i + 2, lit[2]);
                            self.buffer.set(start + i + 3, lit[3]);
                            assert(self.buffer@.subrange(start as int, start + size) =~= cur.subrange(0, i as int)
                                + colour_literal(dict@[k as int].1) + cur.subrange(i + 4, cur.len() as int));
                        } else {
                            warnings.push(prefix);
                        }
                    }
                },
            }
            proof {
                assert forall|kk: int|
                    0 <= kk < n && !(start <= kk < start + size) implies #[trigger] self.buffer@[kk]
                        == before[kk] by {
                    assert(self.buffer@[kk] == prev[kk]);
                }
            }
            i = i + 1;
        }
        proof {
            assert forall|a: int| 0 <= a < self.locations().len() implies {
                let loc = #[trigger] self.locations()[a];
                &&& loc.1 + loc.2 <= self.bytes().len()
                &&& self.images_info@[a].id == loc.0
            } by {
                assert(old(self).locations()[a] == self.locations()[a]);
            }
        }
        Ok(warnings)
    }

    /// Hands back the image's bytes, with every patch applied.
    pub fn finish(self) -> (r: Vec<u8>)
        ensures
            r@ == self.bytes(),
    {
        self.buffer
    }
}

} // verus!
