//! Walking a PE image's resource directory to the data of each bitmap.
use vstd::prelude::*;
use crate::error::BitmapError;
use crate::pe::{data_entry, data_entry_of, entry_id, entry_is_table, sub_table, sub_table_of, RawEntry};

verus! {

/// The resource type id of bitmaps.
pub const RT_BITMAP: u16 = 2;

/// The numeric id an entry is named by, if it is not named by a string.
pub open spec fn id_of(e: RawEntry) -> Option<u16> {
    if e.0 & 0x8000_0000 != 0 {
        None
    } else {
        Some((e.0 & 0xffff) as u16)
    }
}

/// The entry points to a subtable rather than to a data entry.
pub open spec fn points_to_table(e: RawEntry) -> bool {
    e.1 & 0x8000_0000 != 0
}

/// `k` is the first entry named by `id`.
pub open spec fn first_with_id(entries: Seq<RawEntry>, id: u16, k: int) -> bool {
    &&& 0 <= k < entries.len()
    &&& id_of(entries[k]) == Some(id)
    &&& forall|i: int| 0 <= i < k ==> id_of(#[trigger] entries[i]) != Some(id)
}

/// The file offset of data at relative virtual address `rva`, in a section
/// loaded at `section_va` and stored at file offset `section_offset`.
pub open spec fn file_offset_of(rva: u32, section_va: u32, section_offset: u64) -> Option<u64> {
    if rva >= section_va && rva - section_va + section_offset <= u64::MAX {
        Some((rva - section_va + section_offset) as u64)
    } else {
        None
    }
}

/// The id, file offset and length of the bitmap that the name-level entry
/// `e` leads to: through its table of languages, whose first entry is used,
/// to a data entry.
pub open spec fn location_of(dir: Seq<u8>, e: RawEntry, va: u32, off: u64) -> Result<
    (u16, u64, u64),
    BitmapError,
> {
    match id_of(e) {
        None => Err(BitmapError::NonIdResourceName),
        Some(id) => if !points_to_table(e) {
            Err(BitmapError::MalformedResourceEntry)
        } else {
            match sub_table_of(dir, e.1) {
                None => Err(BitmapError::MalformedResourceEntry),
                Some(langs) => if langs.len() == 0 || points_to_table(langs[0]) {
                    Err(BitmapError::MalformedResourceEntry)
                } else {
                    match data_entry_of(dir, langs[0].1) {
                        None => Err(BitmapError::MalformedResourceEntry),
                        Some((rva, size)) => match file_offset_of(rva, va, off) {
                            None => Err(BitmapError::MalformedResourceEntry),
                            Some(at) => Ok((id, at, size as u64)),
                        },
                    }
                },
            }
        },
    }
}

/// Finds the first entry named by `id`.
pub fn find_entry(entries: &Vec<RawEntry>, id: u16) -> (r: Option<usize>)
    ensures
        match r {
            Some(k) => first_with_id(entries@, id, k as int),
            None => forall|i: int| 0 <= i < entries@.len() ==> id_of(#[trigger] entries@[i]) != Some(id),
        },
{
    let mut k: usize = 0;
    while k < entries.len()
        invariant
            0 <= k <= entries@.len(),
            forall|i: int| 0 <= i < k ==> id_of(#[trigger] entries@[i]) != Some(id),
        decreases entries@.len() - k,
    {
        if entry_id(entries[k].0) == Some(id) {
            return Some(k);
        }
        k = k + 1;
    }
    None
}

/// The file offset of data at relative virtual address `rva`:
/// `rva - section_va + section_offset`.
pub fn file_offset(rva: u32, section_va: u32, section_offset: u64) -> (r: Option<u64>)
    ensures
        r == file_offset_of(rva, section_va, section_offset),
{
    if rva < section_va {
        return None;
    }
    let delta = (rva - section_va) as u64;
    if delta > u64::MAX - section_offset {
        return None;
    }
    Some(delta + section_offset)
}

/// Follows one name-level entry of the bitmap table to its data.
pub fn bitmap_location(dir: &[u8], e: RawEntry, va: u32, off: u64) -> (r: Result<
    (u16, u64, u64),
    BitmapError,
>)
    ensures
        r == location_of(dir@, e, va, off),
{
    let id = match entry_id(e.0) {
        None => return Err(BitmapError::NonIdResourceName),
        Some(id) => id,
    };
    if !entry_is_table(e.1) {
        return Err(BitmapError::MalformedResourceEntry);
    }
    let langs = match sub_table(dir, e.1) {
        None => return Err(BitmapError::MalformedResourceEntry),
        Some(langs) => langs,
    };
    if langs.len() == 0 || entry_is_table(langs[0].1) {
        return Err(BitmapError::MalformedResourceEntry);
    }
    let (rva, size) = match data_entry(dir, langs[0].1) {
        None => return Err(BitmapError::MalformedResourceEntry),
        Some(found) => found,
    };
    match file_offset(rva, va, off) {
        None => Err(BitmapError::MalformedResourceEntry),
        Some(at) => Ok((id, at, size as u64)),
    }
}

/// `e` is the error of the first entry of `kids` that cannot be followed.
pub open spec fn first_failure(
    dir: Seq<u8>,
    kids: Seq<RawEntry>,
    va: u32,
    off: u64,
    e: BitmapError,
) -> bool {
    exists|i: int|
        0 <= i < kids.len() && #[trigger] location_of(dir, kids[i], va, off) == Err::<
            (u16, u64, u64),
            BitmapError,
        >(e) && forall|m: int| 0 <= m < i ==> (#[trigger] location_of(dir, kids[m], va, off)) is Ok
}

/// No two locations share an id.
pub open spec fn ids_unique(v: Seq<(u16, u64, u64)>) -> bool {
    forall|i: int, j: int| 0 <= i < j < v.len() ==> (#[trigger] v[i]).0 != (#[trigger] v[j]).0
}

pub(crate) fn find_location(v: &Vec<(u16, u64, u64)>, id: u16) -> (r: Option<usize>)
    ensures
        match r {
            Some(j) => j < v@.len() && v@[j as int].0 == id,
            None => forall|m: int| 0 <= m < v@.len() ==> (#[trigger] v@[m]).0 != id,
        },
{
    let mut j: usize = 0;
    while j < v.len()
        invariant
            0 <= j <= v@.len(),
            forall|m: int| 0 <= m < j ==> (#[trigger] v@[m]).0 != id,
        decreases v@.len() - j,
    {
        if v[j].0 == id {
            return Some(j);
        }
        j = j + 1;
    }
    None
}

/// The last entry of `kids` whose bitmap has the id of `t` leads to `t`.
pub open spec fn located_by(
    dir: Seq<u8>,
    kids: Seq<RawEntry>,
    va: u32,
    off: u64,
    t: (u16, u64, u64),
) -> bool {
    located_upto(dir, kids, va, off, t, kids.len() as int)
}

/// `r` is no location of a bitmap with id `id`.
pub open spec fn other_id(r: Result<(u16, u64, u64), BitmapError>, id: u16) -> bool {
    match r {
        Ok(u) => u.0 != id,
        Err(_) => true,
    }
}

/// Among the first `upto` entries of `kids`, the last one whose bitmap has
/// the id of `t` leads to `t`.
pub open spec fn located_upto(
    dir: Seq<u8>,
    kids: Seq<RawEntry>,
    va: u32,
    off: u64,
    t: (u16, u64, u64),
    upto: int,
) -> bool {
    exists|i: int|
        0 <= i < upto && #[trigger] location_of(dir, kids[i], va, off) == Ok::<
            (u16, u64, u64),
            BitmapError,
        >(t) && forall|m: int| i < m < upto ==> other_id(#[trigger] location_of(dir, kids[m], va, off), t.0)
}

/// `loc` located a bitmap whose id some entry of `v` carries.
pub open spec fn id_covered(v: Seq<(u16, u64, u64)>, loc: Result<(u16, u64, u64), BitmapError>) -> bool {
    match loc {
        Ok(u) => exists|j: int| 0 <= j < v.len() && (#[trigger] v[j]).0 == u.0,
        Err(_) => false,
    }
}

/// Locates every bitmap below the name-level entries `kids`. A later entry
/// with an id already seen replaces the earlier one.
pub fn collect_locations(dir: &[u8], kids: &Vec<RawEntry>, va: u32, off: u64) -> (r: Result<
    Vec<(u16, u64, u64)>,
    BitmapError,
>)
    ensures
        r is Ok <==> forall|i: int|
            0 <= i < kids@.len() ==> (#[trigger] location_of(dir@, kids@[i], va, off)) is Ok,
        r matches Err(e) ==> first_failure(dir@, kids@, va, off, e),
        r matches Ok(v) ==> {
            &&& ids_unique(v@)
            &&& forall|j: int| 0 <= j < v@.len() ==> located_by(dir@, kids@, va, off, #[trigger] v@[j])
            &&& forall|i: int|
                0 <= i < kids@.len() ==> id_covered(v@, #[trigger] location_of(dir@, kids@[i], va, off))
        },
{
    let mut out: Vec<(u16, u64, u64)> = Vec::new();
    let mut k: usize = 0;
    while k < kids.len()
        invariant
            0 <= k <= kids@.len(),
            ids_unique(out@),
            forall|i: int|
                0 <= i < k ==> (#[trigger] location_of(dir@, kids@[i], va, off)) is Ok,
            forall|j: int|
                0 <= j < out@.len() ==> located_upto(dir@, kids@, va, off, #[trigger] out@[j], k as int),
            forall|i: int|
                0 <= i < k ==> id_covered(out@, #[trigger] location_of(dir@, kids@[i], va, off)),
        decreases kids@.len() - k,
    {
        let loc = match bitmap_location(dir, kids[k], va, off) {
            Err(e) => {
                assert(location_of(dir@, kids@[k as int], va, off) == Err::<
                    (u16, u64, u64),
                    BitmapError,
                >(e));
                return Err(e);
            },
            Ok(loc) => loc,
        };
        let ghost prev = out@;
        let j = match find_location(&out, loc.0) {
            Some(j) => {
                out.set(j, loc);
                j
            },
            None => {
                out.push(loc);
                out.len() - 1
            },
        };
        proof {
            assert(out@[j as int] == loc);
            assert forall|a: int, b: int| 0 <= a < b < out@.len() implies (#[trigger] out@[a]).0
                != (#[trigger] out@[b]).0 by {
                if a != j && b != j {
                    assert(out@[a] == prev[a] && out@[b] == prev[b]);
                } else if a == j {
                    assert(out@[b] == prev[b]);
                } else {
                    assert(out@[a] == prev[a]);
                }
            }
        }
        proof {
            assert(location_of(dir@, kids@[k as int], va, off) == Ok::<
                (u16, u64, u64),
                BitmapError,
            >(out@[j as int]));
            assert forall|jj: int| 0 <= jj < out@.len() implies located_upto(
                dir@,
                kids@,
                va,
                off,
                #[trigger] out@[jj],
                k + 1,
            ) by {
                if jj != j {
                    assert(out@[jj] == prev[jj]);
                    assert(located_upto(dir@, kids@, va, off, prev[jj], k as int));
                    let i = choose|i: int|
                        0 <= i < k && #[trigger] location_of(dir@, kids@[i], va, off) == Ok::<
                            (u16, u64, u64),
                            BitmapError,
                        >(prev[jj]) && forall|m: int|
                            i < m < k ==> other_id(
                                #[trigger] location_of(dir@, kids@[m], va, off),
                                prev[jj].0,
                            );
                    assert(out@[jj].0 != out@[j as int].0);
                    assert(other_id(location_of(dir@, kids@[k as int], va, off), prev[jj].0));
                    assert forall|m: int| i < m < k + 1 implies other_id(
                        #[trigger] location_of(dir@, kids@[m], va, off),
                        out@[jj].0,
                    ) by {}
                } else {
                    assert(location_of(dir@, kids@[k as int], va, off) == Ok::<
                        (u16, u64, u64),
                        BitmapError,
                    >(out@[jj]));
                }
            }
            assert forall|i: int| 0 <= i < k + 1 implies id_covered(
                out@,
                #[trigger] location_of(dir@, kids@[i], va, off),
            ) by {
                if i < k {
                    let u = location_of(dir@, kids@[i], va, off)->Ok_0;
                    let jj = choose|jj: int| 0 <= jj < prev.len() && (#[trigger] prev[jj]).0 == u.0;
                    assert(out@[jj].0 == prev[jj].0);
                } else {
                    assert(out@[j as int].0 == loc.0);
                }
            }
        }
        k = k + 1;
    }
    assert(ids_unique(out@));
    assert(forall|i: int|
        0 <= i < kids@.len() ==> id_covered(out@, #[trigger] location_of(dir@, kids@[i], va, off)));
    Ok(out)
}

} // verus!
