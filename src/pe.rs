//! The calls into the `object` crate that read a PE image's section table
//! and resource directory, each converted to plain values. `object` is built
//! with its `unaligned` feature, so its header types have alignment one and
//! every read depends on the bytes alone, not on where they lie in memory.
use vstd::prelude::*;
use object::read::pe::{PeFile32, ResourceDirectory};
use object::pe::ImageResourceDirectoryEntry;
use object::{LittleEndian, Object, ObjectSection, U32};

verus! {

/// A resource directory entry as stored: its name-or-id word and its
/// offset-to-data-or-subdirectory word.
pub type RawEntry = (u32, u32);

/// The file offset, file size and virtual address of the section of a 32-bit
/// PE image with the given name, if the image parses and has such a section
/// with file data.
pub uninterp spec fn section_of(image: Seq<u8>, name: Seq<u8>) -> Option<(u64, u64, u32)>;

/// The entries of the root table of a resource directory, if it parses.
pub uninterp spec fn root_table_of(dir: Seq<u8>) -> Option<Seq<RawEntry>>;

/// The entries of the subtable that an entry's second word points to, if it
/// parses.
pub uninterp spec fn sub_table_of(dir: Seq<u8>, target: u32) -> Option<Seq<RawEntry>>;

/// The relative virtual address and size held by the data entry that an
/// entry's second word points to, if it can be read.
pub uninterp spec fn data_entry_of(dir: Seq<u8>, target: u32) -> Option<(u32, u32)>;

/// Relies on `PeFile32::parse`, `section_by_name_bytes`, `file_range` and the
/// section header's `virtual_address`: looks a section up by name.
#[verifier::external_body]
pub(crate) fn pe_section(image: &[u8], name: &[u8]) -> (r: Option<(u64, u64, u32)>)
    ensures
        r == section_of(image@, name@),
{
    let file = PeFile32::parse(image).ok()?;
    let section = file.section_by_name_bytes(name)?;
    let (offset, size) = section.file_range()?;
    Some((offset, size, section.pe_section().virtual_address.get(LittleEndian)))
}

/// Relies on `ResourceDirectory::root`: parses the root table.
#[verifier::external_body]
pub(crate) fn root_table(dir: &[u8]) -> (r: Option<Vec<RawEntry>>)
    ensures
        match r {
            Some(v) => root_table_of(dir@) == Some(v@),
            None => root_table_of(dir@) is None,
        },
{
    let table = ResourceDirectory::new(dir).root().ok()?;
    let mut out = Vec::new();
    for e in table.entries {
        out.push((e.name_or_id.get(LittleEndian), e.offset_to_data_or_directory.get(LittleEndian)));
    }
    Some(out)
}

/// Relies on `ImageResourceDirectoryEntry::name_or_id`: an entry is named by
/// a numeric id unless the top bit of its first word is set; the id is then
/// the low sixteen bits.
#[verifier::external_body]
pub(crate) fn entry_id(name_or_id: u32) -> (r: Option<u16>)
    ensures
        r == (if name_or_id & 0x8000_0000 != 0 {
            None
        } else {
            Some((name_or_id & 0xffff) as u16)
        }),
{
    let entry = ImageResourceDirectoryEntry {
        name_or_id: U32::new(LittleEndian, name_or_id),
        offset_to_data_or_directory: U32::new(LittleEndian, 0),
    };
    entry.name_or_id().id()
}

/// Relies on `ImageResourceDirectoryEntry::is_table`: an entry points to a
/// subtable when the top bit of its second word is set.
#[verifier::external_body]
pub(crate) fn entry_is_table(target: u32) -> (r: bool)
    ensures
        r == (target & 0x8000_0000 != 0),
{
    let entry = ImageResourceDirectoryEntry {
        name_or_id: U32::new(LittleEndian, 0),
        offset_to_data_or_directory: U32::new(LittleEndian, target),
    };
    entry.is_table()
}

/// Relies on `ImageResourceDirectoryEntry::data` and
/// `ResourceDirectoryEntryData::table`: parses the subtable an entry points
/// to.
#[verifier::external_body]
pub(crate) fn sub_table(dir: &[u8], target: u32) -> (r: Option<Vec<RawEntry>>)
    ensures
        match r {
            Some(v) => sub_table_of(dir@, target) == Some(v@),
            None => sub_table_of(dir@, target) is None,
        },
{
    let entry = ImageResourceDirectoryEntry {
        name_or_id: U32::new(LittleEndian, 0),
        offset_to_data_or_directory: U32::new(LittleEndian, target),
    };
    let table = entry.data(ResourceDirectory::new(dir)).ok()?.table()?;
    let mut out = Vec::new();
    for e in table.entries {
        out.push((e.name_or_id.get(LittleEndian), e.offset_to_data_or_directory.get(LittleEndian)));
    }
    Some(out)
}

/// Relies on `ImageResourceDirectoryEntry::data` and
/// `ResourceDirectoryEntryData::data`: reads the data entry an entry points
/// to.
#[verifier::external_body]
pub(crate) fn data_entry(dir: &[u8], target: u32) -> (r: Option<(u32, u32)>)
    ensures
        r == data_entry_of(dir@, target),
{
    let entry = ImageResourceDirectoryEntry {
        name_or_id: U32::new(LittleEndian, 0),
        offset_to_data_or_directory: U32::new(LittleEndian, target),
    };
    let data = entry.data(ResourceDirectory::new(dir)).ok()?.data()?;
    Some((data.offset_to_data.get(LittleEndian), data.size.get(LittleEndian)))
}

} // verus!
