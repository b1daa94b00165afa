use vstd::prelude::*;

verus! {

/// Every way an operation of this library can fail. None is retried: each
/// operation is a deterministic transform of the bytes it is given.
#[derive(Debug, Clone, Copy, PartialEq, Eq, Structural)]
pub enum BitmapError {
    /// The image is no 32-bit PE file, or lacks its code or resource section.
    MissingSection,
    /// The resource directory has no bitmap entry.
    MissingResourceType,
    /// A bitmap resource is identified by a name rather than a numeric id.
    NonIdResourceName,
    /// A resource table or data entry is missing or cannot be read.
    MalformedResourceEntry,
    /// A bitmap is shorter than its fixed 40-byte header.
    HeaderTooShort,
    /// The header names a bit depth other than 1, 2, 4, 8, 16, 24 or 32.
    UnsupportedBitDepth,
    /// The palette or the pixel rows that the header describes do not fit in
    /// the bitmap's bytes, or the decoded image would not fit in memory.
    RegionOutOfBounds,
    /// A stored pixel selects a palette slot past the end of the palette.
    PaletteIndexOutOfRange,
    /// A replacement pixel buffer does not hold width * height * 4 bytes.
    WrongPixelBufferSize,
    /// A replacement image uses more distinct colours than the palette holds.
    TooManyColours,
    /// No bitmap resource has the requested id.
    UnknownResourceId,
}

} // verus!
