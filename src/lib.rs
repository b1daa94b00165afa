//! Locating and rewriting device-independent bitmaps stored as resources
//! inside a 32-bit Windows executable image.
pub mod dib;
pub mod encode;
pub mod error;
pub mod exe;
pub mod laws;
pub mod locate;
pub mod pe;
