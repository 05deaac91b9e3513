//! A verified codec for a binary "script entry list" record format: an
//! ordered set of per-map scripting resource descriptors stored inside a
//! relocatable, pointer-based container.
//!
//! The decoder walks the container's chains of absolute offsets to rebuild
//! structured records from a byte stream; the encoder lays the records out
//! again, sharing one stored copy of each distinct string, and finishes the
//! stream with the container's relocation footer.

pub mod bytes;
pub mod encode;
pub mod entry;
pub mod laws;
pub mod layout;
pub mod parse;
pub mod roundtrip;
pub mod text;

pub use bytes::read_u32;
pub use parse::read_referenced_utf8_string;
pub use parse::read_referenced_utf16_string;
pub use text::string_to_utf16;
pub use entry::ScriptEntry;
pub use entry::ScriptEntryList;
pub use entry::ScriptEntryListError;
