//! The record types of the script entry list, their mathematical models, and
//! the well-formedness conditions the codec's contracts are stated over.
//!
//! A `ScriptEntry` is one scripting resource descriptor: two narrow
//! (one-byte-per-code-point) names, two wide (two-byte-per-code-point) script
//! paths, and four raw 32-bit flag words. On disk every string is
//! null-terminated, so a well-formed value contains no null code point; a
//! narrow string holds only single-byte code points and a wide string only
//! single-unit (basic-plane) code points.

use vstd::prelude::*;

verus! {

/// Why a decode or encode call failed.
#[derive(Debug, PartialEq, Eq)]
pub enum ScriptEntryListError {
    /// A read or write went past the end of the stream (a short read).
    IOError,
    /// The stream does not start with the expected magic tag; carries the
    /// four bytes that were actually found.
    InvalidHeader([u8; 4]),
    /// A narrow string contained a byte that is not a single-byte code point.
    InvalidNarrowText,
    /// A wide string contained a code unit that is not a valid lone code
    /// point (an unpaired surrogate).
    InvalidWideText,
}

/// The mathematical model of a `ScriptEntryListError`.
pub ghost enum ErrorModel {
    IOError,
    InvalidHeader(Seq<u8>),
    InvalidNarrowText,
    InvalidWideText,
}

impl View for ScriptEntryListError {
    type V = ErrorModel;

    open spec fn view(&self) -> ErrorModel {
        match self {
            ScriptEntryListError::IOError => ErrorModel::IOError,
            ScriptEntryListError::InvalidHeader(b) => ErrorModel::InvalidHeader(b@),
            ScriptEntryListError::InvalidNarrowText => ErrorModel::InvalidNarrowText,
            ScriptEntryListError::InvalidWideText => ErrorModel::InvalidWideText,
        }
    }
}

/// One scripting resource descriptor.
pub struct ScriptEntry {
    /// Narrow text: the name of the described entity.
    pub entity_name: String,
    /// Narrow text: the name of the map the entity belongs to.
    pub map_name: String,
    /// Wide text: the path of the entry's script.
    pub lua_path: String,
    /// Wide text: the path of the entry's placement data.
    pub plb_path: String,
    /// Exactly four raw 32-bit words.
    pub flags: [u32; 4],
}

/// The mathematical model of one entry: each string as the sequence of code
/// units it occupies on disk, and the four flag words.
pub ghost struct EntryModel {
    pub entity_name: Seq<u8>,
    pub map_name: Seq<u8>,
    pub lua_path: Seq<u16>,
    pub plb_path: Seq<u16>,
    pub flags: Seq<u32>,
}

/// The narrow-string code-unit view of a string value: one byte per
/// character.
pub open spec fn narrow_view(s: Seq<char>) -> Seq<u8> {
    s.map_values(|c: char| ((c as u32) & 0xff) as u8)
}

/// The wide-string code-unit view of a string value: one 16-bit unit per
/// character.
pub open spec fn wide_view(s: Seq<char>) -> Seq<u16> {
    s.map_values(|c: char| ((c as u32) & 0xffff) as u16)
}

impl View for ScriptEntry {
    type V = EntryModel;

    open spec fn view(&self) -> EntryModel {
        EntryModel {
            entity_name: narrow_view(self.entity_name@),
            map_name: narrow_view(self.map_name@),
            lua_path: wide_view(self.lua_path@),
            plb_path: wide_view(self.plb_path@),
            flags: self.flags@,
        }
    }
}

/// The model of a sequence of entries.
pub open spec fn entries_view(entries: Seq<ScriptEntry>) -> Seq<EntryModel> {
    entries.map_values(|e: ScriptEntry| e@)
}

/// An ordered sequence of entries; the order is the record index order and
/// is preserved across a decode/encode round trip.
pub struct ScriptEntryList {
    pub entries: Vec<ScriptEntry>,
}

impl View for ScriptEntryList {
    type V = Seq<EntryModel>;

    open spec fn view(&self) -> Seq<EntryModel> {
        entries_view(self.entries@)
    }
}

/// Every character of a narrow string is a single non-null byte on disk.
pub open spec fn narrow_str_wf(s: Seq<char>) -> bool {
    forall|i: int| 0 <= i < s.len() ==> 1 <= #[trigger] (s[i] as int) < 128
}

/// Every character of a wide string is a single non-null 16-bit unit on
/// disk. No character is ever a surrogate code point; that exclusion is
/// stated here because it is what the on-disk encoding relies on.
pub open spec fn wide_str_wf(s: Seq<char>) -> bool {
    forall|i: int|
        0 <= i < s.len() ==> 1 <= #[trigger] (s[i] as int) < 0x10000 && !(0xD800 <= (s[i] as int)
            < 0xE000)
}

/// A well-formed entry: its strings fit the on-disk single-unit encodings.
pub open spec fn entry_wf(e: ScriptEntry) -> bool {
    &&& narrow_str_wf(e.entity_name@)
    &&& narrow_str_wf(e.map_name@)
    &&& wide_str_wf(e.lua_path@)
    &&& wide_str_wf(e.plb_path@)
}

/// A well-formed list: every entry is well-formed.
pub open spec fn list_wf(l: ScriptEntryList) -> bool {
    forall|i: int| 0 <= i < l.entries@.len() ==> entry_wf(#[trigger] l.entries@[i])
}

/// The model of a narrow string read back from disk: non-null single bytes.
pub open spec fn narrow_bytes_wf(s: Seq<u8>) -> bool {
    forall|i: int| 0 <= i < s.len() ==> 1 <= #[trigger] s[i] < 128
}

/// The model of a wide string read back from disk: non-null, non-surrogate
/// 16-bit units.
pub open spec fn wide_units_wf(s: Seq<u16>) -> bool {
    forall|i: int|
        0 <= i < s.len() ==> #[trigger] s[i] != 0 && !(0xD800 <= s[i] < 0xE000)
}

/// A well-formed entry model: each string fits its encoding and there are
/// exactly four flag words.
pub open spec fn model_wf(e: EntryModel) -> bool {
    &&& narrow_bytes_wf(e.entity_name)
    &&& narrow_bytes_wf(e.map_name)
    &&& wide_units_wf(e.lua_path)
    &&& wide_units_wf(e.plb_path)
    &&& e.flags.len() == 4
}

/// A well-formed list model.
pub open spec fn models_wf(es: Seq<EntryModel>) -> bool {
    forall|i: int| 0 <= i < es.len() ==> model_wf(#[trigger] es[i])
}

/// A well-formed entry has a well-formed model: characters are never
/// surrogates, and the single-unit bounds make the code-unit casts exact.
pub proof fn lemma_entry_wf_model(e: ScriptEntry)
    requires
        entry_wf(e),
    ensures
        model_wf(e@),
{
    assert forall|i: int| 0 <= i < e@.entity_name.len() implies 1 <= #[trigger] e@.entity_name[i]
        < 128 by {
        let c = e.entity_name@[i];
        assert(1 <= (c as int) && (c as int) < 128);
        let v: u32 = c as u32;
        assert(v == c as int);
        assert((v & 0xff) < 128 && (v & 0xff) >= 1) by (bit_vector)
            requires 1 <= v && v < 128;
    }
    assert forall|i: int| 0 <= i < e@.map_name.len() implies 1 <= #[trigger] e@.map_name[i]
        < 128 by {
        let c = e.map_name@[i];
        assert(1 <= (c as int) && (c as int) < 128);
        let v: u32 = c as u32;
        assert(v == c as int);
        assert((v & 0xff) < 128 && (v & 0xff) >= 1) by (bit_vector)
            requires 1 <= v && v < 128;
    }
    assert forall|i: int| 0 <= i < e@.lua_path.len() implies #[trigger] e@.lua_path[i] != 0 && !(
    0xD800 <= e@.lua_path[i] < 0xE000) by {
        let c = e.lua_path@[i];
        assert(1 <= (c as int) && (c as int) < 0x10000 && !(0xD800 <= (c as int) && (c as int)
            < 0xE000));
        let v: u32 = c as u32;
        assert(v == c as int);
        assert((v & 0xffff) == v) by (bit_vector)
            requires v < 0x10000;
    }
    assert forall|i: int| 0 <= i < e@.plb_path.len() implies #[trigger] e@.plb_path[i] != 0 && !(
    0xD800 <= e@.plb_path[i] < 0xE000) by {
        let c = e.plb_path@[i];
        assert(1 <= (c as int) && (c as int) < 0x10000 && !(0xD800 <= (c as int) && (c as int)
            < 0xE000));
        let v: u32 = c as u32;
        assert(v == c as int);
        assert((v & 0xffff) == v) by (bit_vector)
            requires v < 0x10000;
    }
}

} // verus!
