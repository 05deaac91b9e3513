//! The decoder: a total specification of what any byte stream decodes to
//! (`decode_spec`), and the executable decoder, proved to return exactly
//! that.
//!
//! Decoding follows a fixed chain of absolute offsets: the header points at
//! the content header, the content header at the entry-pointer table, each
//! table slot at one five-field entry record, and each record field at a
//! null-terminated string or a block of four flag words.

use crate::bytes::read_u32;
use crate::bytes::u16_at;
use crate::bytes::u32_at;
use crate::entry::EntryModel;
use crate::entry::ErrorModel;
use crate::entry::ScriptEntry;
use crate::entry::ScriptEntryList;
use crate::entry::ScriptEntryListError;
use crate::entry::entry_wf;
use crate::entry::entries_view;
use crate::entry::list_wf;
use crate::entry::narrow_str_wf;
use crate::entry::narrow_view;
use crate::entry::wide_str_wf;
use crate::entry::wide_view;
use crate::text::char_from_u32;
use crate::text::push_char;
use vstd::prelude::*;

verus! {

/// The magic tag every stream must start with.
pub open spec fn magic_bytes() -> Seq<u8> {
    seq![0x53u8, 0x49u8, 0x52u8, 0x30u8]
}

/// The narrow string stored at byte offset `p`: single-byte code points up
/// to an exclusive null terminator. Running past the end of the stream is a
/// short read; a byte that is no single-byte code point is invalid narrow
/// text.
pub open spec fn read_narrow_str(b: Seq<u8>, p: int) -> Result<Seq<u8>, ErrorModel>
    decreases b.len() - p,
{
    if !(0 <= p && p < b.len()) {
        Err(ErrorModel::IOError)
    } else if b[p] == 0 {
        Ok(Seq::empty())
    } else if b[p] >= 128 {
        Err(ErrorModel::InvalidNarrowText)
    } else {
        match read_narrow_str(b, p + 1) {
            Ok(s) => Ok(seq![b[p]] + s),
            Err(e) => Err(e),
        }
    }
}

/// The wide string stored at byte offset `p`: little-endian 16-bit units up
/// to an exclusive null unit. A surrogate unit is invalid wide text, since
/// each unit is decoded as one lone code point.
pub open spec fn read_wide_str(b: Seq<u8>, p: int) -> Result<Seq<u16>, ErrorModel>
    decreases b.len() - p,
{
    if !(0 <= p && p + 2 <= b.len()) {
        Err(ErrorModel::IOError)
    } else if u16_at(b, p) == 0 {
        Ok(Seq::empty())
    } else if 0xD800 <= u16_at(b, p) && u16_at(b, p) < 0xE000 {
        Err(ErrorModel::InvalidWideText)
    } else {
        match read_wide_str(b, p + 2) {
            Ok(s) => Ok(seq![u16_at(b, p)] + s),
            Err(e) => Err(e),
        }
    }
}

/// The four flag words stored at byte offset `p`.
pub open spec fn read_flags(b: Seq<u8>, p: int) -> Result<Seq<u32>, ErrorModel> {
    if !(0 <= p && p + 16 <= b.len()) {
        Err(ErrorModel::IOError)
    } else {
        Ok(seq![u32_at(b, p), u32_at(b, p + 4), u32_at(b, p + 8), u32_at(b, p + 12)])
    }
}

/// The entry whose five-field record is stored at byte offset `p`: five
/// offsets, resolved in the fixed field order.
pub open spec fn decode_entry(b: Seq<u8>, p: int) -> Result<EntryModel, ErrorModel> {
    if !(0 <= p && p + 20 <= b.len()) {
        Err(ErrorModel::IOError)
    } else {
        match read_narrow_str(b, u32_at(b, p) as int) {
            Err(e) => Err(e),
            Ok(entity_name) => match read_narrow_str(b, u32_at(b, p + 4) as int) {
                Err(e) => Err(e),
                Ok(map_name) => match read_wide_str(b, u32_at(b, p + 8) as int) {
                    Err(e) => Err(e),
                    Ok(lua_path) => match read_wide_str(b, u32_at(b, p + 12) as int) {
                        Err(e) => Err(e),
                        Ok(plb_path) => match read_flags(b, u32_at(b, p + 16) as int) {
                            Err(e) => Err(e),
                            Ok(flags) => Ok(
                                EntryModel { entity_name, map_name, lua_path, plb_path, flags },
                            ),
                        },
                    },
                },
            },
        }
    }
}

/// The first `k` entries named by the entry-pointer table at `table`, in
/// table order; the first failure aborts the whole decode.
pub open spec fn decode_entries(b: Seq<u8>, table: int, k: nat) -> Result<
    Seq<EntryModel>,
    ErrorModel,
>
    decreases k,
{
    if k == 0 {
        Ok(Seq::empty())
    } else {
        match decode_entries(b, table, (k - 1) as nat) {
            Err(e) => Err(e),
            Ok(s) => match decode_entry(b, u32_at(b, table + 4 * (k - 1)) as int) {
                Err(e) => Err(e),
                Ok(e) => Ok(s.push(e)),
            },
        }
    }
}

/// What any byte stream decodes to: the full record list, or the first
/// error the fixed walk of the stream runs into.
pub open spec fn decode_spec(b: Seq<u8>) -> Result<Seq<EntryModel>, ErrorModel> {
    if b.len() < 4 {
        Err(ErrorModel::IOError)
    } else if b.subrange(0, 4) != magic_bytes() {
        Err(ErrorModel::InvalidHeader(b.subrange(0, 4)))
    } else if b.len() < 12 {
        Err(ErrorModel::IOError)
    } else {
        let content = u32_at(b, 4) as int;
        if content + 8 > b.len() {
            Err(ErrorModel::IOError)
        } else {
            let count = u32_at(b, content) as int;
            let table = u32_at(b, content + 4) as int;
            if count > 0 && table + 4 * count > b.len() {
                Err(ErrorModel::IOError)
            } else {
                decode_entries(b, table, count as nat)
            }
        }
    }
}

/// An error anywhere in a prefix of the entry walk is the error of the
/// whole walk.
pub proof fn lemma_decode_entries_err(b: Seq<u8>, table: int, j: nat, k: nat)
    requires
        j <= k,
        decode_entries(b, table, j) is Err,
    ensures
        decode_entries(b, table, k) == decode_entries(b, table, j),
    decreases k,
{
    if k > j {
        lemma_decode_entries_err(b, table, j, (k - 1) as nat);
    }
}

/// Reads the null-terminated narrow string stored at absolute offset
/// `reference`, one single-byte code point per byte; the terminator is
/// consumed but not part of the result.
pub fn read_referenced_utf8_string(bytes: &[u8], reference: u64) -> (r: Result<
    String,
    ScriptEntryListError,
>)
    ensures
        match r {
            Ok(s) => read_narrow_str(bytes@, reference as int) == Ok::<_, ErrorModel>(
                narrow_view(s@),
            ) && narrow_str_wf(s@),
            Err(e) => read_narrow_str(bytes@, reference as int) == Err::<Seq<u8>, _>(e@),
        },
{
    let mut result = String::new();
    if reference >= bytes.len() as u64 {
        return Err(ScriptEntryListError::IOError);
    }
    let mut pos: usize = reference as usize;
    loop
        invariant
            pos <= bytes@.len(),
            narrow_str_wf(result@),
            read_narrow_str(bytes@, reference as int) == (match read_narrow_str(
                bytes@,
                pos as int,
            ) {
                Ok(s) => Ok::<Seq<u8>, ErrorModel>(narrow_view(result@) + s),
                Err(e) => Err::<Seq<u8>, ErrorModel>(e),
            }),
        decreases bytes@.len() - pos,
    {
        if pos >= bytes.len() {
            return Err(ScriptEntryListError::IOError);
        }
        let x = bytes[pos];
        if x == 0 {
            proof {
                assert(narrow_view(result@) + Seq::<u8>::empty() =~= narrow_view(result@));
            }
            return Ok(result);
        }
        if x >= 128 {
            return Err(ScriptEntryListError::InvalidNarrowText);
        }
        let ghost prev = result@;
        push_char(&mut result, x as char);
        proof {
            let c = x as char;
            let v: u32 = c as u32;
            assert(v == x);
            assert(c as int == v);
            assert(1 <= (c as int) && (c as int) < 128);
            assert((v & 0xff) == v) by (bit_vector)
                requires
                    v < 128,
            ;
            assert(narrow_view(result@) =~= narrow_view(prev).push(x));
            let tail = read_narrow_str(bytes@, pos + 1);
            if tail is Ok {
                let s = tail->Ok_0;
                assert(read_narrow_str(bytes@, pos as int) == Ok::<_, ErrorModel>(
                    seq![x] + s,
                ));
                assert(narrow_view(prev) + (seq![x] + s) =~= narrow_view(prev).push(x) + s);
            }
        }
        pos = pos + 1;
    }
}

/// Reads the null-terminated wide string stored at absolute offset
/// `reference`, one little-endian 16-bit unit per code point; the
/// terminator is consumed but not part of the result.
pub fn read_referenced_utf16_string(bytes: &[u8], reference: u64) -> (r: Result<
    String,
    ScriptEntryListError,
>)
    ensures
        match r {
            Ok(s) => read_wide_str(bytes@, reference as int) == Ok::<_, ErrorModel>(
                wide_view(s@),
            ) && wide_str_wf(s@),
            Err(e) => read_wide_str(bytes@, reference as int) == Err::<Seq<u16>, _>(e@),
        },
{
    let mut result = String::new();
    if reference >= bytes.len() as u64 {
        return Err(ScriptEntryListError::IOError);
    }
    let mut pos: usize = reference as usize;
    loop
        invariant
            pos <= bytes@.len(),
            wide_str_wf(result@),
            read_wide_str(bytes@, reference as int) == (match read_wide_str(bytes@, pos as int) {
                Ok(s) => Ok::<Seq<u16>, ErrorModel>(wide_view(result@) + s),
                Err(e) => Err::<Seq<u16>, ErrorModel>(e),
            }),
        decreases bytes@.len() - pos,
    {
        if bytes.len() < 2 || pos > bytes.len() - 2 {
            return Err(ScriptEntryListError::IOError);
        }
        let unit = (bytes[pos] as u16) | ((bytes[pos + 1] as u16) << 8);
        assert(unit == u16_at(bytes@, pos as int));
        if unit == 0 {
            proof {
                assert(wide_view(result@) + Seq::<u16>::empty() =~= wide_view(result@));
            }
            return Ok(result);
        }
        if 0xD800 <= unit && unit < 0xE000 {
            return Err(ScriptEntryListError::InvalidWideText);
        }
        let c = match char_from_u32(unit as u32) {
            Some(c) => c,
            None => {
                proof {
                    assert(false);
                }
                return Err(ScriptEntryListError::InvalidWideText);
            },
        };
        let ghost prev = result@;
        push_char(&mut result, c);
        proof {
            let v: u32 = c as u32;
            assert(v == unit);
            assert(c as int == v);
            assert(1 <= (c as int) && (c as int) < 0x10000 && !(0xD800 <= (c as int) && (
            c as int) < 0xE000));
            assert((v & 0xffff) == v) by (bit_vector)
                requires
                    v < 0x10000,
            ;
            assert(wide_view(result@) =~= wide_view(prev).push(unit));
            let tail = read_wide_str(bytes@, pos + 2);
            if tail is Ok {
                let s = tail->Ok_0;
                assert(read_wide_str(bytes@, pos as int) == Ok::<_, ErrorModel>(
                    seq![unit] + s,
                ));
                assert(wide_view(prev) + (seq![unit] + s) =~= wide_view(prev).push(unit) + s);
            }
        }
        pos = pos + 2;
    }
}

/// Reads the five-field entry record stored at absolute offset `p` and
/// resolves its five offsets.
fn decode_one_entry(bytes: &[u8], p: u32) -> (r: Result<ScriptEntry, ScriptEntryListError>)
    ensures
        match r {
            Ok(e) => decode_entry(bytes@, p as int) == Ok::<_, ErrorModel>(e@) && entry_wf(e),
            Err(err) => decode_entry(bytes@, p as int) == Err::<EntryModel, _>(err@),
        },
{
    let _total: usize = bytes.len();
    let p = p as usize;
    let e_off = match read_u32(bytes, p) {
        Ok(x) => x,
        Err(e) => {
            return Err(e);
        },
    };
    let m_off = match read_u32(bytes, p + 4) {
        Ok(x) => x,
        Err(e) => {
            return Err(e);
        },
    };
    let l_off = match read_u32(bytes, p + 8) {
        Ok(x) => x,
        Err(e) => {
            return Err(e);
        },
    };
    let pb_off = match read_u32(bytes, p + 12) {
        Ok(x) => x,
        Err(e) => {
            return Err(e);
        },
    };
    let f_off = match read_u32(bytes, p + 16) {
        Ok(x) => x,
        Err(e) => {
            return Err(e);
        },
    };
    let entity_name = match read_referenced_utf8_string(bytes, e_off as u64) {
        Ok(s) => s,
        Err(e) => {
            return Err(e);
        },
    };
    let map_name = match read_referenced_utf8_string(bytes, m_off as u64) {
        Ok(s) => s,
        Err(e) => {
            return Err(e);
        },
    };
    let lua_path = match read_referenced_utf16_string(bytes, l_off as u64) {
        Ok(s) => s,
        Err(e) => {
            return Err(e);
        },
    };
    let plb_path = match read_referenced_utf16_string(bytes, pb_off as u64) {
        Ok(s) => s,
        Err(e) => {
            return Err(e);
        },
    };
    let f0 = match read_u32(bytes, f_off as usize) {
        Ok(x) => x,
        Err(e) => {
            return Err(e);
        },
    };
    let f1 = match read_u32(bytes, f_off as usize + 4) {
        Ok(x) => x,
        Err(e) => {
            return Err(e);
        },
    };
    let f2 = match read_u32(bytes, f_off as usize + 8) {
        Ok(x) => x,
        Err(e) => {
            return Err(e);
        },
    };
    let f3 = match read_u32(bytes, f_off as usize + 12) {
        Ok(x) => x,
        Err(e) => {
            return Err(e);
        },
    };
    let flags: [u32; 4] = [f0, f1, f2, f3];
    let entry = ScriptEntry { entity_name, map_name, lua_path, plb_path, flags };
    proof {
        assert(flags@ =~= seq![f0, f1, f2, f3]);
        assert(read_flags(bytes@, f_off as int) == Ok::<_, ErrorModel>(flags@));
    }
    Ok(entry)
}

impl ScriptEntryList {
    /// Decodes a whole stream: validates the magic tag, follows the offset
    /// chain to the entry-pointer table, and resolves every entry record.
    /// Returns exactly what `decode_spec` says the stream holds; every
    /// decoded entry is well-formed.
    #[verifier::loop_isolation(false)]
    pub fn new_from_file(bytes: &[u8]) -> (r: Result<ScriptEntryList, ScriptEntryListError>)
        ensures
            match r {
                Ok(l) => decode_spec(bytes@) == Ok::<_, ErrorModel>(l@) && list_wf(l),
                Err(e) => decode_spec(bytes@) == Err::<Seq<EntryModel>, _>(e@),
            },
    {
        if bytes.len() < 4 {
            return Err(ScriptEntryListError::IOError);
        }
        let header_buf: [u8; 4] = [bytes[0], bytes[1], bytes[2], bytes[3]];
        proof {
            assert(header_buf@ =~= bytes@.subrange(0, 4));
        }
        if !(bytes[0] == 0x53 && bytes[1] == 0x49 && bytes[2] == 0x52 && bytes[3] == 0x30) {
            proof {
                assert(bytes@.subrange(0, 4) != magic_bytes()) by {
                    if bytes@.subrange(0, 4) == magic_bytes() {
                        assert(bytes@[0] == 0x53 && bytes@[1] == 0x49 && bytes@[2] == 0x52
                            && bytes@[3] == 0x30);
                    }
                }
            }
            return Err(ScriptEntryListError::InvalidHeader(header_buf));
        }
        proof {
            assert(bytes@.subrange(0, 4) =~= magic_bytes());
        }
        let content = match read_u32(bytes, 4) {
            Ok(x) => x,
            Err(e) => {
                return Err(e);
            },
        };
        let _reserved = match read_u32(bytes, 8) {
            Ok(x) => x,
            Err(e) => {
                return Err(e);
            },
        };
        let entry_count = match read_u32(bytes, content as usize) {
            Ok(x) => x,
            Err(e) => {
                return Err(e);
            },
        };
        let table = match read_u32(bytes, content as usize + 4) {
            Ok(x) => x,
            Err(e) => {
                return Err(e);
            },
        };
        let mut all_pointer_entry: Vec<u32> = Vec::new();
        let mut i: usize = 0;
        while i < entry_count as usize
            invariant
                i <= entry_count,
                all_pointer_entry@.len() == i,
                table + 4 * i <= bytes@.len() || i == 0,
                forall|j: int|
                    0 <= j < i ==> all_pointer_entry@[j] == u32_at(bytes@, table + 4 * j),
            decreases entry_count - i,
        {
            proof {
                if i > 0 {
                    assert(table + 4 * (i as int) <= bytes@.len());
                }
            }
            let slot = match read_u32(bytes, table as usize + 4 * i) {
                Ok(x) => x,
                Err(e) => {
                    proof {
                        assert(table + 4 * (i + 1) > bytes@.len());
                        assert(table + 4 * (entry_count as int) > bytes@.len());
                    }
                    return Err(e);
                },
            };
            all_pointer_entry.push(slot);
            i = i + 1;
        }
        proof {
            if entry_count > 0 {
                assert(table + 4 * (entry_count as int) <= bytes@.len());
            }
        }
        let mut entries: Vec<ScriptEntry> = Vec::new();
        proof {
            assert(entries_view(entries@) =~= Seq::<EntryModel>::empty());
        }
        let mut k: usize = 0;
        while k < entry_count as usize
            invariant
                k <= entry_count,
                entries@.len() == k,
                all_pointer_entry@.len() == entry_count,
                forall|j: int|
                    0 <= j < entry_count ==> all_pointer_entry@[j] == u32_at(bytes@, table + 4 * j),
                decode_entries(bytes@, table as int, k as nat) == Ok::<_, ErrorModel>(
                    entries_view(entries@),
                ),
                forall|j: int| 0 <= j < k ==> entry_wf(#[trigger] entries@[j]),
            decreases entry_count - k,
        {
            let ghost prefix = entries_view(entries@);
            let entry = match decode_one_entry(bytes, all_pointer_entry[k]) {
                Ok(e) => e,
                Err(e) => {
                    proof {
                        assert(decode_entries(bytes@, table as int, (k + 1) as nat) == Err::<
                            Seq<EntryModel>,
                            _,
                        >(e@));
                        lemma_decode_entries_err(
                            bytes@,
                            table as int,
                            (k + 1) as nat,
                            entry_count as nat,
                        );
                    }
                    return Err(e);
                },
            };
            let ghost em = entry@;
            entries.push(entry);
            proof {
                assert(entries_view(entries@) =~= prefix.push(em));
                assert(decode_entries(bytes@, table as int, (k + 1) as nat) == Ok::<_, ErrorModel>(
                    prefix.push(em),
                ));
            }
            k = k + 1;
        }
        let list = ScriptEntryList { entries };
        proof {
            assert(list@ == entries_view(entries@));
            assert(decode_spec(bytes@) == decode_entries(
                bytes@,
                table as int,
                (entry_count as int) as nat,
            ));
        }
        Ok(list)
    }
}

} // verus!
