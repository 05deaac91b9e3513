//! The format's guarantees, stated and proved over the codec's own
//! specifications: entry-count integrity, footer alignment, header
//! rejection, string deduplication, and the absence of flag sharing.

use crate::bytes::u32_at;
use crate::entry::EntryModel;
use crate::entry::ErrorModel;
use crate::layout::content_end;
use crate::layout::encoded_content;
use crate::layout::flag_off;
use crate::layout::flags_seg;
use crate::layout::header_seg;
use crate::layout::lemma_dedup_contains;
use crate::layout::lemma_dedup_distinct;
use crate::layout::lemma_field_lists;
use crate::layout::narrow_pool;
use crate::layout::pad_len;
use crate::layout::pad_seg;
use crate::layout::padded_end;
use crate::layout::recs_seg;
use crate::layout::table_seg;
use crate::layout::wide_pool;
use crate::parse::decode_entries;
use crate::parse::decode_spec;
use crate::parse::magic_bytes;
use vstd::prelude::*;

verus! {

/// A successful entry walk returns exactly as many entries as it was asked
/// for.
pub proof fn lemma_decode_entries_len(b: Seq<u8>, table: int, k: nat)
    ensures
        decode_entries(b, table, k) matches Ok(s) ==> s.len() == k,
    decreases k,
{
    if k > 0 {
        lemma_decode_entries_len(b, table, (k - 1) as nat);
    }
}

/// Entry count integrity: when a stream decodes, the number of entries
/// returned equals the stored entry count, which is also the number of
/// slots the decoder read from the entry-pointer table.
pub proof fn lemma_entry_count(b: Seq<u8>)
    requires
        decode_spec(b) is Ok,
    ensures
        decode_spec(b)->Ok_0.len() == u32_at(b, u32_at(b, 4) as int),
{
    let content = u32_at(b, 4) as int;
    let count = u32_at(b, content) as int;
    let table = u32_at(b, content + 4) as int;
    lemma_decode_entries_len(b, table, count as nat);
}

/// The length of the first `k` entry-pointer-table slots.
pub proof fn lemma_table_seg_len(n: int, k: int)
    requires
        k >= 0,
    ensures
        table_seg(n, k).len() == 4 * k,
    decreases k,
{
    if k > 0 {
        lemma_table_seg_len(n, k - 1);
    }
}

/// The length of the first `k` entry records.
pub proof fn lemma_recs_seg_len(es: Seq<EntryModel>, k: int)
    requires
        k >= 0,
    ensures
        recs_seg(es, k).len() == 20 * k,
    decreases k,
{
    if k > 0 {
        lemma_recs_seg_len(es, k - 1);
    }
}

/// The length of the first `k` flag blocks.
pub proof fn lemma_flags_seg_len(es: Seq<EntryModel>, k: int)
    requires
        k >= 0,
    ensures
        flags_seg(es, k).len() == 16 * k,
    decreases k,
{
    if k > 0 {
        lemma_flags_seg_len(es, k - 1);
    }
}

/// Alignment: the encoded content ends, and so the relocation footer
/// begins, at the padded end of content, which is always a multiple of
/// four.
pub proof fn lemma_footer_alignment(es: Seq<EntryModel>)
    ensures
        encoded_content(es).len() == padded_end(es),
        padded_end(es) % 4 == 0,
{
    let n = es.len() as int;
    lemma_table_seg_len(n, n);
    lemma_recs_seg_len(es, n);
    lemma_flags_seg_len(es, n);
    assert(header_seg(es).len() == 24);
    assert(pad_seg(es).len() == pad_len(es));
    assert(encoded_content(es).len() == content_end(es) + pad_len(es));
    let ce = content_end(es);
    assert(ce >= 0);
    let r = ce % 4;
    assert(0 <= r < 4);
    assert(ce == 4 * (ce / 4) + r);
    if r == 0 {
        assert(pad_len(es) == (4 - 0) % 4);
        assert(padded_end(es) == ce);
        assert(ce % 4 == 0);
    } else {
        assert(pad_len(es) == 4 - r);
        assert(padded_end(es) == 4 * (ce / 4) + 4);
        assert((4 * (ce / 4) + 4) % 4 == 0) by (nonlinear_arith);
    }
}

/// Header rejection: a stream whose first four bytes are not the magic tag
/// fails with exactly those bytes, before anything else is read.
pub proof fn lemma_header_rejection(b: Seq<u8>)
    requires
        b.len() >= 4,
        b.subrange(0, 4) != magic_bytes(),
    ensures
        decode_spec(b) == Err::<Seq<EntryModel>, ErrorModel>(
            ErrorModel::InvalidHeader(b.subrange(0, 4)),
        ),
{
}

/// String deduplication: each distinct string value is stored once. The
/// pools hold no value twice, every entry's string is in its pool, and —
/// because an entry field's offset is a function of the string value alone
/// — entries sharing a value resolve to the same offset.
pub proof fn lemma_string_dedup(es: Seq<EntryModel>)
    ensures
        forall|i: int, j: int|
            #![trigger wide_pool(es)[i], wide_pool(es)[j]]
            0 <= i < j < wide_pool(es).len() ==> wide_pool(es)[i] != wide_pool(es)[j],
        forall|i: int, j: int|
            #![trigger narrow_pool(es)[i], narrow_pool(es)[j]]
            0 <= i < j < narrow_pool(es).len() ==> narrow_pool(es)[i] != narrow_pool(es)[j],
        forall|i: int|
            0 <= i < es.len() ==> wide_pool(es).contains(#[trigger] es[i].lua_path) && wide_pool(
                es,
            ).contains(es[i].plb_path),
        forall|i: int|
            0 <= i < es.len() ==> narrow_pool(es).contains(#[trigger] es[i].entity_name)
                && narrow_pool(es).contains(es[i].map_name),
{
    lemma_dedup_distinct(crate::layout::wide_list(es));
    lemma_dedup_distinct(crate::layout::narrow_list(es));
    lemma_field_lists(es);
    assert forall|i: int|
        0 <= i < es.len() implies wide_pool(es).contains(#[trigger] es[i].lua_path) && wide_pool(
        es,
    ).contains(es[i].plb_path) by {
        let wl = crate::layout::wide_list(es);
        assert(wl[2 * i] == es[i].lua_path);
        assert(wl[2 * i + 1] == es[i].plb_path);
        assert(wl.contains(es[i].lua_path));
        assert(wl.contains(es[i].plb_path));
        lemma_dedup_contains(wl, es[i].lua_path);
        lemma_dedup_contains(wl, es[i].plb_path);
    }
    assert forall|i: int|
        0 <= i < es.len() implies narrow_pool(es).contains(#[trigger] es[i].entity_name)
        && narrow_pool(es).contains(es[i].map_name) by {
        let nl = crate::layout::narrow_list(es);
        assert(nl[2 * i] == es[i].entity_name);
        assert(nl[2 * i + 1] == es[i].map_name);
        assert(nl.contains(es[i].entity_name));
        assert(nl.contains(es[i].map_name));
        lemma_dedup_contains(nl, es[i].entity_name);
        lemma_dedup_contains(nl, es[i].map_name);
    }
}

/// No flag sharing: every entry gets its own flag block, so the flag
/// pointers of two different entries always differ, even when the flag
/// values are identical.
pub proof fn lemma_no_flag_sharing(n: int, i: int, j: int)
    requires
        0 <= i < n,
        0 <= j < n,
        i != j,
    ensures
        flag_off(n, i) != flag_off(n, j),
{
}

} // verus!
