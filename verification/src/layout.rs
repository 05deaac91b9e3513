//! The encoder's byte layout, as spec functions over entry models: where
//! every segment of the stream lies, which bytes each one holds, and the
//! deduplicated string pools with the offset every entry field resolves to.
//!
//! The stream is laid out in this fixed order: a 16-byte header, an 8-byte
//! content header, the entry-pointer table, the five-field entry records,
//! one four-word flag block per entry, the wide string pool, the narrow
//! string pool, zero padding to a four-byte boundary, and the relocation
//! footer.

use crate::bytes::le32;
use crate::entry::EntryModel;
use crate::parse::magic_bytes;
use crate::text::units_le_bytes;
use vstd::prelude::*;

verus! {

/// Keeps the first occurrence of every value and drops later repeats.
pub open spec fn dedup<A>(l: Seq<A>) -> Seq<A>
    decreases l.len(),
{
    if l.len() == 0 {
        Seq::empty()
    } else {
        let d = dedup(l.drop_last());
        if l.drop_last().contains(l.last()) {
            d
        } else {
            d.push(l.last())
        }
    }
}

/// Deduplication keeps exactly the values that were there.
pub proof fn lemma_dedup_contains<A>(l: Seq<A>, x: A)
    ensures
        dedup(l).contains(x) <==> l.contains(x),
    decreases l.len(),
{
    if l.len() > 0 {
        let t = l.drop_last();
        lemma_dedup_contains(t, x);
        assert(l.contains(x) <==> (t.contains(x) || l.last() == x)) by {
            if l.contains(x) {
                let i = choose|i: int| 0 <= i < l.len() && l[i] == x;
                if i < l.len() - 1 {
                    assert(t[i] == x);
                }
            }
            if t.contains(x) {
                let i = choose|i: int| 0 <= i < t.len() && t[i] == x;
                assert(l[i] == x);
            }
            if l.last() == x {
                assert(l[l.len() - 1] == x);
            }
        }
        if !t.contains(l.last()) {
            let d = dedup(t);
            assert(d.push(l.last()).contains(x) <==> (d.contains(x) || l.last() == x)) by {
                if d.push(l.last()).contains(x) {
                    let i = choose|i: int| 0 <= i < d.len() + 1 && d.push(l.last())[i] == x;
                    if i < d.len() {
                        assert(d[i] == x);
                    }
                }
                if d.contains(x) {
                    let i = choose|i: int| 0 <= i < d.len() && d[i] == x;
                    assert(d.push(l.last())[i] == x);
                }
                assert(d.push(l.last())[d.len() as int] == l.last());
            }
        }
    }
}

/// A deduplicated sequence holds no value twice.
pub proof fn lemma_dedup_distinct<A>(l: Seq<A>)
    ensures
        forall|i: int, j: int|
            #![trigger dedup(l)[i], dedup(l)[j]]
            0 <= i < j < dedup(l).len() ==> dedup(l)[i] != dedup(l)[j],
    decreases l.len(),
{
    if l.len() > 0 {
        let t = l.drop_last();
        lemma_dedup_distinct(t);
        if !t.contains(l.last()) {
            lemma_dedup_contains(t, l.last());
            let d = dedup(t);
            assert forall|i: int, j: int|
                #![trigger d.push(l.last())[i], d.push(l.last())[j]]
                0 <= i < j < d.push(l.last()).len() implies d.push(l.last())[i] != d.push(
                l.last(),
            )[j] by {
                if j < d.len() {
                    assert(d[i] != d[j]);
                } else {
                    assert(d.push(l.last())[j] == l.last());
                    assert(d[i] != l.last()) by {
                        if d[i] == l.last() {
                            assert(d.contains(l.last()));
                        }
                    }
                }
            }
        }
    }
}

/// The on-disk bytes of one stored narrow string: its bytes, then a null.
pub open spec fn narrow_str_bytes(s: Seq<u8>) -> Seq<u8> {
    s + seq![0u8]
}

/// The on-disk bytes of one stored wide string: its units in little-endian
/// order, then a null unit.
pub open spec fn wide_str_bytes(s: Seq<u16>) -> Seq<u8> {
    units_le_bytes(s) + seq![0u8, 0u8]
}

/// The byte image of a sequence of units is two bytes per unit.
pub proof fn lemma_units_le_bytes_len(s: Seq<u16>)
    ensures
        units_le_bytes(s).len() == 2 * s.len(),
    decreases s.len(),
{
    if s.len() > 0 {
        lemma_units_le_bytes_len(s.drop_last());
    }
}

/// The bytes of a whole wide string pool, in pool order.
pub open spec fn pool_bytes_u16(p: Seq<Seq<u16>>) -> Seq<u8>
    decreases p.len(),
{
    if p.len() == 0 {
        Seq::empty()
    } else {
        wide_str_bytes(p[0]) + pool_bytes_u16(p.drop_first())
    }
}

/// The bytes of a whole narrow string pool, in pool order.
pub open spec fn pool_bytes_u8(p: Seq<Seq<u8>>) -> Seq<u8>
    decreases p.len(),
{
    if p.len() == 0 {
        Seq::empty()
    } else {
        narrow_str_bytes(p[0]) + pool_bytes_u8(p.drop_first())
    }
}

/// The byte offset, relative to the pool start, of the first copy of `s` in
/// a wide string pool.
pub open spec fn pool_off_u16(p: Seq<Seq<u16>>, s: Seq<u16>) -> int
    decreases p.len(),
{
    if p.len() == 0 {
        0
    } else if p[0] == s {
        0
    } else {
        wide_str_bytes(p[0]).len() + pool_off_u16(p.drop_first(), s)
    }
}

/// The byte offset, relative to the pool start, of the first copy of `s` in
/// a narrow string pool.
pub open spec fn pool_off_u8(p: Seq<Seq<u8>>, s: Seq<u8>) -> int
    decreases p.len(),
{
    if p.len() == 0 {
        0
    } else if p[0] == s {
        0
    } else {
        narrow_str_bytes(p[0]).len() + pool_off_u8(p.drop_first(), s)
    }
}

/// Skipping past `j` pool items that are not `s` adds exactly their bytes to
/// the offset of `s`.
pub proof fn lemma_pool_off_skip_u16(p: Seq<Seq<u16>>, s: Seq<u16>, j: int)
    requires
        0 <= j <= p.len(),
        forall|k: int| 0 <= k < j ==> p[k] != s,
    ensures
        pool_off_u16(p, s) == pool_bytes_u16(p.take(j)).len() + pool_off_u16(p.skip(j), s),
    decreases j,
{
    if j == 0 {
        assert(p.take(0) =~= Seq::<Seq<u16>>::empty());
        assert(p.skip(0) =~= p);
    } else {
        assert(p[0] != s);
        let q = p.drop_first();
        lemma_pool_off_skip_u16(q, s, j - 1);
        assert(q.take(j - 1) =~= p.take(j).drop_first());
        assert(q.skip(j - 1) =~= p.skip(j));
        assert(pool_bytes_u16(p.take(j)) == wide_str_bytes(p[0]) + pool_bytes_u16(
            p.take(j).drop_first(),
        ));
    }
}

/// Skipping past `j` pool items that are not `s` adds exactly their bytes to
/// the offset of `s`.
pub proof fn lemma_pool_off_skip_u8(p: Seq<Seq<u8>>, s: Seq<u8>, j: int)
    requires
        0 <= j <= p.len(),
        forall|k: int| 0 <= k < j ==> p[k] != s,
    ensures
        pool_off_u8(p, s) == pool_bytes_u8(p.take(j)).len() + pool_off_u8(p.skip(j), s),
    decreases j,
{
    if j == 0 {
        assert(p.take(0) =~= Seq::<Seq<u8>>::empty());
        assert(p.skip(0) =~= p);
    } else {
        assert(p[0] != s);
        let q = p.drop_first();
        lemma_pool_off_skip_u8(q, s, j - 1);
        assert(q.take(j - 1) =~= p.take(j).drop_first());
        assert(q.skip(j - 1) =~= p.skip(j));
        assert(pool_bytes_u8(p.take(j)) == narrow_str_bytes(p[0]) + pool_bytes_u8(
            p.take(j).drop_first(),
        ));
    }
}

/// The bytes of a pool split at any point are the bytes of the two parts.
pub proof fn lemma_pool_bytes_split_u16(p: Seq<Seq<u16>>, j: int)
    requires
        0 <= j <= p.len(),
    ensures
        pool_bytes_u16(p) == pool_bytes_u16(p.take(j)) + pool_bytes_u16(p.skip(j)),
    decreases j,
{
    if j == 0 {
        assert(p.take(0) =~= Seq::<Seq<u16>>::empty());
        assert(p.skip(0) =~= p);
        assert(pool_bytes_u16(p.take(0)) + pool_bytes_u16(p) =~= pool_bytes_u16(p));
    } else {
        let q = p.drop_first();
        lemma_pool_bytes_split_u16(q, j - 1);
        assert(q.take(j - 1) =~= p.take(j).drop_first());
        assert(q.skip(j - 1) =~= p.skip(j));
        assert(pool_bytes_u16(p.take(j)) == wide_str_bytes(p[0]) + pool_bytes_u16(
            p.take(j).drop_first(),
        ));
        assert(wide_str_bytes(p[0]) + (pool_bytes_u16(q.take(j - 1)) + pool_bytes_u16(
            q.skip(j - 1),
        )) =~= (wide_str_bytes(p[0]) + pool_bytes_u16(q.take(j - 1))) + pool_bytes_u16(
            q.skip(j - 1),
        ));
    }
}

/// The bytes of a pool split at any point are the bytes of the two parts.
pub proof fn lemma_pool_bytes_split_u8(p: Seq<Seq<u8>>, j: int)
    requires
        0 <= j <= p.len(),
    ensures
        pool_bytes_u8(p) == pool_bytes_u8(p.take(j)) + pool_bytes_u8(p.skip(j)),
    decreases j,
{
    if j == 0 {
        assert(p.take(0) =~= Seq::<Seq<u8>>::empty());
        assert(p.skip(0) =~= p);
        assert(pool_bytes_u8(p.take(0)) + pool_bytes_u8(p) =~= pool_bytes_u8(p));
    } else {
        let q = p.drop_first();
        lemma_pool_bytes_split_u8(q, j - 1);
        assert(q.take(j - 1) =~= p.take(j).drop_first());
        assert(q.skip(j - 1) =~= p.skip(j));
        assert(pool_bytes_u8(p.take(j)) == narrow_str_bytes(p[0]) + pool_bytes_u8(
            p.take(j).drop_first(),
        ));
        assert(narrow_str_bytes(p[0]) + (pool_bytes_u8(q.take(j - 1)) + pool_bytes_u8(
            q.skip(j - 1),
        )) =~= (narrow_str_bytes(p[0]) + pool_bytes_u8(q.take(j - 1))) + pool_bytes_u8(
            q.skip(j - 1),
        ));
    }
}

/// The wide strings of the entries, in field order: each entry contributes
/// its script path and then its placement path.
pub open spec fn wide_list(es: Seq<EntryModel>) -> Seq<Seq<u16>>
    decreases es.len(),
{
    if es.len() == 0 {
        Seq::empty()
    } else {
        wide_list(es.drop_last()) + seq![es.last().lua_path, es.last().plb_path]
    }
}

/// The narrow strings of the entries, in field order: each entry contributes
/// its entity name and then its map name.
pub open spec fn narrow_list(es: Seq<EntryModel>) -> Seq<Seq<u8>>
    decreases es.len(),
{
    if es.len() == 0 {
        Seq::empty()
    } else {
        narrow_list(es.drop_last()) + seq![es.last().entity_name, es.last().map_name]
    }
}

/// Where each entry's strings stand in the two field-order lists.
pub proof fn lemma_field_lists(es: Seq<EntryModel>)
    ensures
        wide_list(es).len() == 2 * es.len(),
        narrow_list(es).len() == 2 * es.len(),
        forall|i: int|
            0 <= i < es.len() ==> wide_list(es)[2 * i] == #[trigger] es[i].lua_path && wide_list(
                es,
            )[2 * i + 1] == es[i].plb_path,
        forall|i: int|
            0 <= i < es.len() ==> narrow_list(es)[2 * i] == #[trigger] es[i].entity_name
                && narrow_list(es)[2 * i + 1] == es[i].map_name,
    decreases es.len(),
{
    if es.len() > 0 {
        let t = es.drop_last();
        lemma_field_lists(t);
        let pair_w = seq![es.last().lua_path, es.last().plb_path];
        let pair_n = seq![es.last().entity_name, es.last().map_name];
        assert forall|i: int|
            0 <= i < es.len() implies wide_list(es)[2 * i] == #[trigger] es[i].lua_path
            && wide_list(es)[2 * i + 1] == es[i].plb_path by {
            if i < es.len() - 1 {
                assert(t[i] == es[i]);
                assert(wide_list(es)[2 * i] == wide_list(t)[2 * i]);
                assert(wide_list(es)[2 * i + 1] == wide_list(t)[2 * i + 1]);
            } else {
                assert(wide_list(es)[2 * i] == pair_w[0]);
                assert(wide_list(es)[2 * i + 1] == pair_w[1]);
            }
        }
        assert forall|i: int|
            0 <= i < es.len() implies narrow_list(es)[2 * i] == #[trigger] es[i].entity_name
            && narrow_list(es)[2 * i + 1] == es[i].map_name by {
            if i < es.len() - 1 {
                assert(t[i] == es[i]);
                assert(narrow_list(es)[2 * i] == narrow_list(t)[2 * i]);
                assert(narrow_list(es)[2 * i + 1] == narrow_list(t)[2 * i + 1]);
            } else {
                assert(narrow_list(es)[2 * i] == pair_n[0]);
                assert(narrow_list(es)[2 * i + 1] == pair_n[1]);
            }
        }
    }
}

/// The deduplicated wide string pool, in first-occurrence order.
pub open spec fn wide_pool(es: Seq<EntryModel>) -> Seq<Seq<u16>> {
    dedup(wide_list(es))
}

/// The deduplicated narrow string pool, in first-occurrence order.
pub open spec fn narrow_pool(es: Seq<EntryModel>) -> Seq<Seq<u8>> {
    dedup(narrow_list(es))
}

/// The absolute offset of the entry-pointer table.
pub open spec fn table_area() -> int {
    24
}

/// The absolute offset of the block of entry records.
pub open spec fn rec_area(n: int) -> int {
    24 + 4 * n
}

/// The absolute offset of entry `i`'s five-field record.
pub open spec fn rec_off(n: int, i: int) -> int {
    24 + 4 * n + 20 * i
}

/// The absolute offset of the block of flag words.
pub open spec fn flags_area(n: int) -> int {
    24 + 24 * n
}

/// The absolute offset of entry `i`'s four flag words.
pub open spec fn flag_off(n: int, i: int) -> int {
    24 + 24 * n + 16 * i
}

/// The absolute offset of the wide string pool.
pub open spec fn wide_area(n: int) -> int {
    24 + 40 * n
}

/// The absolute offset of the narrow string pool.
pub open spec fn narrow_area(es: Seq<EntryModel>) -> int {
    wide_area(es.len() as int) + pool_bytes_u16(wide_pool(es)).len()
}

/// The absolute offset a wide string value resolves to.
pub open spec fn wide_off(es: Seq<EntryModel>, s: Seq<u16>) -> int {
    wide_area(es.len() as int) + pool_off_u16(wide_pool(es), s)
}

/// The absolute offset a narrow string value resolves to.
pub open spec fn narrow_off(es: Seq<EntryModel>, s: Seq<u8>) -> int {
    narrow_area(es) + pool_off_u8(narrow_pool(es), s)
}

/// The absolute offset just past the last stored string.
pub open spec fn content_end(es: Seq<EntryModel>) -> int {
    narrow_area(es) + pool_bytes_u8(narrow_pool(es)).len()
}

/// How many zero bytes pad the content to a four-byte boundary.
pub open spec fn pad_len(es: Seq<EntryModel>) -> int {
    (4 - content_end(es) % 4) % 4
}

/// The absolute offset of the relocation footer: the padded end of content,
/// which the header's second offset field also records.
pub open spec fn padded_end(es: Seq<EntryModel>) -> int {
    content_end(es) + pad_len(es)
}

/// The 24 bytes through which every stream begins: the magic tag, the
/// content offset (always 16), the footer offset, four reserved bytes, the
/// entry count, and the entry-pointer-table offset (always 24).
pub open spec fn header_seg(es: Seq<EntryModel>) -> Seq<u8> {
    magic_bytes() + le32(16) + le32(padded_end(es) as u32) + seq![0u8, 0u8, 0u8, 0u8] + le32(
        es.len() as u32,
    ) + le32(24)
}

/// The first `k` slots of the entry-pointer table.
pub open spec fn table_seg(n: int, k: int) -> Seq<u8>
    decreases k,
{
    if k <= 0 {
        Seq::empty()
    } else {
        table_seg(n, k - 1) + le32(rec_off(n, k - 1) as u32)
    }
}

/// The five-field record of entry `i`: the offsets of its two narrow
/// strings, its two wide strings, and its flag block.
pub open spec fn rec_bytes(es: Seq<EntryModel>, i: int) -> Seq<u8> {
    le32(narrow_off(es, es[i].entity_name) as u32) + le32(narrow_off(es, es[i].map_name) as u32)
        + le32(wide_off(es, es[i].lua_path) as u32) + le32(wide_off(es, es[i].plb_path) as u32)
        + le32(flag_off(es.len() as int, i) as u32)
}

/// The records of the first `k` entries.
pub open spec fn recs_seg(es: Seq<EntryModel>, k: int) -> Seq<u8>
    decreases k,
{
    if k <= 0 {
        Seq::empty()
    } else {
        recs_seg(es, k - 1) + rec_bytes(es, k - 1)
    }
}

/// The four flag words of one entry.
pub open spec fn flag_bytes(e: EntryModel) -> Seq<u8> {
    le32(e.flags[0]) + le32(e.flags[1]) + le32(e.flags[2]) + le32(e.flags[3])
}

/// The flag blocks of the first `k` entries: one block per entry, never
/// shared.
pub open spec fn flags_seg(es: Seq<EntryModel>, k: int) -> Seq<u8>
    decreases k,
{
    if k <= 0 {
        Seq::empty()
    } else {
        flags_seg(es, k - 1) + flag_bytes(es[k - 1])
    }
}

/// The zero bytes that pad the content to a four-byte boundary.
pub open spec fn pad_seg(es: Seq<EntryModel>) -> Seq<u8> {
    Seq::new(pad_len(es) as nat, |i: int| 0u8)
}

/// Every byte of the stream before the relocation footer.
pub open spec fn encoded_content(es: Seq<EntryModel>) -> Seq<u8> {
    header_seg(es) + table_seg(es.len() as int, es.len() as int) + recs_seg(es, es.len() as int)
        + flags_seg(es, es.len() as int) + pool_bytes_u16(wide_pool(es)) + pool_bytes_u8(
        narrow_pool(es),
    ) + pad_seg(es)
}

/// The positions of the first `k` entry-pointer-table slots.
pub open spec fn table_ptrs(k: int) -> Seq<u32>
    decreases k,
{
    if k <= 0 {
        Seq::empty()
    } else {
        table_ptrs(k - 1).push((24 + 4 * (k - 1)) as u32)
    }
}

/// The positions of the five offset fields of each of the first `k` entry
/// records.
pub open spec fn rec_ptrs(n: int, k: int) -> Seq<u32>
    decreases k,
{
    if k <= 0 {
        Seq::empty()
    } else {
        rec_ptrs(n, k - 1) + seq![
            rec_off(n, k - 1) as u32,
            (rec_off(n, k - 1) + 4) as u32,
            (rec_off(n, k - 1) + 8) as u32,
            (rec_off(n, k - 1) + 12) as u32,
            (rec_off(n, k - 1) + 16) as u32,
        ]
    }
}

/// The positions of every field that holds an absolute offset, in stream
/// order: the two header offset fields, the table-offset field, every table
/// slot, and every record field.
pub open spec fn footer_ptrs(es: Seq<EntryModel>) -> Seq<u32> {
    seq![4u32, 8u32, 20u32] + table_ptrs(es.len() as int) + rec_ptrs(
        es.len() as int,
        es.len() as int,
    )
}

/// A stream this encoder can produce: all offsets fit in the 32-bit fields
/// that hold them.
pub open spec fn encodable(es: Seq<EntryModel>) -> bool {
    padded_end(es) < 0x1_0000_0000
}

/// The relocation footer an outside encoder appends for a given
/// non-decreasing list of offset-field positions; its exact bytes are that
/// encoder's own affair.
pub uninterp spec fn sir0_footer(ptrs: Seq<u32>) -> Seq<u8>;

/// The whole encoded stream: the content, then the relocation footer.
pub open spec fn encoded_bytes(es: Seq<EntryModel>) -> Seq<u8> {
    encoded_content(es) + sir0_footer(footer_ptrs(es))
}

/// A list of 32-bit values that never decreases.
pub open spec fn non_decreasing(s: Seq<u32>) -> bool {
    forall|i: int, j: int| 0 <= i <= j < s.len() ==> #[trigger] s[i] <= #[trigger] s[j]
}

} // verus!
