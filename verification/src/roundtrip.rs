//! The round-trip law: any well-formed, encodable record list decodes from
//! its own encoding, field for field and in order, whatever bytes follow
//! the content — in particular the relocation footer.

use crate::bytes::le16;
use crate::bytes::le32;
use crate::bytes::lemma_le16_roundtrip;
use crate::bytes::lemma_le32_roundtrip;
use crate::bytes::u16_at;
use crate::bytes::u32_at;
use crate::entry::EntryModel;
use crate::entry::ErrorModel;
use crate::entry::ScriptEntryList;
use crate::entry::lemma_entry_wf_model;
use crate::entry::list_wf;
use crate::entry::model_wf;
use crate::entry::models_wf;
use crate::entry::narrow_bytes_wf;
use crate::entry::wide_units_wf;
use crate::layout::content_end;
use crate::layout::encodable;
use crate::layout::encoded_bytes;
use crate::layout::encoded_content;
use crate::layout::flag_bytes;
use crate::layout::flag_off;
use crate::layout::flags_seg;
use crate::layout::header_seg;
use crate::layout::narrow_area;
use crate::layout::narrow_off;
use crate::layout::narrow_pool;
use crate::layout::narrow_str_bytes;
use crate::layout::pool_bytes_u16;
use crate::layout::pool_bytes_u8;
use crate::layout::pool_off_u16;
use crate::layout::pool_off_u8;
use crate::layout::rec_bytes;
use crate::layout::rec_off;
use crate::layout::recs_seg;
use crate::layout::table_seg;
use crate::layout::wide_area;
use crate::layout::wide_off;
use crate::layout::wide_pool;
use crate::layout::wide_str_bytes;
use crate::laws::lemma_flags_seg_len;
use crate::laws::lemma_footer_alignment;
use crate::laws::lemma_recs_seg_len;
use crate::laws::lemma_string_dedup;
use crate::laws::lemma_table_seg_len;
use crate::parse::decode_entries;
use crate::parse::decode_entry;
use crate::parse::decode_spec;
use crate::parse::magic_bytes;
use crate::parse::read_flags;
use crate::parse::read_narrow_str;
use crate::parse::read_wide_str;
use crate::text::units_le_bytes;
use vstd::prelude::*;

verus! {

/// The byte image of a unit sequence starts with its first unit.
pub proof fn lemma_units_le_first(s: Seq<u16>)
    requires
        s.len() > 0,
    ensures
        units_le_bytes(s) == le16(s[0]) + units_le_bytes(s.drop_first()),
    decreases s.len(),
{
    if s.len() == 1 {
        assert(s.drop_last() =~= Seq::<u16>::empty());
        assert(s.drop_first() =~= Seq::<u16>::empty());
        assert(units_le_bytes(s) =~= le16(s[0]) + units_le_bytes(s.drop_first()));
    } else {
        let t = s.drop_last();
        lemma_units_le_first(t);
        assert(t[0] == s[0]);
        assert(t.drop_first() =~= s.drop_first().drop_last());
        assert(s.drop_first().last() == s.last());
        assert(units_le_bytes(s.drop_first()) == units_le_bytes(s.drop_first().drop_last())
            + le16(s.last()));
        assert(units_le_bytes(s) =~= le16(s[0]) + units_le_bytes(s.drop_first()));
    }
}

/// A null-terminated narrow string image at `off` reads back as the string.
pub proof fn lemma_read_narrow_at(b: Seq<u8>, off: int, s: Seq<u8>)
    requires
        narrow_bytes_wf(s),
        0 <= off,
        off + s.len() + 1 <= b.len(),
        b.subrange(off, off + s.len() + 1) == narrow_str_bytes(s),
    ensures
        read_narrow_str(b, off) == Ok::<Seq<u8>, ErrorModel>(s),
    decreases s.len(),
{
    let img = narrow_str_bytes(s);
    if s.len() == 0 {
        assert(b[off] == img[0]);
        assert(b[off] == 0);
        assert(s =~= Seq::<u8>::empty());
        assert(read_narrow_str(b, off) == Ok::<Seq<u8>, ErrorModel>(s));
    } else {
        assert(b[off] == img[0]);
        assert(img[0] == s[0]);
        assert(1 <= s[0] < 128);
        let t = s.drop_first();
        assert(narrow_bytes_wf(t));
        assert(b.subrange(off + 1, off + 1 + t.len() + 1) =~= narrow_str_bytes(t)) by {
            assert forall|q: int| 0 <= q < t.len() + 1 implies b.subrange(
                off + 1,
                off + 1 + t.len() + 1,
            )[q] == narrow_str_bytes(t)[q] by {
                assert(b[off + 1 + q] == img[1 + q]);
            }
        }
        lemma_read_narrow_at(b, off + 1, t);
        assert(read_narrow_str(b, off) == Ok::<Seq<u8>, ErrorModel>(seq![b[off]] + t));
        assert(seq![b[off]] + t =~= s);
    }
}

/// A null-terminated wide string image at `off` reads back as the units.
pub proof fn lemma_read_wide_at(b: Seq<u8>, off: int, s: Seq<u16>)
    requires
        wide_units_wf(s),
        0 <= off,
        off + 2 * s.len() + 2 <= b.len(),
        b.subrange(off, off + 2 * s.len() + 2) == wide_str_bytes(s),
    ensures
        read_wide_str(b, off) == Ok::<Seq<u16>, ErrorModel>(s),
    decreases s.len(),
{
    let img = wide_str_bytes(s);
    crate::layout::lemma_units_le_bytes_len(s);
    if s.len() == 0 {
        assert(units_le_bytes(s) =~= Seq::<u8>::empty());
        assert(img =~= seq![0u8, 0u8]);
        assert(b[off] == img[0] && b[off + 1] == img[1]);
        let ba: u8 = b[off];
        let bb: u8 = b[off + 1];
        assert(((ba as u16) | ((bb as u16) << 8)) == 0) by (bit_vector)
            requires
                ba == 0,
                bb == 0,
        ;
        assert(u16_at(b, off) == 0);
        assert(s =~= Seq::<u16>::empty());
        assert(read_wide_str(b, off) == Ok::<Seq<u16>, ErrorModel>(s));
    } else {
        lemma_units_le_first(s);
        assert(img == (le16(s[0]) + units_le_bytes(s.drop_first())) + seq![0u8, 0u8]);
        assert(b.subrange(off, off + 2) =~= le16(s[0])) by {
            assert(b[off] == img[0]);
            assert(b[off + 1] == img[1]);
            assert(img[0] == le16(s[0])[0] && img[1] == le16(s[0])[1]);
        }
        lemma_le16_roundtrip(b, off, s[0]);
        assert(u16_at(b, off) == s[0]);
        assert(s[0] != 0 && !(0xD800 <= s[0] < 0xE000));
        let t = s.drop_first();
        assert(wide_units_wf(t));
        crate::layout::lemma_units_le_bytes_len(t);
        assert(b.subrange(off + 2, off + 2 + 2 * t.len() + 2) =~= wide_str_bytes(t)) by {
            assert forall|q: int| 0 <= q < 2 * t.len() + 2 implies b.subrange(
                off + 2,
                off + 2 + 2 * t.len() + 2,
            )[q] == wide_str_bytes(t)[q] by {
                assert(b[off + 2 + q] == img[2 + q]);
            }
        }
        lemma_read_wide_at(b, off + 2, t);
        assert(read_wide_str(b, off) == Ok::<Seq<u16>, ErrorModel>(seq![u16_at(b, off)] + t));
        assert(seq![u16_at(b, off)] + t =~= s);
    }
}

/// A string the narrow pool holds lies in the pool's bytes at its offset.
pub proof fn lemma_pool_sub_u8(p: Seq<Seq<u8>>, s: Seq<u8>)
    requires
        p.contains(s),
    ensures
        0 <= pool_off_u8(p, s),
        pool_off_u8(p, s) + s.len() + 1 <= pool_bytes_u8(p).len(),
        pool_bytes_u8(p).subrange(pool_off_u8(p, s), pool_off_u8(p, s) + s.len() + 1)
            == narrow_str_bytes(s),
    decreases p.len(),
{
    if p[0] == s {
        assert(pool_bytes_u8(p).subrange(0, s.len() as int + 1) =~= narrow_str_bytes(s));
    } else {
        let q = p.drop_first();
        assert(q.contains(s)) by {
            let w = choose|w: int| 0 <= w < p.len() && p[w] == s;
            assert(q[w - 1] == s);
        }
        lemma_pool_sub_u8(q, s);
        let sz = narrow_str_bytes(p[0]).len() as int;
        let off = pool_off_u8(q, s);
        assert(pool_bytes_u8(p).subrange(sz + off, sz + off + s.len() + 1) =~= pool_bytes_u8(
            q,
        ).subrange(off, off + s.len() + 1));
    }
}

/// A string the wide pool holds lies in the pool's bytes at its offset.
pub proof fn lemma_pool_sub_u16(p: Seq<Seq<u16>>, s: Seq<u16>)
    requires
        p.contains(s),
    ensures
        0 <= pool_off_u16(p, s),
        pool_off_u16(p, s) + 2 * s.len() + 2 <= pool_bytes_u16(p).len(),
        pool_bytes_u16(p).subrange(pool_off_u16(p, s), pool_off_u16(p, s) + 2 * s.len() + 2)
            == wide_str_bytes(s),
    decreases p.len(),
{
    crate::layout::lemma_units_le_bytes_len(s);
    if p[0] == s {
        assert(pool_bytes_u16(p).subrange(0, 2 * (s.len() as int) + 2) =~= wide_str_bytes(s));
    } else {
        crate::layout::lemma_units_le_bytes_len(p[0]);
        let q = p.drop_first();
        assert(q.contains(s)) by {
            let w = choose|w: int| 0 <= w < p.len() && p[w] == s;
            assert(q[w - 1] == s);
        }
        lemma_pool_sub_u16(q, s);
        let sz = wide_str_bytes(p[0]).len() as int;
        let off = pool_off_u16(q, s);
        assert(pool_bytes_u16(p).subrange(sz + off, sz + off + 2 * s.len() + 2)
            =~= pool_bytes_u16(q).subrange(off, off + 2 * s.len() + 2));
    }
}

/// Each slot of the entry-pointer table holds its record's offset.
pub proof fn lemma_table_seg_sub(n: int, k: int, i: int)
    requires
        0 <= i < k,
    ensures
        table_seg(n, k).subrange(4 * i, 4 * i + 4) == le32(rec_off(n, i) as u32),
    decreases k,
{
    lemma_table_seg_len(n, k);
    lemma_table_seg_len(n, k - 1);
    if i == k - 1 {
        assert(table_seg(n, k).subrange(4 * i, 4 * i + 4) =~= le32(rec_off(n, i) as u32));
    } else {
        lemma_table_seg_sub(n, k - 1, i);
        assert(table_seg(n, k).subrange(4 * i, 4 * i + 4) =~= table_seg(n, k - 1).subrange(
            4 * i,
            4 * i + 4,
        ));
    }
}

/// Each record of the record block is its entry's five fields.
pub proof fn lemma_recs_seg_sub(es: Seq<EntryModel>, k: int, i: int)
    requires
        0 <= i < k,
    ensures
        recs_seg(es, k).subrange(20 * i, 20 * i + 20) == rec_bytes(es, i),
    decreases k,
{
    lemma_recs_seg_len(es, k);
    lemma_recs_seg_len(es, k - 1);
    if i == k - 1 {
        assert(recs_seg(es, k).subrange(20 * i, 20 * i + 20) =~= rec_bytes(es, i));
    } else {
        lemma_recs_seg_sub(es, k - 1, i);
        assert(recs_seg(es, k).subrange(20 * i, 20 * i + 20) =~= recs_seg(es, k - 1).subrange(
            20 * i,
            20 * i + 20,
        ));
    }
}

/// Each block of the flag area is its entry's four words.
pub proof fn lemma_flags_seg_sub(es: Seq<EntryModel>, k: int, i: int)
    requires
        0 <= i < k,
    ensures
        flags_seg(es, k).subrange(16 * i, 16 * i + 16) == flag_bytes(es[i]),
    decreases k,
{
    lemma_flags_seg_len(es, k);
    lemma_flags_seg_len(es, k - 1);
    if i == k - 1 {
        assert(flags_seg(es, k).subrange(16 * i, 16 * i + 16) =~= flag_bytes(es[i]));
    } else {
        lemma_flags_seg_sub(es, k - 1, i);
        assert(flags_seg(es, k).subrange(16 * i, 16 * i + 16) =~= flags_seg(es, k - 1).subrange(
            16 * i,
            16 * i + 16,
        ));
    }
}

/// A window inside a known region of `b` is the same window of that
/// region's bytes.
pub proof fn lemma_subrange_chain(b: Seq<u8>, a: int, l: int, x: int, y: int)
    requires
        0 <= a,
        a + l <= b.len(),
        0 <= x <= y <= l,
    ensures
        b.subrange(a + x, a + y) == b.subrange(a, a + l).subrange(x, y),
{
    assert(b.subrange(a + x, a + y) =~= b.subrange(a, a + l).subrange(x, y));
}

/// A window inside a known slice of `seg` is the same window of that
/// slice.
pub proof fn lemma_subrange_chain_on(seg: Seq<u8>, a: int, l: int, x: int, y: int)
    requires
        0 <= a,
        a + l <= seg.len(),
        0 <= x <= y <= l,
    ensures
        seg.subrange(a + x, a + y) == seg.subrange(a, a + l).subrange(x, y),
{
    assert(seg.subrange(a + x, a + y) =~= seg.subrange(a, a + l).subrange(x, y));
}

/// Where every region of the encoded content lies in the final stream,
/// whatever bytes follow the content.
pub proof fn lemma_regions(es: Seq<EntryModel>, extra: Seq<u8>)
    ensures
        ({
            let b = encoded_content(es) + extra;
            let n = es.len() as int;
            &&& b.len() == crate::layout::padded_end(es) + extra.len()
            &&& b.subrange(0, 24) == header_seg(es)
            &&& b.subrange(24, 24 + 4 * n) == table_seg(n, n)
            &&& b.subrange(24 + 4 * n, 24 + 24 * n) == recs_seg(es, n)
            &&& b.subrange(24 + 24 * n, 24 + 40 * n) == flags_seg(es, n)
            &&& b.subrange(wide_area(n), narrow_area(es)) == pool_bytes_u16(wide_pool(es))
            &&& b.subrange(narrow_area(es), content_end(es)) == pool_bytes_u8(narrow_pool(es))
        }),
{
    let b = encoded_content(es) + extra;
    let n = es.len() as int;
    lemma_footer_alignment(es);
    lemma_table_seg_len(n, n);
    lemma_recs_seg_len(es, n);
    lemma_flags_seg_len(es, n);
    assert(header_seg(es).len() == 24);
    assert(b.subrange(0, 24) =~= header_seg(es));
    assert(b.subrange(24, 24 + 4 * n) =~= table_seg(n, n));
    assert(b.subrange(24 + 4 * n, 24 + 24 * n) =~= recs_seg(es, n));
    assert(b.subrange(24 + 24 * n, 24 + 40 * n) =~= flags_seg(es, n));
    assert(b.subrange(wide_area(n), narrow_area(es)) =~= pool_bytes_u16(wide_pool(es)));
    assert(b.subrange(narrow_area(es), content_end(es)) =~= pool_bytes_u8(narrow_pool(es)));
}

/// The five offset fields of entry `i`'s record, as the decoder reads them.
#[verifier::rlimit(100)]
pub proof fn lemma_rec_fields(es: Seq<EntryModel>, extra: Seq<u8>, i: int)
    requires
        models_wf(es),
        encodable(es),
        0 <= i < es.len(),
    ensures
        ({
            let b = encoded_content(es) + extra;
            let n = es.len() as int;
            let p = rec_off(n, i);
            &&& u32_at(b, p) as int == narrow_off(es, es[i].entity_name)
            &&& u32_at(b, p + 4) as int == narrow_off(es, es[i].map_name)
            &&& u32_at(b, p + 8) as int == wide_off(es, es[i].lua_path)
            &&& u32_at(b, p + 12) as int == wide_off(es, es[i].plb_path)
            &&& u32_at(b, p + 16) as int == flag_off(n, i)
        }),
{
    let b = encoded_content(es) + extra;
    let n = es.len() as int;
    let p = rec_off(n, i);
    lemma_regions(es, extra);
    lemma_recs_seg_sub(es, n, i);
    lemma_recs_seg_len(es, n);
    lemma_string_dedup(es);
    let e = es[i];
    let rb = rec_bytes(es, i);
    let recs = recs_seg(es, n);
    let eo = narrow_off(es, e.entity_name);
    let mo = narrow_off(es, e.map_name);
    let lo = wide_off(es, e.lua_path);
    let po = wide_off(es, e.plb_path);
    let fo = flag_off(n, i);
    lemma_pool_sub_u8(narrow_pool(es), e.entity_name);
    lemma_pool_sub_u8(narrow_pool(es), e.map_name);
    lemma_pool_sub_u16(wide_pool(es), e.lua_path);
    lemma_pool_sub_u16(wide_pool(es), e.plb_path);
    assert(rb.subrange(0, 4) =~= le32(eo as u32));
    assert(rb.subrange(4, 8) =~= le32(mo as u32));
    assert(rb.subrange(8, 12) =~= le32(lo as u32));
    assert(rb.subrange(12, 16) =~= le32(po as u32));
    assert(rb.subrange(16, 20) =~= le32(fo as u32));
    lemma_subrange_chain(b, 24 + 4 * n, 20 * n, 20 * i, 20 * i + 4);
    lemma_subrange_chain(b, 24 + 4 * n, 20 * n, 20 * i + 4, 20 * i + 8);
    lemma_subrange_chain(b, 24 + 4 * n, 20 * n, 20 * i + 8, 20 * i + 12);
    lemma_subrange_chain(b, 24 + 4 * n, 20 * n, 20 * i + 12, 20 * i + 16);
    lemma_subrange_chain(b, 24 + 4 * n, 20 * n, 20 * i + 16, 20 * i + 20);
    lemma_subrange_chain_on(recs, 20 * i, 20, 0, 4);
    lemma_subrange_chain_on(recs, 20 * i, 20, 4, 8);
    lemma_subrange_chain_on(recs, 20 * i, 20, 8, 12);
    lemma_subrange_chain_on(recs, 20 * i, 20, 12, 16);
    lemma_subrange_chain_on(recs, 20 * i, 20, 16, 20);
    assert(b.subrange(p, p + 4) == rb.subrange(0, 4));
    assert(b.subrange(p + 4, p + 8) == rb.subrange(4, 8));
    assert(b.subrange(p + 8, p + 12) == rb.subrange(8, 12));
    assert(b.subrange(p + 12, p + 16) == rb.subrange(12, 16));
    assert(b.subrange(p + 16, p + 20) == rb.subrange(16, 20));
    lemma_le32_roundtrip(b, p, eo as u32);
    lemma_le32_roundtrip(b, p + 4, mo as u32);
    lemma_le32_roundtrip(b, p + 8, lo as u32);
    lemma_le32_roundtrip(b, p + 12, po as u32);
    lemma_le32_roundtrip(b, p + 16, fo as u32);
}

/// A narrow string the pool holds reads back from its absolute offset.
pub proof fn lemma_narrow_read(es: Seq<EntryModel>, extra: Seq<u8>, s: Seq<u8>)
    requires
        encodable(es),
        narrow_bytes_wf(s),
        narrow_pool(es).contains(s),
    ensures
        read_narrow_str(encoded_content(es) + extra, narrow_off(es, s)) == Ok::<
            Seq<u8>,
            ErrorModel,
        >(s),
{
    let b = encoded_content(es) + extra;
    lemma_regions(es, extra);
    lemma_pool_sub_u8(narrow_pool(es), s);
    let npool = pool_bytes_u8(narrow_pool(es));
    let noff = pool_off_u8(narrow_pool(es), s);
    lemma_subrange_chain(b, narrow_area(es), npool.len() as int, noff, noff + s.len() + 1);
    lemma_read_narrow_at(b, narrow_off(es, s), s);
}

/// A wide string the pool holds reads back from its absolute offset.
pub proof fn lemma_wide_read(es: Seq<EntryModel>, extra: Seq<u8>, s: Seq<u16>)
    requires
        encodable(es),
        wide_units_wf(s),
        wide_pool(es).contains(s),
    ensures
        read_wide_str(encoded_content(es) + extra, wide_off(es, s)) == Ok::<
            Seq<u16>,
            ErrorModel,
        >(s),
{
    let b = encoded_content(es) + extra;
    let n = es.len() as int;
    lemma_regions(es, extra);
    lemma_pool_sub_u16(wide_pool(es), s);
    let wpool = pool_bytes_u16(wide_pool(es));
    let woff = pool_off_u16(wide_pool(es), s);
    lemma_subrange_chain(b, wide_area(n), wpool.len() as int, woff, woff + 2 * s.len() + 2);
    lemma_read_wide_at(b, wide_off(es, s), s);
}

/// Entry `i`'s four flag words read back from its own flag block.
#[verifier::rlimit(100)]
pub proof fn lemma_flags_read(es: Seq<EntryModel>, extra: Seq<u8>, i: int)
    requires
        models_wf(es),
        encodable(es),
        0 <= i < es.len(),
    ensures
        read_flags(encoded_content(es) + extra, flag_off(es.len() as int, i)) == Ok::<
            Seq<u32>,
            ErrorModel,
        >(es[i].flags),
{
    let b = encoded_content(es) + extra;
    let n = es.len() as int;
    let fo = flag_off(n, i);
    lemma_regions(es, extra);
    lemma_flags_seg_sub(es, n, i);
    lemma_flags_seg_len(es, n);
    let e = es[i];
    let fb = flag_bytes(e);
    let fseg = flags_seg(es, n);
    assert(fb.subrange(0, 4) =~= le32(e.flags[0]));
    assert(fb.subrange(4, 8) =~= le32(e.flags[1]));
    assert(fb.subrange(8, 12) =~= le32(e.flags[2]));
    assert(fb.subrange(12, 16) =~= le32(e.flags[3]));
    lemma_subrange_chain(b, 24 + 24 * n, 16 * n, 16 * i, 16 * i + 4);
    lemma_subrange_chain(b, 24 + 24 * n, 16 * n, 16 * i + 4, 16 * i + 8);
    lemma_subrange_chain(b, 24 + 24 * n, 16 * n, 16 * i + 8, 16 * i + 12);
    lemma_subrange_chain(b, 24 + 24 * n, 16 * n, 16 * i + 12, 16 * i + 16);
    lemma_subrange_chain_on(fseg, 16 * i, 16, 0, 4);
    lemma_subrange_chain_on(fseg, 16 * i, 16, 4, 8);
    lemma_subrange_chain_on(fseg, 16 * i, 16, 8, 12);
    lemma_subrange_chain_on(fseg, 16 * i, 16, 12, 16);
    assert(b.subrange(fo, fo + 4) == fb.subrange(0, 4));
    assert(b.subrange(fo + 4, fo + 8) == fb.subrange(4, 8));
    assert(b.subrange(fo + 8, fo + 12) == fb.subrange(8, 12));
    assert(b.subrange(fo + 12, fo + 16) == fb.subrange(12, 16));
    lemma_le32_roundtrip(b, fo, e.flags[0]);
    lemma_le32_roundtrip(b, fo + 4, e.flags[1]);
    lemma_le32_roundtrip(b, fo + 8, e.flags[2]);
    lemma_le32_roundtrip(b, fo + 12, e.flags[3]);
    assert(seq![u32_at(b, fo), u32_at(b, fo + 4), u32_at(b, fo + 8), u32_at(b, fo + 12)]
        =~= e.flags);
}

/// One entry of an encodable list decodes from its record offset.
#[verifier::rlimit(100)]
pub proof fn lemma_entry_round(es: Seq<EntryModel>, extra: Seq<u8>, i: int)
    requires
        models_wf(es),
        encodable(es),
        0 <= i < es.len(),
    ensures
        decode_entry(encoded_content(es) + extra, rec_off(es.len() as int, i)) == Ok::<
            EntryModel,
            ErrorModel,
        >(es[i]),
{
    let b = encoded_content(es) + extra;
    let n = es.len() as int;
    let p = rec_off(n, i);
    let e = es[i];
    lemma_regions(es, extra);
    lemma_string_dedup(es);
    lemma_rec_fields(es, extra, i);
    lemma_pool_sub_u8(narrow_pool(es), e.entity_name);
    lemma_pool_sub_u8(narrow_pool(es), e.map_name);
    lemma_pool_sub_u16(wide_pool(es), e.lua_path);
    lemma_pool_sub_u16(wide_pool(es), e.plb_path);
    lemma_narrow_read(es, extra, e.entity_name);
    lemma_narrow_read(es, extra, e.map_name);
    lemma_wide_read(es, extra, e.lua_path);
    lemma_wide_read(es, extra, e.plb_path);
    lemma_flags_read(es, extra, i);
    assert(p >= 0 && p + 20 <= 24 + 24 * n <= content_end(es) <= b.len());
    assert(decode_entry(b, p) == Ok::<EntryModel, ErrorModel>(e)) by {
        let got = decode_entry(b, p)->Ok_0;
        assert(got.entity_name == e.entity_name);
        assert(got.map_name == e.map_name);
        assert(got.lua_path == e.lua_path);
        assert(got.plb_path == e.plb_path);
        assert(got.flags == e.flags);
    }
}

/// Each slot of the entry-pointer table reads back as its record's offset.
#[verifier::rlimit(100)]
pub proof fn lemma_table_slot(es: Seq<EntryModel>, extra: Seq<u8>, i: int)
    requires
        encodable(es),
        0 <= i < es.len(),
    ensures
        u32_at(encoded_content(es) + extra, 24 + 4 * i) as int == rec_off(es.len() as int, i),
{
    let b = encoded_content(es) + extra;
    let n = es.len() as int;
    lemma_regions(es, extra);
    lemma_table_seg_len(n, n);
    lemma_table_seg_sub(n, n, i);
    let slot = rec_off(n, i);
    assert(slot >= 0 && slot + 20 <= 24 + 24 * n <= content_end(es) < 0x1_0000_0000);
    lemma_subrange_chain(b, 24, 4 * n, 4 * i, 4 * i + 4);
    assert(b.subrange(24 + 4 * i, 24 + 4 * i + 4) == le32(slot as u32));
    lemma_le32_roundtrip(b, 24 + 4 * i, slot as u32);
}

/// The first `k` entries of an encodable list decode from the table.
#[verifier::rlimit(100)]
pub proof fn lemma_entries_round(es: Seq<EntryModel>, extra: Seq<u8>, k: int)
    requires
        models_wf(es),
        encodable(es),
        0 <= k <= es.len(),
    ensures
        decode_entries(encoded_content(es) + extra, 24, k as nat) == Ok::<
            Seq<EntryModel>,
            ErrorModel,
        >(es.take(k)),
    decreases k,
{
    let b = encoded_content(es) + extra;
    let n = es.len() as int;
    if k == 0 {
        assert(es.take(0) =~= Seq::<EntryModel>::empty());
    } else {
        lemma_entries_round(es, extra, k - 1);
        lemma_table_slot(es, extra, k - 1);
        assert(u32_at(b, 24 + 4 * (k - 1)) as int == rec_off(n, k - 1));
        lemma_entry_round(es, extra, k - 1);
        assert(es.take(k) =~= es.take(k - 1).push(es[k - 1]));
    }
}

/// Round trip: decoding the encoded content of a well-formed, encodable
/// list — with anything at all appended after the content, such as the
/// relocation footer — yields the list itself, field for field and in the
/// same entry order.
pub proof fn lemma_round_trip(es: Seq<EntryModel>, extra: Seq<u8>)
    requires
        models_wf(es),
        encodable(es),
    ensures
        decode_spec(encoded_content(es) + extra) == Ok::<Seq<EntryModel>, ErrorModel>(es),
{
    let b = encoded_content(es) + extra;
    let n = es.len() as int;
    lemma_regions(es, extra);
    assert(b.len() >= 24);
    assert(b.subrange(0, 4) =~= magic_bytes()) by {
        assert(b.subrange(0, 4) =~= header_seg(es).subrange(0, 4));
        assert(header_seg(es).subrange(0, 4) =~= magic_bytes());
    }
    assert(b.subrange(4, 8) =~= le32(16)) by {
        assert(b.subrange(4, 8) =~= header_seg(es).subrange(4, 8));
        assert(header_seg(es).subrange(4, 8) =~= le32(16));
    }
    lemma_le32_roundtrip(b, 4, 16);
    assert(b.subrange(16, 20) =~= le32(n as u32)) by {
        assert(b.subrange(16, 20) =~= header_seg(es).subrange(16, 20));
        assert(header_seg(es).subrange(16, 20) =~= le32(n as u32));
    }
    lemma_le32_roundtrip(b, 16, n as u32);
    assert(n < 0x1_0000_0000);
    assert(u32_at(b, 16) as int == n);
    assert(b.subrange(20, 24) =~= le32(24)) by {
        assert(b.subrange(20, 24) =~= header_seg(es).subrange(20, 24));
        assert(header_seg(es).subrange(20, 24) =~= le32(24));
    }
    lemma_le32_roundtrip(b, 20, 24);
    assert(24 + 4 * n <= content_end(es) <= b.len());
    lemma_entries_round(es, extra, n);
    assert(es.take(n) =~= es);
}

/// The round trip through the full stream: the encoded bytes, relocation
/// footer included, decode to the original list.
pub proof fn lemma_round_trip_encoded(es: Seq<EntryModel>)
    requires
        models_wf(es),
        encodable(es),
    ensures
        decode_spec(encoded_bytes(es)) == Ok::<Seq<EntryModel>, ErrorModel>(es),
{
    lemma_round_trip(es, crate::layout::sir0_footer(crate::layout::footer_ptrs(es)));
}

/// Round trip at the record-list level: the stream the encoder writes for
/// a well-formed, encodable list decodes back to that list, field for
/// field and in the same entry order.
pub proof fn lemma_round_trip_records(l: ScriptEntryList)
    requires
        list_wf(l),
        encodable(l@),
    ensures
        models_wf(l@),
        decode_spec(encoded_bytes(l@)) == Ok::<Seq<EntryModel>, ErrorModel>(l@),
{
    assert forall|i: int| 0 <= i < l@.len() implies model_wf(#[trigger] l@[i]) by {
        assert(l@[i] == l.entries@[i]@);
        lemma_entry_wf_model(l.entries@[i]);
    }
    lemma_round_trip_encoded(l@);
}

} // verus!
