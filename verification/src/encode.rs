//! The encoder: builds the first-occurrence-ordered string pools, computes
//! every offset of the fixed layout, writes the stream front to back, and
//! hands the positions of all offset-valued fields to the container's
//! relocation-footer encoder.

use crate::bytes::push_le32;
use crate::entry::EntryModel;
use crate::entry::ScriptEntryList;
use crate::entry::ScriptEntryListError;
use crate::entry::entry_wf;
use crate::entry::list_wf;
use crate::entry::narrow_str_wf;
use crate::entry::narrow_view;
use crate::entry::wide_str_wf;
use crate::entry::wide_view;
use crate::layout::content_end;
use crate::layout::dedup;
use crate::layout::encodable;
use crate::layout::encoded_bytes;
use crate::layout::encoded_content;
use crate::layout::flag_off;
use crate::layout::flags_seg;
use crate::layout::footer_ptrs;
use crate::layout::header_seg;
use crate::layout::lemma_dedup_contains;
use crate::layout::lemma_field_lists;
use crate::layout::lemma_pool_bytes_split_u16;
use crate::layout::lemma_pool_bytes_split_u8;
use crate::layout::lemma_pool_off_skip_u16;
use crate::layout::lemma_pool_off_skip_u8;
use crate::layout::lemma_units_le_bytes_len;
use crate::layout::narrow_area;
use crate::layout::narrow_list;
use crate::layout::narrow_off;
use crate::layout::narrow_pool;
use crate::layout::narrow_str_bytes;
use crate::layout::non_decreasing;
use crate::layout::pad_len;
use crate::layout::pad_seg;
use crate::layout::padded_end;
use crate::layout::pool_bytes_u16;
use crate::layout::pool_bytes_u8;
use crate::layout::pool_off_u16;
use crate::layout::pool_off_u8;
use crate::layout::rec_ptrs;
use crate::layout::recs_seg;
use crate::layout::sir0_footer;
use crate::layout::table_ptrs;
use crate::layout::table_seg;
use crate::layout::wide_area;
use crate::layout::wide_list;
use crate::layout::wide_off;
use crate::layout::wide_pool;
use crate::layout::wide_str_bytes;
use crate::text::lemma_utf16_units_single;
use crate::text::units_le_bytes;
use crate::text::string_to_utf16;
use vstd::prelude::*;
use vstd::string::StringSliceAdditionalSpecFns;

verus! {

/// The code-unit views of a pool of wide strings.
pub open spec fn wide_pool_units(p: Seq<String>) -> Seq<Seq<u16>> {
    p.map_values(|t: String| wide_view(t@))
}

/// The code-unit views of a pool of narrow strings.
pub open spec fn narrow_pool_units(p: Seq<String>) -> Seq<Seq<u8>> {
    p.map_values(|t: String| narrow_view(t@))
}

/// Every string of a wide pool is well-formed wide text.
pub open spec fn wide_pool_wf(p: Seq<String>) -> bool {
    forall|k: int| 0 <= k < p.len() ==> wide_str_wf(#[trigger] p[k]@)
}

/// Every string of a narrow pool is well-formed narrow text.
pub open spec fn narrow_pool_wf(p: Seq<String>) -> bool {
    forall|k: int| 0 <= k < p.len() ==> narrow_str_wf(#[trigger] p[k]@)
}

/// Well-formed wide strings with the same code units are the same string.
pub proof fn lemma_wide_view_injective(a: Seq<char>, b: Seq<char>)
    requires
        wide_str_wf(a),
        wide_str_wf(b),
        wide_view(a) == wide_view(b),
    ensures
        a == b,
{
    assert(a.len() == b.len()) by {
        assert(wide_view(a).len() == a.len());
        assert(wide_view(b).len() == b.len());
    }
    assert forall|i: int| 0 <= i < a.len() implies a[i] == b[i] by {
        assert(wide_view(a)[i] == wide_view(b)[i]);
        assert(1 <= (a[i] as int) && (a[i] as int) < 0x10000);
        assert(1 <= (b[i] as int) && (b[i] as int) < 0x10000);
        let va: u32 = a[i] as u32;
        let vb: u32 = b[i] as u32;
        assert(va == a[i] as int && vb == b[i] as int);
        let ua: u16 = ((va & 0xffff) as u16);
        let ub: u16 = ((vb & 0xffff) as u16);
        assert(wide_view(a)[i] == ((a[i] as u32) & 0xffff) as u16);
        assert(wide_view(b)[i] == ((b[i] as u32) & 0xffff) as u16);
        assert(ua == ub);
        assert(va == vb) by (bit_vector)
            requires
                ua == ((va & 0xffff) as u16),
                ub == ((vb & 0xffff) as u16),
                ua == ub,
                va < 0x10000,
                vb < 0x10000,
        ;
    }
    assert(a =~= b);
}

/// Well-formed narrow strings with the same code units are the same string.
pub proof fn lemma_narrow_view_injective(a: Seq<char>, b: Seq<char>)
    requires
        narrow_str_wf(a),
        narrow_str_wf(b),
        narrow_view(a) == narrow_view(b),
    ensures
        a == b,
{
    assert(a.len() == b.len()) by {
        assert(narrow_view(a).len() == a.len());
        assert(narrow_view(b).len() == b.len());
    }
    assert forall|i: int| 0 <= i < a.len() implies a[i] == b[i] by {
        assert(narrow_view(a)[i] == narrow_view(b)[i]);
        assert(1 <= (a[i] as int) && (a[i] as int) < 128);
        assert(1 <= (b[i] as int) && (b[i] as int) < 128);
        let va: u32 = a[i] as u32;
        let vb: u32 = b[i] as u32;
        assert(va == a[i] as int && vb == b[i] as int);
        let ua: u8 = ((va & 0xff) as u8);
        let ub: u8 = ((vb & 0xff) as u8);
        assert(narrow_view(a)[i] == ((a[i] as u32) & 0xff) as u8);
        assert(narrow_view(b)[i] == ((b[i] as u32) & 0xff) as u8);
        assert(ua == ub);
        assert(va == vb) by (bit_vector)
            requires
                ua == ((va & 0xff) as u8),
                ub == ((vb & 0xff) as u8),
                ua == ub,
                va < 128,
                vb < 128,
        ;
    }
    assert(a =~= b);
}

/// Appends `s` to the wide pool unless an equal string is already there.
fn wide_insert(pool: &mut Vec<String>, s: &String)
    requires
        wide_pool_wf(old(pool)@),
        wide_str_wf(s@),
    ensures
        wide_pool_wf(final(pool)@),
        wide_pool_units(old(pool)@).contains(wide_view(s@)) ==> final(pool)@ == old(pool)@,
        !wide_pool_units(old(pool)@).contains(wide_view(s@)) ==> wide_pool_units(final(pool)@)
            == wide_pool_units(old(pool)@).push(wide_view(s@)),
{
    let ghost p0 = wide_pool_units(pool@);
    let ghost x = wide_view(s@);
    let mut j: usize = 0;
    while j < pool.len()
        invariant
            j <= pool@.len(),
            wide_pool_wf(pool@),
            wide_str_wf(s@),
            pool@ == old(pool)@,
            p0 == wide_pool_units(pool@),
            x == wide_view(s@),
            forall|k: int| 0 <= k < j ==> p0[k] != x,
        decreases pool@.len() - j,
    {
        if pool[j].eq(s) {
            proof {
                assert(p0[j as int] == x);
                assert(p0.contains(x));
            }
            return ;
        }
        proof {
            if p0[j as int] == x {
                lemma_wide_view_injective(pool@[j as int]@, s@);
            }
        }
        j = j + 1;
    }
    proof {
        assert(!p0.contains(x)) by {
            if p0.contains(x) {
                let w = choose|w: int| 0 <= w < p0.len() && p0[w] == x;
                assert(p0[w] != x);
            }
        }
    }
    pool.push(s.clone());
    proof {
        assert(wide_pool_units(pool@) =~= p0.push(x));
    }
}

/// Appends `s` to the narrow pool unless an equal string is already there.
fn narrow_insert(pool: &mut Vec<String>, s: &String)
    requires
        narrow_pool_wf(old(pool)@),
        narrow_str_wf(s@),
    ensures
        narrow_pool_wf(final(pool)@),
        narrow_pool_units(old(pool)@).contains(narrow_view(s@)) ==> final(pool)@ == old(pool)@,
        !narrow_pool_units(old(pool)@).contains(narrow_view(s@)) ==> narrow_pool_units(
            final(pool)@,
        ) == narrow_pool_units(old(pool)@).push(narrow_view(s@)),
{
    let ghost p0 = narrow_pool_units(pool@);
    let ghost x = narrow_view(s@);
    let mut j: usize = 0;
    while j < pool.len()
        invariant
            j <= pool@.len(),
            narrow_pool_wf(pool@),
            narrow_str_wf(s@),
            pool@ == old(pool)@,
            p0 == narrow_pool_units(pool@),
            x == narrow_view(s@),
            forall|k: int| 0 <= k < j ==> p0[k] != x,
        decreases pool@.len() - j,
    {
        if pool[j].eq(s) {
            proof {
                assert(p0[j as int] == x);
                assert(p0.contains(x));
            }
            return ;
        }
        proof {
            if p0[j as int] == x {
                lemma_narrow_view_injective(pool@[j as int]@, s@);
            }
        }
        j = j + 1;
    }
    proof {
        assert(!p0.contains(x)) by {
            if p0.contains(x) {
                let w = choose|w: int| 0 <= w < p0.len() && p0[w] == x;
                assert(p0[w] != x);
            }
        }
    }
    pool.push(s.clone());
    proof {
        assert(narrow_pool_units(pool@) =~= p0.push(x));
    }
}

/// The stored size of one wide pool item and the bytes before it.
proof fn lemma_wide_pool_step(p: Seq<Seq<u16>>, j: int)
    requires
        0 <= j < p.len(),
    ensures
        pool_bytes_u16(p.take(j + 1)).len() == pool_bytes_u16(p.take(j)).len() + 2 * p[j].len()
            + 2,
        pool_bytes_u16(p.take(j + 1)).len() <= pool_bytes_u16(p).len(),
{
    lemma_pool_bytes_split_u16(p.take(j + 1), j);
    assert(p.take(j + 1).take(j) =~= p.take(j));
    let single = p.take(j + 1).skip(j);
    assert(single =~= seq![p[j]]);
    assert(single[0] == p[j]);
    assert(single.drop_first() =~= Seq::<Seq<u16>>::empty());
    assert(pool_bytes_u16(Seq::<Seq<u16>>::empty()) =~= Seq::<u8>::empty());
    assert(pool_bytes_u16(single) =~= wide_str_bytes(p[j]) + Seq::<u8>::empty());
    assert(pool_bytes_u16(single) =~= wide_str_bytes(p[j]));
    lemma_units_le_bytes_len(p[j]);
    lemma_pool_bytes_split_u16(p, j + 1);
    assert(p.take(j + 1).take(j + 1) =~= p.take(j + 1));
}

/// The stored size of one narrow pool item and the bytes before it.
proof fn lemma_narrow_pool_step(p: Seq<Seq<u8>>, j: int)
    requires
        0 <= j < p.len(),
    ensures
        pool_bytes_u8(p.take(j + 1)).len() == pool_bytes_u8(p.take(j)).len() + p[j].len() + 1,
        pool_bytes_u8(p.take(j + 1)).len() <= pool_bytes_u8(p).len(),
{
    lemma_pool_bytes_split_u8(p.take(j + 1), j);
    assert(p.take(j + 1).take(j) =~= p.take(j));
    let single = p.take(j + 1).skip(j);
    assert(single =~= seq![p[j]]);
    assert(single[0] == p[j]);
    assert(single.drop_first() =~= Seq::<Seq<u8>>::empty());
    assert(pool_bytes_u8(Seq::<Seq<u8>>::empty()) =~= Seq::<u8>::empty());
    assert(pool_bytes_u8(single) =~= narrow_str_bytes(p[j]) + Seq::<u8>::empty());
    assert(pool_bytes_u8(single) =~= narrow_str_bytes(p[j]));
    lemma_pool_bytes_split_u8(p, j + 1);
    assert(p.take(j + 1).take(j + 1) =~= p.take(j + 1));
}

/// The number of bytes the wide pool occupies on disk.
fn wide_pool_size(pool: &Vec<String>) -> (size: usize)
    requires
        wide_pool_wf(pool@),
        pool_bytes_u16(wide_pool_units(pool@)).len() <= usize::MAX,
    ensures
        size == pool_bytes_u16(wide_pool_units(pool@)).len(),
{
    let ghost p = wide_pool_units(pool@);
    let mut acc: usize = 0;
    let mut j: usize = 0;
    proof {
        assert(p.take(0) =~= Seq::<Seq<u16>>::empty());
    }
    while j < pool.len()
        invariant
            j <= pool@.len(),
            wide_pool_wf(pool@),
            p == wide_pool_units(pool@),
            pool_bytes_u16(p).len() <= usize::MAX,
            acc == pool_bytes_u16(p.take(j as int)).len(),
        decreases pool@.len() - j,
    {
        let ul = pool[j].as_str().unicode_len();
        proof {
            assert(p[j as int].len() == pool@[j as int]@.len());
            lemma_wide_pool_step(p, j as int);
        }
        acc = acc + (2 * ul + 2);
        j = j + 1;
    }
    proof {
        assert(p.take(p.len() as int) =~= p);
    }
    acc
}

/// The number of bytes the narrow pool occupies on disk.
fn narrow_pool_size(pool: &Vec<String>) -> (size: usize)
    requires
        narrow_pool_wf(pool@),
        pool_bytes_u8(narrow_pool_units(pool@)).len() <= usize::MAX,
    ensures
        size == pool_bytes_u8(narrow_pool_units(pool@)).len(),
{
    let ghost p = narrow_pool_units(pool@);
    let mut acc: usize = 0;
    let mut j: usize = 0;
    proof {
        assert(p.take(0) =~= Seq::<Seq<u8>>::empty());
    }
    while j < pool.len()
        invariant
            j <= pool@.len(),
            narrow_pool_wf(pool@),
            p == narrow_pool_units(pool@),
            pool_bytes_u8(p).len() <= usize::MAX,
            acc == pool_bytes_u8(p.take(j as int)).len(),
        decreases pool@.len() - j,
    {
        let ul = pool[j].as_str().unicode_len();
        proof {
            assert(p[j as int].len() == pool@[j as int]@.len());
            lemma_narrow_pool_step(p, j as int);
        }
        acc = acc + (ul + 1);
        j = j + 1;
    }
    proof {
        assert(p.take(p.len() as int) =~= p);
    }
    acc
}

/// The pool-relative offset of the stored copy of `s` in the wide pool.
fn find_wide_off(pool: &Vec<String>, s: &String) -> (off: usize)
    requires
        wide_pool_wf(pool@),
        wide_str_wf(s@),
        wide_pool_units(pool@).contains(wide_view(s@)),
        pool_bytes_u16(wide_pool_units(pool@)).len() <= usize::MAX,
    ensures
        off == pool_off_u16(wide_pool_units(pool@), wide_view(s@)),
        off + 2 * s@.len() + 2 <= pool_bytes_u16(wide_pool_units(pool@)).len(),
{
    let ghost p = wide_pool_units(pool@);
    let ghost x = wide_view(s@);
    let mut acc: usize = 0;
    let mut j: usize = 0;
    proof {
        assert(p.take(0) =~= Seq::<Seq<u16>>::empty());
    }
    while j < pool.len()
        invariant
            j <= pool@.len(),
            wide_pool_wf(pool@),
            wide_str_wf(s@),
            p == wide_pool_units(pool@),
            x == wide_view(s@),
            p.contains(x),
            pool_bytes_u16(p).len() <= usize::MAX,
            acc == pool_bytes_u16(p.take(j as int)).len(),
            forall|k: int| 0 <= k < j ==> p[k] != x,
        decreases pool@.len() - j,
    {
        if pool[j].eq(s) {
            proof {
                assert(p[j as int] == x);
                lemma_pool_off_skip_u16(p, x, j as int);
                assert(p.skip(j as int)[0] == x);
                lemma_wide_pool_step(p, j as int);
                lemma_units_le_bytes_len(x);
                assert(x.len() == s@.len());
            }
            return acc;
        }
        proof {
            if p[j as int] == x {
                lemma_wide_view_injective(pool@[j as int]@, s@);
            }
            lemma_wide_pool_step(p, j as int);
            assert(p[j as int].len() == pool@[j as int]@.len());
        }
        let ul = pool[j].as_str().unicode_len();
        acc = acc + (2 * ul + 2);
        j = j + 1;
    }
    proof {
        let w = choose|w: int| 0 <= w < p.len() && p[w] == x;
        assert(p[w] != x);
        assert(false);
    }
    0
}

/// The pool-relative offset of the stored copy of `s` in the narrow pool.
fn find_narrow_off(pool: &Vec<String>, s: &String) -> (off: usize)
    requires
        narrow_pool_wf(pool@),
        narrow_str_wf(s@),
        narrow_pool_units(pool@).contains(narrow_view(s@)),
        pool_bytes_u8(narrow_pool_units(pool@)).len() <= usize::MAX,
    ensures
        off == pool_off_u8(narrow_pool_units(pool@), narrow_view(s@)),
        off + s@.len() + 1 <= pool_bytes_u8(narrow_pool_units(pool@)).len(),
{
    let ghost p = narrow_pool_units(pool@);
    let ghost x = narrow_view(s@);
    let mut acc: usize = 0;
    let mut j: usize = 0;
    proof {
        assert(p.take(0) =~= Seq::<Seq<u8>>::empty());
    }
    while j < pool.len()
        invariant
            j <= pool@.len(),
            narrow_pool_wf(pool@),
            narrow_str_wf(s@),
            p == narrow_pool_units(pool@),
            x == narrow_view(s@),
            p.contains(x),
            pool_bytes_u8(p).len() <= usize::MAX,
            acc == pool_bytes_u8(p.take(j as int)).len(),
            forall|k: int| 0 <= k < j ==> p[k] != x,
        decreases pool@.len() - j,
    {
        if pool[j].eq(s) {
            proof {
                assert(p[j as int] == x);
                lemma_pool_off_skip_u8(p, x, j as int);
                assert(p.skip(j as int)[0] == x);
                lemma_narrow_pool_step(p, j as int);
                assert(x.len() == s@.len());
            }
            return acc;
        }
        proof {
            if p[j as int] == x {
                lemma_narrow_view_injective(pool@[j as int]@, s@);
            }
            lemma_narrow_pool_step(p, j as int);
            assert(p[j as int].len() == pool@[j as int]@.len());
        }
        let ul = pool[j].as_str().unicode_len();
        acc = acc + (ul + 1);
        j = j + 1;
    }
    proof {
        let w = choose|w: int| 0 <= w < p.len() && p[w] == x;
        assert(p[w] != x);
        assert(false);
    }
    0
}

/// Pushing a value no smaller than the last keeps a list non-decreasing.
proof fn lemma_push_non_decreasing(s: Seq<u32>, v: u32)
    requires
        non_decreasing(s),
        s.len() > 0 ==> s.last() <= v,
    ensures
        non_decreasing(s.push(v)),
{
    assert forall|i: int, j: int| 0 <= i <= j < s.push(v).len() implies #[trigger] s.push(v)[i]
        <= #[trigger] s.push(v)[j] by {
        if j < s.len() {
            assert(s[i] <= s[j]);
        } else if i < s.len() {
            assert(s[i] <= s[s.len() - 1]);
        }
    }
}

/// Relies on `pmd_sir0::write_sir0_footer`: writing to a byte vector never
/// fails, and for a non-decreasing offset list the call appends footer
/// bytes that are a function of the list alone; for a decreasing list it
/// reports the misordered pair as an error instead.
#[verifier::external_body]
fn append_sir0_footer(out: &mut Vec<u8>, ptrs: &Vec<u32>) -> (r: Result<(), ScriptEntryListError>)
    ensures
        r is Ok <==> non_decreasing(ptrs@),
        r is Ok ==> final(out)@ == old(out)@ + sir0_footer(ptrs@),
{
    match pmd_sir0::write_sir0_footer(out, ptrs.as_slice()) {
        Ok(()) => Ok(()),
        Err(_) => Err(ScriptEntryListError::IOError),
    }
}

impl ScriptEntryList {
    /// Encodes the whole record list into `file`, replacing its contents:
    /// header, content header, entry-pointer table, entry records, one flag
    /// block per entry, the deduplicated wide and narrow string pools,
    /// padding to a four-byte boundary, and the relocation footer.
    #[verifier::loop_isolation(false)]
    #[verifier::rlimit(100)]
    pub fn write_to_file(&self, file: &mut Vec<u8>) -> (r: Result<(), ScriptEntryListError>)
        requires
            list_wf(*self),
            encodable(self@),
        ensures
            r is Ok,
            final(file)@ == encoded_bytes(self@),
    {
        let ghost es = self@;
        file.clear();
        let n = self.entries.len();
        proof {
            assert(es.len() == n);
            assert forall|i: int| 0 <= i < es.len() implies entry_wf(#[trigger] self.entries@[i])
                && es[i] == self.entries@[i]@ by {
                assert(list_wf(*self));
            }
            lemma_field_lists(es);
            assert(pad_len(es) >= 0);
            assert(pool_bytes_u16(wide_pool(es)).len() >= 0);
            assert(pool_bytes_u8(narrow_pool(es)).len() >= 0);
            assert(24 + 40 * (n as int) <= padded_end(es));
        }

        // The deduplicated pools, in first-occurrence order.
        let mut wide_pool_v: Vec<String> = Vec::new();
        let mut narrow_pool_v: Vec<String> = Vec::new();
        let mut i: usize = 0;
        proof {
            assert(es.take(0) =~= Seq::<EntryModel>::empty());
            assert(wide_pool_units(wide_pool_v@) =~= dedup(wide_list(es.take(0))));
            assert(narrow_pool_units(narrow_pool_v@) =~= dedup(narrow_list(es.take(0))));
        }
        while i < n
            invariant
                i <= n,
                wide_pool_wf(wide_pool_v@),
                narrow_pool_wf(narrow_pool_v@),
                wide_pool_units(wide_pool_v@) == dedup(wide_list(es.take(i as int))),
                narrow_pool_units(narrow_pool_v@) == dedup(narrow_list(es.take(i as int))),
            decreases n - i,
        {
            let e = &self.entries[i];
            let ghost wl = wide_list(es.take(i as int));
            let ghost nl = narrow_list(es.take(i as int));
            proof {
                assert(entry_wf(*e));
                assert(es[i as int] == e@);
                lemma_dedup_contains(wl, wide_view(e.lua_path@));
            }
            wide_insert(&mut wide_pool_v, &e.lua_path);
            proof {
                assert(wl.push(wide_view(e.lua_path@)).drop_last() =~= wl);
                assert(wide_pool_units(wide_pool_v@) == dedup(wl.push(wide_view(e.lua_path@))));
                lemma_dedup_contains(wl.push(wide_view(e.lua_path@)), wide_view(e.plb_path@));
            }
            wide_insert(&mut wide_pool_v, &e.plb_path);
            proof {
                let w2 = wl.push(wide_view(e.lua_path@)).push(wide_view(e.plb_path@));
                assert(w2.drop_last() =~= wl.push(wide_view(e.lua_path@)));
                assert(wide_pool_units(wide_pool_v@) == dedup(w2));
                assert(w2 =~= wide_list(es.take(i + 1))) by {
                    assert(es.take(i + 1).drop_last() =~= es.take(i as int));
                    assert(es.take(i + 1).last() == es[i as int]);
                }
                lemma_dedup_contains(nl, narrow_view(e.entity_name@));
            }
            narrow_insert(&mut narrow_pool_v, &e.entity_name);
            proof {
                assert(nl.push(narrow_view(e.entity_name@)).drop_last() =~= nl);
                assert(narrow_pool_units(narrow_pool_v@) == dedup(
                    nl.push(narrow_view(e.entity_name@)),
                ));
                lemma_dedup_contains(
                    nl.push(narrow_view(e.entity_name@)),
                    narrow_view(e.map_name@),
                );
            }
            narrow_insert(&mut narrow_pool_v, &e.map_name);
            proof {
                let n2 = nl.push(narrow_view(e.entity_name@)).push(narrow_view(e.map_name@));
                assert(n2.drop_last() =~= nl.push(narrow_view(e.entity_name@)));
                assert(narrow_pool_units(narrow_pool_v@) == dedup(n2));
                assert(n2 =~= narrow_list(es.take(i + 1))) by {
                    assert(es.take(i + 1).drop_last() =~= es.take(i as int));
                    assert(es.take(i + 1).last() == es[i as int]);
                }
            }
            i = i + 1;
        }
        proof {
            assert(es.take(n as int) =~= es);
            assert(wide_pool_units(wide_pool_v@) == wide_pool(es));
            assert(narrow_pool_units(narrow_pool_v@) == narrow_pool(es));
        }

        // Every absolute offset of the layout, all below the padded end.
        let wsize = wide_pool_size(&wide_pool_v);
        let nsize = narrow_pool_size(&narrow_pool_v);
        let wide_area_x: usize = 24 + 40 * n;
        let narrow_area_x: usize = wide_area_x + wsize;
        let end_x: usize = narrow_area_x + nsize;
        let pad_x: usize = (4 - (end_x % 4)) % 4;
        let padded_x: usize = end_x + pad_x;
        proof {
            assert(wide_area_x == wide_area(n as int));
            assert(narrow_area_x == narrow_area(es));
            assert(end_x == content_end(es));
            assert(pad_x == pad_len(es));
            assert(padded_x == padded_end(es));
        }

        // Header and content header.
        file.push(0x53);
        file.push(0x49);
        file.push(0x52);
        file.push(0x30);
        push_le32(file, 16);
        push_le32(file, padded_x as u32);
        file.push(0);
        file.push(0);
        file.push(0);
        file.push(0);
        push_le32(file, n as u32);
        push_le32(file, 24);
        proof {
            assert(file@ =~= header_seg(es));
        }

        // Entry-pointer table.
        let mut k: usize = 0;
        while k < n
            invariant
                k <= n,
                file@ == header_seg(es) + table_seg(n as int, k as int),
            decreases n - k,
        {
            push_le32(file, (24 + 4 * n + 20 * k) as u32);
            proof {
                assert(file@ =~= header_seg(es) + table_seg(n as int, (k + 1) as int));
            }
            k = k + 1;
        }
        let ghost pre_recs = header_seg(es) + table_seg(n as int, n as int);

        // Entry records.
        k = 0;
        while k < n
            invariant
                k <= n,
                file@ == pre_recs + recs_seg(es, k as int),
            decreases n - k,
        {
            let e = &self.entries[k];
            proof {
                assert(entry_wf(*e));
                assert(es[k as int] == e@);
                assert(narrow_list(es).contains(es[k as int].entity_name)) by {
                    assert(narrow_list(es)[2 * (k as int)] == es[k as int].entity_name);
                }
                assert(narrow_list(es).contains(es[k as int].map_name)) by {
                    assert(narrow_list(es)[2 * (k as int) + 1] == es[k as int].map_name);
                }
                assert(wide_list(es).contains(es[k as int].lua_path)) by {
                    assert(wide_list(es)[2 * (k as int)] == es[k as int].lua_path);
                }
                assert(wide_list(es).contains(es[k as int].plb_path)) by {
                    assert(wide_list(es)[2 * (k as int) + 1] == es[k as int].plb_path);
                }
                lemma_dedup_contains(narrow_list(es), es[k as int].entity_name);
                lemma_dedup_contains(narrow_list(es), es[k as int].map_name);
                lemma_dedup_contains(wide_list(es), es[k as int].lua_path);
                lemma_dedup_contains(wide_list(es), es[k as int].plb_path);
            }
            let eo = narrow_area_x + find_narrow_off(&narrow_pool_v, &e.entity_name);
            let mo = narrow_area_x + find_narrow_off(&narrow_pool_v, &e.map_name);
            let lo = wide_area_x + find_wide_off(&wide_pool_v, &e.lua_path);
            let po = wide_area_x + find_wide_off(&wide_pool_v, &e.plb_path);
            let fo = 24 + 24 * n + 16 * k;
            push_le32(file, eo as u32);
            push_le32(file, mo as u32);
            push_le32(file, lo as u32);
            push_le32(file, po as u32);
            push_le32(file, fo as u32);
            proof {
                assert(eo == narrow_off(es, es[k as int].entity_name));
                assert(mo == narrow_off(es, es[k as int].map_name));
                assert(lo == wide_off(es, es[k as int].lua_path));
                assert(po == wide_off(es, es[k as int].plb_path));
                assert(fo == flag_off(n as int, k as int));
                assert(file@ =~= pre_recs + recs_seg(es, (k + 1) as int));
            }
            k = k + 1;
        }
        let ghost pre_flags = pre_recs + recs_seg(es, n as int);

        // Flag blocks: one per entry, never shared.
        k = 0;
        while k < n
            invariant
                k <= n,
                file@ == pre_flags + flags_seg(es, k as int),
            decreases n - k,
        {
            let e = &self.entries[k];
            push_le32(file, e.flags[0]);
            push_le32(file, e.flags[1]);
            push_le32(file, e.flags[2]);
            push_le32(file, e.flags[3]);
            proof {
                assert(es[k as int] == e@);
                assert(file@ =~= pre_flags + flags_seg(es, (k + 1) as int));
            }
            k = k + 1;
        }
        let ghost pre_wide = pre_flags + flags_seg(es, n as int);

        // Wide string pool.
        let ghost wunits = wide_pool(es);
        k = 0;
        proof {
            assert(wunits.take(0) =~= Seq::<Seq<u16>>::empty());
            assert(pre_wide + pool_bytes_u16(wunits.take(0)) =~= pre_wide);
        }
        while k < wide_pool_v.len()
            invariant
                k <= wide_pool_v@.len(),
                file@ == pre_wide + pool_bytes_u16(wunits.take(k as int)),
            decreases wide_pool_v@.len() - k,
        {
            let mut chunk = string_to_utf16(wide_pool_v[k].as_str());
            proof {
                lemma_utf16_units_single(wide_pool_v@[k as int]@);
                assert(chunk@ == units_le_bytes(wunits[k as int]));
            }
            file.append(&mut chunk);
            file.push(0);
            file.push(0);
            proof {
                lemma_pool_bytes_split_u16(wunits.take(k + 1), k as int);
                assert(wunits.take(k + 1).take(k as int) =~= wunits.take(k as int));
                let single = wunits.take(k + 1).skip(k as int);
                assert(single =~= seq![wunits[k as int]]);
                assert(single.drop_first() =~= Seq::<Seq<u16>>::empty());
                assert(pool_bytes_u16(single) =~= wide_str_bytes(wunits[k as int]) + Seq::<
                    u8,
                >::empty());
                assert(file@ =~= pre_wide + pool_bytes_u16(wunits.take(k + 1)));
            }
            k = k + 1;
        }
        proof {
            assert(wunits.take(wunits.len() as int) =~= wunits);
        }
        let ghost pre_narrow = pre_wide + pool_bytes_u16(wunits);

        // Narrow string pool.
        let ghost nunits = narrow_pool(es);
        k = 0;
        proof {
            assert(nunits.take(0) =~= Seq::<Seq<u8>>::empty());
            assert(pre_narrow + pool_bytes_u8(nunits.take(0)) =~= pre_narrow);
        }
        while k < narrow_pool_v.len()
            invariant
                k <= narrow_pool_v@.len(),
                file@ == pre_narrow + pool_bytes_u8(nunits.take(k as int)),
            decreases narrow_pool_v@.len() - k,
        {
            let sref = narrow_pool_v[k].as_str();
            let mut chunk = sref.as_bytes_vec();
            proof {
                broadcast use vstd::string::is_ascii_spec_bytes;
                assert(narrow_str_wf(sref@));
                assert(vstd::string::is_ascii(sref));
                assert(chunk@.len() == sref@.len());
                assert forall|q: int| 0 <= q < sref@.len() implies chunk@[q] == (
                sref@[q] as u8) by {
                    assert(chunk@[q] == sref.spec_bytes()[q]);
                }
                lemma_ascii_bytes(sref@, chunk@);
                assert(chunk@ == nunits[k as int]);
            }
            file.append(&mut chunk);
            file.push(0);
            proof {
                lemma_pool_bytes_split_u8(nunits.take(k + 1), k as int);
                assert(nunits.take(k + 1).take(k as int) =~= nunits.take(k as int));
                let single = nunits.take(k + 1).skip(k as int);
                assert(single =~= seq![nunits[k as int]]);
                assert(single.drop_first() =~= Seq::<Seq<u8>>::empty());
                assert(pool_bytes_u8(single) =~= narrow_str_bytes(nunits[k as int]) + Seq::<
                    u8,
                >::empty());
                assert(file@ =~= pre_narrow + pool_bytes_u8(nunits.take(k + 1)));
            }
            k = k + 1;
        }
        proof {
            assert(nunits.take(nunits.len() as int) =~= nunits);
        }
        let ghost pre_pad = pre_narrow + pool_bytes_u8(nunits);

        // Zero padding to a four-byte boundary.
        let mut padi: usize = 0;
        proof {
            assert(pre_pad + Seq::new(0, |q: int| 0u8) =~= pre_pad);
        }
        while padi < pad_x
            invariant
                padi <= pad_x,
                file@ == pre_pad + Seq::new(padi as nat, |q: int| 0u8),
            decreases pad_x - padi,
        {
            file.push(0);
            proof {
                assert(file@ =~= pre_pad + Seq::new((padi + 1) as nat, |q: int| 0u8));
            }
            padi = padi + 1;
        }
        proof {
            assert(Seq::new(pad_x as nat, |q: int| 0u8) =~= pad_seg(es));
            assert(file@ =~= encoded_content(es));
        }

        // Relocation footer: the position of every offset-valued field.
        let mut ptrs: Vec<u32> = Vec::new();
        ptrs.push(4);
        ptrs.push(8);
        ptrs.push(20);
        let ghost head3 = seq![4u32, 8u32, 20u32];
        proof {
            assert(ptrs@ =~= head3);
            assert(non_decreasing(ptrs@));
            assert(head3 + table_ptrs(0) =~= head3);
        }
        k = 0;
        while k < n
            invariant
                k <= n,
                ptrs@ == head3 + table_ptrs(k as int),
                non_decreasing(ptrs@),
                ptrs@.len() > 0 && ptrs@.last() <= 24 + 4 * k,
            decreases n - k,
        {
            proof {
                lemma_push_non_decreasing(ptrs@, (24 + 4 * k) as u32);
            }
            ptrs.push((24 + 4 * k) as u32);
            proof {
                assert(ptrs@ =~= head3 + table_ptrs((k + 1) as int));
            }
            k = k + 1;
        }
        let ghost pre_rp = head3 + table_ptrs(n as int);
        proof {
            assert(pre_rp + rec_ptrs(n as int, 0) =~= pre_rp);
        }
        k = 0;
        while k < n
            invariant
                k <= n,
                ptrs@ == pre_rp + rec_ptrs(n as int, k as int),
                non_decreasing(ptrs@),
                ptrs@.len() > 0 && ptrs@.last() <= 24 + 4 * n + 20 * k,
            decreases n - k,
        {
            let base = 24 + 4 * n + 20 * k;
            proof {
                lemma_push_non_decreasing(ptrs@, base as u32);
            }
            ptrs.push(base as u32);
            proof {
                lemma_push_non_decreasing(ptrs@, (base + 4) as u32);
            }
            ptrs.push((base + 4) as u32);
            proof {
                lemma_push_non_decreasing(ptrs@, (base + 8) as u32);
            }
            ptrs.push((base + 8) as u32);
            proof {
                lemma_push_non_decreasing(ptrs@, (base + 12) as u32);
            }
            ptrs.push((base + 12) as u32);
            proof {
                lemma_push_non_decreasing(ptrs@, (base + 16) as u32);
            }
            ptrs.push((base + 16) as u32);
            proof {
                assert(ptrs@ =~= pre_rp + rec_ptrs(n as int, (k + 1) as int));
            }
            k = k + 1;
        }
        proof {
            assert(ptrs@ =~= footer_ptrs(es));
        }
        let fr = append_sir0_footer(file, &ptrs);
        match fr {
            Ok(_) => {},
            Err(_) => {
                proof {
                    assert(false);
                }
                return Err(ScriptEntryListError::IOError);
            },
        }
        proof {
            assert(file@ =~= encoded_bytes(es));
        }
        Ok(())
    }
}

/// The bytes of an all-narrow string are exactly its code units.
pub proof fn lemma_ascii_bytes(s: Seq<char>, b: Seq<u8>)
    requires
        narrow_str_wf(s),
        b.len() == s.len(),
        forall|i: int| 0 <= i < s.len() ==> b[i] == (s[i] as u8),
    ensures
        b == narrow_view(s),
{
    assert forall|i: int| 0 <= i < s.len() implies b[i] == narrow_view(s)[i] by {
        assert(1 <= (s[i] as int) && (s[i] as int) < 128);
        let v: u32 = s[i] as u32;
        assert(v == s[i] as int);
        assert((v & 0xff) == v) by (bit_vector)
            requires
                v < 128,
        ;
        assert(s[i] as u8 == s[i] as int);
        assert(((s[i] as u32) & 0xff) as u8 == s[i] as int);
    }
    assert(b =~= narrow_view(s));
}

} // verus!
