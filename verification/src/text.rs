//! Text primitives: the UTF-16 little-endian image of a string, written by
//! hand and verified against its specification, and two trusted wrappers for
//! the standard library's character handling.

use crate::bytes::le16;
use crate::bytes::push_le16;
use crate::entry::wide_str_wf;
use crate::entry::wide_view;
use vstd::prelude::*;

verus! {

/// The UTF-16 code units of one character: a single unit for a basic-plane
/// character, a surrogate pair for any other.
pub open spec fn char_utf16(c: char) -> Seq<u16> {
    if (c as u32) < 0x10000 {
        seq![(c as u32) as u16]
    } else {
        seq![
            (0xD800 + ((((c as u32) - 0x10000) as u32) >> 10)) as u16,
            (0xDC00 + ((((c as u32) - 0x10000) as u32) & 0x3FF)) as u16,
        ]
    }
}

/// The UTF-16 code units of a whole string, in character order.
pub open spec fn utf16_units(s: Seq<char>) -> Seq<u16>
    decreases s.len(),
{
    if s.len() == 0 {
        Seq::empty()
    } else {
        utf16_units(s.drop_last()) + char_utf16(s.last())
    }
}

/// The little-endian byte image of a sequence of 16-bit code units.
pub open spec fn units_le_bytes(units: Seq<u16>) -> Seq<u8>
    decreases units.len(),
{
    if units.len() == 0 {
        Seq::empty()
    } else {
        units_le_bytes(units.drop_last()) + le16(units.last())
    }
}

/// For a string of single-unit characters, the UTF-16 units are exactly the
/// characters' code points, one unit per character.
pub proof fn lemma_utf16_units_single(s: Seq<char>)
    requires
        wide_str_wf(s),
    ensures
        utf16_units(s) == wide_view(s),
    decreases s.len(),
{
    let f = |c: char| ((c as u32) & 0xffff) as u16;
    assert(wide_view(s) == s.map_values(f));
    if s.len() == 0 {
        assert(utf16_units(s) =~= s.map_values(f));
    } else {
        let t = s.drop_last();
        assert(wide_str_wf(t));
        lemma_utf16_units_single(t);
        assert(wide_view(t) == t.map_values(f));
        let c = s.last();
        assert(1 <= (c as int) && (c as int) < 0x10000);
        let v: u32 = c as u32;
        assert(v == c as int);
        assert((v & 0xffff) == v) by (bit_vector)
            requires
                v < 0x10000,
        ;
        assert(char_utf16(c) =~= seq![f(c)]);
        assert(utf16_units(s) =~= s.map_values(f));
    }
}

/// Encodes a string as UTF-16 little-endian bytes, without a terminator:
/// two bytes per code unit, a surrogate pair for characters beyond the
/// basic plane.
pub fn string_to_utf16(string: &str) -> (r: Vec<u8>)
    ensures
        r@ == units_le_bytes(utf16_units(string@)),
{
    let mut result: Vec<u8> = Vec::new();
    let n = string.unicode_len();
    for i in 0..n
        invariant
            n == string@.len(),
            result@ == units_le_bytes(utf16_units(string@.subrange(0, i as int))),
    {
        let ghost prefix = string@.subrange(0, i as int);
        let c = string.get_char(i);
        let v = c as u32;
        if v < 0x10000 {
            push_le16(&mut result, v as u16);
            proof {
                let whole = string@.subrange(0, i + 1);
                assert(whole.drop_last() =~= prefix);
                assert(whole.last() == c);
                let u = utf16_units(prefix);
                assert(utf16_units(whole) =~= u.push((v as u16)));
                assert(u.push((v as u16)).drop_last() =~= u);
                assert(units_le_bytes(u.push((v as u16))) =~= units_le_bytes(u) + le16(
                    (v as u16)));
            }
        } else {
            assert(v <= 0x10FFFF);
            let v2 = v - 0x10000;
            assert((v2 >> 10) <= 0x3FF && (v2 & 0x3FF) <= 0x3FF) by (bit_vector)
                requires
                    v2 <= 0xFFFFF,
            ;
            let hi = (0xD800 + (v2 >> 10)) as u16;
            let lo = (0xDC00 + (v2 & 0x3FF)) as u16;
            push_le16(&mut result, hi);
            push_le16(&mut result, lo);
            proof {
                let whole = string@.subrange(0, i + 1);
                assert(whole.drop_last() =~= prefix);
                assert(whole.last() == c);
                let u = utf16_units(prefix);
                assert(char_utf16(c) =~= seq![hi, lo]);
                assert(utf16_units(whole) =~= u + seq![hi, lo]);
                assert((u + seq![hi, lo]).drop_last() =~= u.push(hi));
                assert((u + seq![hi, lo]).last() == lo);
                assert(u.push(hi).drop_last() =~= u);
                assert(u.push(hi).last() == hi);
                assert(units_le_bytes(u.push(hi)) =~= units_le_bytes(u) + le16(hi));
                assert(units_le_bytes(u + seq![hi, lo]) =~= units_le_bytes(u.push(hi)) + le16(lo));
                assert(units_le_bytes(u + seq![hi, lo]) =~= units_le_bytes(u) + le16(hi) + le16(
                    lo));
            }
        }
    }
    proof {
        assert(string@.subrange(0, string@.len() as int) =~= string@);
    }
    result
}

/// Relies on `String::push`: appends the given character to the end of the
/// string.
#[verifier::external_body]
pub(crate) fn push_char(s: &mut String, c: char)
    ensures
        final(s)@ == old(s)@.push(c),
{
    s.push(c)
}

/// Relies on `char::from_u32`: returns the character with the given code
/// point, and `None` exactly for surrogate code points and values beyond the
/// largest code point.
#[verifier::external_body]
pub(crate) fn char_from_u32(v: u32) -> (r: Option<char>)
    ensures
        r is Some <==> (v <= 0x10FFFF && !(0xD800 <= v && v < 0xE000)),
        r matches Some(c) ==> c as u32 == v && c as int == v,
{
    char::from_u32(v)
}

} // verus!
