use vstd::prelude::*;

use crate::bytes::{le16_at, le32_at, push_bytes, push_u16_le, push_u32_le, push_zeros, read_u16_le};
use vstd::bytes::{spec_u16_to_le_bytes, spec_u32_to_le_bytes};
use vstd::utf8::{decode_utf8, valid_utf8};

verus! {

/// Bytes of one directory entry.
pub const ENTRY_SIZE: usize = 32;
pub const ATTR_READ_ONLY: u8 = 0x01;
pub const ATTR_HIDDEN: u8 = 0x02;
pub const ATTR_SYSTEM: u8 = 0x04;
pub const ATTR_VOLUME_ID: u8 = 0x08;
pub const ATTR_DIRECTORY: u8 = 0x10;
pub const ATTR_ARCHIVE: u8 = 0x20;
/// The attribute of a long name entry.
pub const ATTR_LONG_NAME: u8 = 0x0F;
/// UTF-16 units one long name entry holds.
pub const LONG_NAME_UNITS: usize = 13;

// ---------------------------------------------------------------- UTF-16

/// The UTF-16 units of one character.
pub open spec fn utf16_of_char(c: char) -> Seq<u16> {
    let x = c as u32;
    if x < 0x10000 {
        seq![x as u16]
    } else {
        let y = x - 0x10000;
        seq![(0xD800 + y / 0x400) as u16, (0xDC00 + y % 0x400) as u16]
    }
}

/// The UTF-16 encoding of a string.
pub open spec fn encode_utf16(s: Seq<char>) -> Seq<u16>
    decreases s.len(),
{
    if s.len() == 0 {
        Seq::empty()
    } else {
        utf16_of_char(s[0]) + encode_utf16(s.drop_first())
    }
}

/// `u` is a leading surrogate.
pub open spec fn is_high_surrogate(u: u16) -> bool {
    0xD800 <= u <= 0xDBFF
}

/// `u` is a trailing surrogate.
pub open spec fn is_low_surrogate(u: u16) -> bool {
    0xDC00 <= u <= 0xDFFF
}

/// UTF-16 decoded, each unpaired surrogate replaced by U+FFFD.
pub open spec fn decode_utf16_lossy(u: Seq<u16>) -> Seq<char>
    decreases u.len(),
{
    if u.len() == 0 {
        Seq::empty()
    } else if is_high_surrogate(u[0]) && u.len() >= 2 && is_low_surrogate(u[1]) {
        seq![(0x10000 + (u[0] - 0xD800) * 0x400 + (u[1] - 0xDC00)) as char] + decode_utf16_lossy(
            u.skip(2),
        )
    } else if 0xD800 <= u[0] <= 0xDFFF {
        seq!['\u{FFFD}'] + decode_utf16_lossy(u.skip(1))
    } else {
        seq![u[0] as char] + decode_utf16_lossy(u.skip(1))
    }
}

/// Decoding the UTF-16 encoding of a string gives the string back.
pub proof fn lemma_decode_encode_utf16(s: Seq<char>)
    ensures
        decode_utf16_lossy(encode_utf16(s)) == s,
    decreases s.len(),
{
    if s.len() > 0 {
        let c = s[0];
        let rest = s.drop_first();
        lemma_decode_encode_utf16(rest);
        let e = encode_utf16(s);
        let x = c as u32;
        vstd::utf8::char_is_scalar(c);
        vstd::utf8::char_u32_cast(c, x);
        if x < 0x10000 {
            assert(e.skip(1) =~= encode_utf16(rest));
            assert(!(0xD800 <= x <= 0xDFFF));
            assert((x as u16) as int == x as int);
            assert(e[0] == x as u16);
            assert(((x as u16) as u32) == x);
        } else {
            let y = x - 0x10000;
            assert(e.skip(2) =~= encode_utf16(rest));
            assert(0x10000 + ((0xD800 + y / 0x400) as u16 - 0xD800) * 0x400 + ((0xDC00 + y % 0x400) as u16
                - 0xDC00) == x);
        }
        assert(decode_utf16_lossy(e) =~= s);
    }
}

/// The UTF-16 units of `s`.
pub fn encode_utf16_str(s: &str) -> (r: Vec<u16>)
    ensures
        r@ == encode_utf16(s@),
{
    let mut r: Vec<u16> = Vec::new();
    let ghost chars = s@;
    proof {
        assert(chars.skip(0) =~= chars);
    }
    for c in it: s.chars()
        invariant
            chars == s@,
            it.seq() == chars,
            r@ + encode_utf16(chars.skip(it.index() as int)) == encode_utf16(chars),
    {
        proof {
            let rest = chars.skip(it.index() as int);
            assert(rest[0] == c);
            assert(rest.drop_first() =~= chars.skip(it.index() + 1));
        }
        let x = c as u32;
        if x < 0x10000 {
            r.push(x as u16);
        } else {
            let y = x - 0x10000;
            r.push((0xD800 + y / 0x400) as u16);
            r.push((0xDC00 + y % 0x400) as u16);
        }
        proof {
            let rest = chars.skip(it.index() as int);
            assert(encode_utf16(rest) == utf16_of_char(c) + encode_utf16(chars.skip(it.index() + 1)));
        }
    }
    proof {
        assert(chars.skip(chars.len() as int) =~= Seq::<char>::empty());
        assert(r@ + Seq::<u16>::empty() =~= r@);
    }
    r
}

/// A string from UTF-16 units, unpaired surrogates replaced by U+FFFD
/// (`String::from_utf16_lossy`).
#[verifier::external_body]
pub(crate) fn utf16_lossy_to_string(units: &[u16]) -> (r: String)
    ensures
        r@ == decode_utf16_lossy(units@),
{
    String::from_utf16_lossy(units)
}

/// What `String::from_utf8_lossy` makes of `bytes`.
pub uninterp spec fn utf8_lossy(bytes: Seq<u8>) -> Seq<char>;

/// A string from bytes, invalid sequences replaced by U+FFFD
/// (`String::from_utf8_lossy`); valid UTF-8 is decoded as it is.
#[verifier::external_body]
pub(crate) fn utf8_lossy_to_string(bytes: &[u8]) -> (r: String)
    ensures
        r@ == utf8_lossy(bytes@),
        valid_utf8(bytes@) ==> r@ == decode_utf8(bytes@),
{
    String::from_utf8_lossy(bytes).into_owned()
}

// ---------------------------------------------------------------- entries

/// The attribute byte of an entry.
pub open spec fn entry_attr(e: Seq<u8>) -> u8 {
    e[11]
}

/// The first cluster an entry points to.
pub open spec fn entry_cluster(e: Seq<u8>) -> u32 {
    (le16_at(e, 26) + le16_at(e, 20) * 0x10000) as u32
}

/// The byte size of the file an entry describes.
pub open spec fn entry_file_size(e: Seq<u8>) -> u32 {
    le32_at(e, 28)
}

/// An unused entry: its first byte is 0, or 0xE5 for a deleted one.
pub open spec fn entry_is_free(e: Seq<u8>) -> bool {
    e[0] == 0 || e[0] == 0xE5
}

/// The byte offset in a long name entry of its name unit `k`.
pub open spec fn long_unit_offset(k: int) -> int {
    if k < 5 {
        1 + 2 * k
    } else if k < 11 {
        14 + 2 * (k - 5)
    } else {
        28 + 2 * (k - 11)
    }
}

/// The three name arrays of a long name entry, in order.
pub open spec fn long_arrays(e: Seq<u8>) -> Seq<Seq<u16>> {
    seq![
        Seq::new(5, |k: int| le16_at(e, long_unit_offset(k))),
        Seq::new(6, |k: int| le16_at(e, long_unit_offset(k + 5))),
        Seq::new(2, |k: int| le16_at(e, long_unit_offset(k + 11))),
    ]
}

/// The name arrays of several long name entries, one after another.
pub open spec fn all_long_arrays(es: Seq<Seq<u8>>) -> Seq<Seq<u16>>
    decreases es.len(),
{
    if es.len() == 0 {
        Seq::empty()
    } else {
        long_arrays(es[0]) + all_long_arrays(es.drop_first())
    }
}

/// The index of the first `zero` in `a`, or its length.
pub open spec fn first_zero<T>(a: Seq<T>, zero: T) -> nat
    decreases a.len(),
{
    if a.len() == 0 {
        0
    } else if a[0] == zero {
        0
    } else {
        1 + first_zero(a.drop_first(), zero)
    }
}

/// `s` starts with the elements of `a` before its first `zero`; if so, how
/// many elements of `s` that takes.
pub open spec fn match_prefix<T>(s: Seq<T>, a: Seq<T>, zero: T) -> Option<nat> {
    let k = first_zero(a, zero);
    if k <= s.len() && s.take(k as int) == a.take(k as int) {
        Some(k)
    } else {
        None
    }
}

/// `s` is spelled by the arrays one after another, each up to its first 0,
/// with nothing left over.
pub open spec fn match_arrays(s: Seq<u16>, arrays: Seq<Seq<u16>>) -> bool
    decreases arrays.len(),
{
    if arrays.len() == 0 {
        s.len() == 0
    } else {
        match match_prefix(s, arrays[0], 0u16) {
            Some(k) => match_arrays(s.skip(k as int), arrays.drop_first()),
            None => false,
        }
    }
}

/// A name matches a short entry: the name part, then a dot and the
/// extension when the entry has one. One byte after the name part is
/// consumed either way.
pub open spec fn short_name_matches(e: Seq<u8>, name: Seq<u8>) -> bool {
    match match_prefix(name, e.subrange(0, 8), 0u8) {
        None => false,
        Some(k) => {
            let rest = name.skip(k as int);
            let has_dot = rest.len() > 0 && rest[0] == 0x2e;
            let rest2 = if rest.len() > 0 {
                rest.skip(1)
            } else {
                rest
            };
            let has_ext = e[8] != 0;
            if has_dot != has_ext {
                false
            } else if has_dot {
                match match_prefix(rest2, e.subrange(8, 11), 0u8) {
                    None => false,
                    Some(k2) => rest2.len() == k2,
                }
            } else {
                rest2.len() == 0
            }
        },
    }
}

/// A name matches long name entries taken in order.
pub open spec fn long_name_matches(es: Seq<Seq<u8>>, units: Seq<u16>) -> bool {
    match_arrays(units, all_long_arrays(es))
}

/// The index after the elements of `a` before its first 0, if `s` from
/// `pos` holds them.
pub(crate) fn match_with_array_u8(s: &[u8], pos: usize, a: &[u8]) -> (r: Option<usize>)
    requires
        pos <= s@.len(),
    ensures
        r == (match match_prefix(s@.skip(pos as int), a@, 0u8) {
            Some(k) => Some((pos + k) as usize),
            None => None::<usize>,
        }),
{
    let ghost rest = s@.skip(pos as int);
    let _n = s.len();
    let mut i: usize = 0;
    while i < a.len()
        invariant
            i <= a@.len(),
            s@.len() <= usize::MAX,
            rest == s@.skip(pos as int),
            pos <= s@.len(),
            forall|j: int| 0 <= j < i ==> a@[j] != 0u8,
            i <= rest.len(),
            pos + i <= s@.len(),
            rest.take(i as int) == a@.take(i as int),
        ensures
            i == a@.len() || a@[i as int] == 0u8,
            forall|j: int| 0 <= j < i ==> a@[j] != 0u8,
            i <= rest.len(),
            pos + i <= s@.len(),
            rest.take(i as int) == a@.take(i as int),
        decreases a@.len() - i,
    {
        if a[i] == 0 {
            break;
        }
        if pos + i >= s.len() {
            proof {
                lemma_first_zero_at_least(a@, 0u8, i as int);
            }
            return None;
        }
        if s[pos + i] != a[i] {
            proof {
                lemma_first_zero_at_least(a@, 0u8, i as int);
                assert(rest[i as int] == s@[pos + i]);
                let fz = first_zero(a@, 0u8) as int;
                if fz <= rest.len() {
                    assert(rest.take(fz)[i as int] != a@.take(fz)[i as int]);
                }
            }
            return None;
        }
        i = i + 1;
        proof {
            assert(rest.take(i as int) =~= a@.take(i as int));
        }
    }
    proof {
        lemma_first_zero_is(a@, 0u8, i as int);
    }
    Some(pos + i)
}

/// The index after the elements of `a` before its first 0, if `s` from
/// `pos` holds them.
pub(crate) fn match_with_array_u16(s: &[u16], pos: usize, a: &[u16]) -> (r: Option<usize>)
    requires
        pos <= s@.len(),
    ensures
        r == (match match_prefix(s@.skip(pos as int), a@, 0u16) {
            Some(k) => Some((pos + k) as usize),
            None => None::<usize>,
        }),
{
    let ghost rest = s@.skip(pos as int);
    let _n = s.len();
    let mut i: usize = 0;
    while i < a.len()
        invariant
            i <= a@.len(),
            s@.len() <= usize::MAX,
            rest == s@.skip(pos as int),
            pos <= s@.len(),
            forall|j: int| 0 <= j < i ==> a@[j] != 0u16,
            i <= rest.len(),
            pos + i <= s@.len(),
            rest.take(i as int) == a@.take(i as int),
        ensures
            i == a@.len() || a@[i as int] == 0u16,
            forall|j: int| 0 <= j < i ==> a@[j] != 0u16,
            i <= rest.len(),
            pos + i <= s@.len(),
            rest.take(i as int) == a@.take(i as int),
        decreases a@.len() - i,
    {
        if a[i] == 0 {
            break;
        }
        if pos + i >= s.len() {
            proof {
                lemma_first_zero_at_least(a@, 0u16, i as int);
            }
            return None;
        }
        if s[pos + i] != a[i] {
            proof {
                lemma_first_zero_at_least(a@, 0u16, i as int);
                assert(rest[i as int] == s@[pos + i]);
                let fz = first_zero(a@, 0u16) as int;
                if fz <= rest.len() {
                    assert(rest.take(fz)[i as int] != a@.take(fz)[i as int]);
                }
            }
            return None;
        }
        i = i + 1;
        proof {
            assert(rest.take(i as int) =~= a@.take(i as int));
        }
    }
    proof {
        lemma_first_zero_is(a@, 0u16, i as int);
    }
    Some(pos + i)
}

proof fn lemma_first_zero_at_least<T>(a: Seq<T>, zero: T, i: int)
    requires
        0 <= i < a.len(),
        forall|j: int| 0 <= j <= i ==> a[j] != zero,
    ensures
        first_zero(a, zero) > i,
        first_zero(a, zero) <= a.len(),
    decreases i,
{
    lemma_first_zero_le(a, zero);
    if i > 0 {
        lemma_first_zero_at_least(a.drop_first(), zero, i - 1);
    }
}

proof fn lemma_first_zero_le<T>(a: Seq<T>, zero: T)
    ensures
        first_zero(a, zero) <= a.len(),
    decreases a.len(),
{
    if a.len() > 0 && a[0] != zero {
        lemma_first_zero_le(a.drop_first(), zero);
    }
}

proof fn lemma_first_zero_is<T>(a: Seq<T>, zero: T, i: int)
    requires
        0 <= i <= a.len(),
        forall|j: int| 0 <= j < i ==> a[j] != zero,
        i == a.len() || a[i] == zero,
    ensures
        first_zero(a, zero) == i,
    decreases i,
{
    if i > 0 {
        lemma_first_zero_is(a.drop_first(), zero, i - 1);
    }
}

/// Bytes `from..to` of `e`.
pub(crate) fn entry_slice(e: &Vec<u8>, from: usize, to: usize) -> (r: Vec<u8>)
    requires
        from <= to <= e@.len(),
    ensures
        r@ == e@.subrange(from as int, to as int),
{
    let mut r: Vec<u8> = Vec::new();
    let mut k: usize = from;
    while k < to
        invariant
            from <= k <= to,
            to <= e@.len(),
            r@ == e@.subrange(from as int, k as int),
        decreases to - k,
    {
        r.push(e[k]);
        k = k + 1;
        proof {
            assert(r@ =~= e@.subrange(from as int, k as int));
        }
    }
    r
}

/// Units stored little-endian, one after another.
pub open spec fn le16s(u: Seq<u16>) -> Seq<u8>
    decreases u.len(),
{
    if u.len() == 0 {
        Seq::empty()
    } else {
        le16s(u.drop_last()) + spec_u16_to_le_bytes(u.last())
    }
}

/// The short entry the file system writes: the name "????????.???", the
/// attribute and the first cluster; everything else 0.
pub open spec fn short_entry_bytes(cluster: u32, attr: u8) -> Seq<u8> {
    Seq::new(11, |i: int| 0x3fu8) + seq![attr] + Seq::new(8, |i: int| 0u8)
        + spec_u16_to_le_bytes(((cluster >> 16) & 0xffff) as u16) + Seq::new(4, |i: int| 0u8)
        + spec_u16_to_le_bytes((cluster & 0xffff) as u16) + Seq::new(4, |i: int| 0u8)
}

/// The 13 units of long entry `e`: the name's units from `13 * e` on, 0 past
/// its end.
pub open spec fn entry_units(units: Seq<u16>, e: int) -> Seq<u16> {
    Seq::new(13, |k: int| if 13 * e + k < units.len() { units[13 * e + k] } else { 0u16 })
}

/// A long name entry: its order byte, then the units in three arrays around
/// the attribute, type, checksum and cluster fields.
pub open spec fn long_entry_bytes(order: u8, u: Seq<u16>) -> Seq<u8> {
    seq![order] + le16s(u.subrange(0, 5)) + seq![ATTR_LONG_NAME, 0u8, 0u8] + le16s(u.subrange(5, 11))
        + seq![0u8, 0u8] + le16s(u.subrange(11, 13))
}

/// The number of long entries a name of `n` units takes.
pub open spec fn long_entry_count(n: int) -> int {
    n / 13 + if n % 13 == 0 {
        0int
    } else {
        1int
    }
}

/// The long name entries of a name: 13 units each, numbered from 0.
pub open spec fn long_entries(units: Seq<u16>) -> Seq<Seq<u8>> {
    Seq::new(
        long_entry_count(units.len() as int) as nat,
        |e: int| long_entry_bytes(e as u8, entry_units(units, e)),
    )
}

/// Appends the units little-endian.
fn push_units(v: &mut Vec<u8>, u: &Vec<u16>, from: usize, to: usize)
    requires
        from <= to <= u@.len(),
    ensures
        final(v)@ == old(v)@ + le16s(u@.subrange(from as int, to as int)),
{
    let mut k: usize = from;
    let ghost v0 = v@;
    proof {
        assert(u@.subrange(from as int, from as int) =~= Seq::<u16>::empty());
        assert(v0 + le16s(Seq::<u16>::empty()) =~= v0);
    }
    while k < to
        invariant
            from <= k <= to,
            to <= u@.len(),
            v@ == v0 + le16s(u@.subrange(from as int, k as int)),
        decreases to - k,
    {
        push_u16_le(v, u[k]);
        k = k + 1;
        proof {
            let s = u@.subrange(from as int, k as int);
            assert(s.drop_last() =~= u@.subrange(from as int, k - 1));
            assert(v@ =~= v0 + le16s(s));
        }
    }
}

/// Builds the short entry the file system writes.
pub fn build_short_entry(cluster: u32, attr: u8) -> (v: Vec<u8>)
    ensures
        v@ == short_entry_bytes(cluster, attr),
        v@.len() == 32,
{
    let mut v: Vec<u8> = Vec::new();
    let q: Vec<u8> = vec![0x3fu8; 11];
    push_bytes(&mut v, q.as_slice());
    let a: Vec<u8> = vec![attr];
    push_bytes(&mut v, a.as_slice());
    push_zeros(&mut v, 8);
    push_u16_le(&mut v, ((cluster >> 16) & 0xffff) as u16);
    push_zeros(&mut v, 4);
    push_u16_le(&mut v, (cluster & 0xffff) as u16);
    push_zeros(&mut v, 4);
    proof {
        assert(q@ =~= Seq::new(11, |i: int| 0x3fu8));
        vstd::bytes::lemma_auto_spec_u16_to_from_le_bytes();
    }
    v
}

/// Builds long entry `e` of a name, whose units start at `pos`.
fn build_long_entry(units: &Vec<u16>, e: usize, pos: usize) -> (v: Vec<u8>)
    requires
        pos == 13 * e,
        pos < units@.len(),
    ensures
        v@ == long_entry_bytes(e as u8, entry_units(units@, e as int)),
        v@.len() == 32,
{
    let mut u: Vec<u16> = Vec::new();
    let mut k: usize = 0;
    while k < 13
        invariant
            k <= 13,
            pos == 13 * e,
            pos < units@.len(),
            u@ == entry_units(units@, e as int).take(k as int),
        decreases 13 - k,
    {
        if k < units.len() - pos {
            u.push(units[pos + k]);
        } else {
            u.push(0);
        }
        k = k + 1;
        proof {
            assert(u@ =~= entry_units(units@, e as int).take(k as int));
        }
    }
    proof {
        assert(u@ =~= entry_units(units@, e as int));
    }
    let mut v: Vec<u8> = Vec::new();
    let order: Vec<u8> = vec![e as u8];
    push_bytes(&mut v, order.as_slice());
    push_units(&mut v, &u, 0, 5);
    let mid: Vec<u8> = vec![ATTR_LONG_NAME, 0u8, 0u8];
    push_bytes(&mut v, mid.as_slice());
    push_units(&mut v, &u, 5, 11);
    push_zeros(&mut v, 2);
    push_units(&mut v, &u, 11, 13);
    proof {
        lemma_le16s_len(u@.subrange(0, 5));
        lemma_le16s_len(u@.subrange(5, 11));
        lemma_le16s_len(u@.subrange(11, 13));
        assert(Seq::new(2, |i: int| 0u8) =~= seq![0u8, 0u8]);
    }
    v
}

pub proof fn lemma_le16s_len(u: Seq<u16>)
    ensures
        le16s(u).len() == 2 * u.len(),
    decreases u.len(),
{
    vstd::bytes::lemma_auto_spec_u16_to_from_le_bytes();
    if u.len() > 0 {
        lemma_le16s_len(u.drop_last());
    }
}

/// Unit `k` of `u`, written little-endian, is bytes `2k, 2k + 1`.
proof fn lemma_le16s_unit(u: Seq<u16>, k: int)
    requires
        0 <= k < u.len(),
    ensures
        le16s(u).subrange(2 * k, 2 * k + 2) == spec_u16_to_le_bytes(u[k]),
        le16s(u).len() == 2 * u.len(),
    decreases u.len(),
{
    vstd::bytes::lemma_auto_spec_u16_to_from_le_bytes();
    lemma_le16s_len(u);
    lemma_le16s_len(u.drop_last());
    let init = u.drop_last();
    if k < u.len() - 1 {
        lemma_le16s_unit(init, k);
        assert(le16s(u).subrange(2 * k, 2 * k + 2) =~= le16s(init).subrange(2 * k, 2 * k + 2));
    } else {
        assert(le16s(u).subrange(2 * k, 2 * k + 2) =~= spec_u16_to_le_bytes(u.last()));
    }
}

/// Unit `k` of `u`, read back from bytes where `le16s(u)` starts at `at`.
proof fn lemma_le16_at_unit(pre: Seq<u8>, u: Seq<u16>, post: Seq<u8>, k: int)
    requires
        0 <= k < u.len(),
    ensures
        le16_at(pre + le16s(u) + post, pre.len() + 2 * k) == u[k],
{
    vstd::bytes::lemma_auto_spec_u16_to_from_le_bytes();
    lemma_le16s_unit(u, k);
    let e = pre + le16s(u) + post;
    let at = pre.len() + 2 * k;
    assert(e.subrange(at, at + 2) =~= le16s(u).subrange(2 * k, 2 * k + 2));
}

/// The name arrays of a long entry are the 13 units it was built from.
pub proof fn lemma_long_arrays_of_entry(order: u8, u: Seq<u16>)
    requires
        u.len() == 13,
    ensures
        long_arrays(long_entry_bytes(order, u)) == seq![u.subrange(0, 5), u.subrange(5, 11), u.subrange(11, 13)],
        long_entry_bytes(order, u).len() == 32,
        long_entry_bytes(order, u)[0] == order,
        long_entry_bytes(order, u)[11] == ATTR_LONG_NAME,
{
    let a = u.subrange(0, 5);
    let b = u.subrange(5, 11);
    let c = u.subrange(11, 13);
    lemma_le16s_len(a);
    lemma_le16s_len(b);
    lemma_le16s_len(c);
    let e = long_entry_bytes(order, u);
    let p1 = seq![order];
    let mid = seq![ATTR_LONG_NAME, 0u8, 0u8];
    let p2 = p1 + le16s(a) + mid;
    let p3 = p2 + le16s(b) + seq![0u8, 0u8];
    assert(e =~= p1 + le16s(a) + (mid + le16s(b) + seq![0u8, 0u8] + le16s(c)));
    assert forall|k: int| 0 <= k < 5 implies le16_at(e, long_unit_offset(k)) == a[k] by {
        lemma_le16_at_unit(p1, a, mid + le16s(b) + seq![0u8, 0u8] + le16s(c), k);
    }
    assert(e =~= p2 + le16s(b) + (seq![0u8, 0u8] + le16s(c)));
    assert forall|k: int| 0 <= k < 6 implies le16_at(e, long_unit_offset(k + 5)) == b[k] by {
        lemma_le16_at_unit(p2, b, seq![0u8, 0u8] + le16s(c), k);
    }
    assert(e =~= p3 + le16s(c) + Seq::<u8>::empty());
    assert forall|k: int| 0 <= k < 2 implies le16_at(e, long_unit_offset(k + 11)) == c[k] by {
        lemma_le16_at_unit(p3, c, Seq::<u8>::empty(), k);
    }
    let arr = long_arrays(e);
    assert(arr[0] =~= a);
    assert(arr[1] =~= b);
    assert(arr[2] =~= c);
    assert(arr =~= seq![a, b, c]);
}

/// Units `p .. p + m` of `units`, 0 past its end.
pub open spec fn padded(units: Seq<u16>, p: int, m: int) -> Seq<u16> {
    Seq::new(m as nat, |j: int| if p + j < units.len() { units[p + j] } else { 0u16 })
}

/// A name without 0 units, from its unit `p` on, is matched by its padded
/// units `p .. p + m` up to the first 0.
proof fn lemma_match_padded(units: Seq<u16>, p: int, m: int)
    requires
        forall|i: int| 0 <= i < units.len() ==> #[trigger] units[i] != 0,
        0 <= p,
        0 <= m,
    ensures
        ({
            let lo = if p < units.len() { p } else { units.len() as int };
            let hi = if p + m < units.len() { p + m } else { units.len() as int };
            &&& match_prefix(units.skip(lo), padded(units, p, m), 0u16) == Some((hi - lo) as nat)
            &&& units.skip(lo).skip(hi - lo) == units.skip(hi)
        }),
{
    let lo = if p < units.len() { p } else { units.len() as int };
    let hi = if p + m < units.len() { p + m } else { units.len() as int };
    let a = padded(units, p, m);
    let k = hi - lo;
    assert(0 <= k <= m);
    assert forall|j: int| 0 <= j < k implies a[j] != 0u16 by {
        assert(p + j < units.len());
        assert(a[j] == units[p + j]);
    }
    if k < m {
        assert(a[k] == 0u16);
    }
    lemma_first_zero_is(a, 0u16, k);
    assert(units.skip(lo).take(k) =~= a.take(k));
    assert(units.skip(lo).skip(k) =~= units.skip(hi));
}

/// The long entries of a name, from entry `e` on, spell the rest of the name.
proof fn lemma_match_entries(units: Seq<u16>, e: int)
    requires
        forall|i: int| 0 <= i < units.len() ==> #[trigger] units[i] != 0,
        0 <= e <= long_entry_count(units.len() as int),
    ensures
        match_arrays(
            units.skip(if 13 * e < units.len() { 13 * e } else { units.len() as int }),
            all_long_arrays(long_entries(units).skip(e)),
        ),
    decreases long_entry_count(units.len() as int) - e,
{
    let len = units.len() as int;
    let n = long_entry_count(len);
    vstd::arithmetic::div_mod::lemma_fundamental_div_mod(len, 13);
    assert(13 * n >= len);
    let es = long_entries(units).skip(e);
    let s0 = units.skip(if 13 * e < len { 13 * e } else { len });
    if e == n {
        assert(es =~= Seq::<Seq<u8>>::empty());
        assert(13 * e >= len);
        assert(s0.len() == 0);
    } else {
        let u = entry_units(units, e);
        lemma_long_arrays_of_entry(e as u8, u);
        assert(es[0] == long_entry_bytes(e as u8, u));
        assert(u.subrange(0, 5) =~= padded(units, 13 * e, 5));
        assert(u.subrange(5, 11) =~= padded(units, 13 * e + 5, 6));
        assert(u.subrange(11, 13) =~= padded(units, 13 * e + 11, 2));
        let r = all_long_arrays(es.drop_first());
        assert(es.drop_first() =~= long_entries(units).skip(e + 1));
        let arr = all_long_arrays(es);
        let p1 = padded(units, 13 * e, 5);
        let p2 = padded(units, 13 * e + 5, 6);
        let p3 = padded(units, 13 * e + 11, 2);
        assert(arr == seq![p1, p2, p3] + r);
        lemma_match_padded(units, 13 * e, 5);
        lemma_match_padded(units, 13 * e + 5, 6);
        lemma_match_padded(units, 13 * e + 11, 2);
        lemma_match_entries(units, e + 1);
        let s1 = units.skip(if 13 * e + 5 < len { 13 * e + 5 } else { len });
        let s2 = units.skip(if 13 * e + 11 < len { 13 * e + 11 } else { len });
        let s3 = units.skip(if 13 * (e + 1) < len { 13 * (e + 1) } else { len });
        let a2 = seq![p2, p3] + r;
        let a3 = seq![p3] + r;
        assert(arr.drop_first() =~= a2);
        assert(a2.drop_first() =~= a3);
        assert(a3.drop_first() =~= r);
        assert(match_arrays(s2, a3));
        assert(match_arrays(s1, a2));
        assert(match_arrays(s0, arr));
    }
}

/// The long entries built for a name without 0 units spell it.
pub proof fn lemma_long_entries_match(units: Seq<u16>)
    requires
        forall|i: int| 0 <= i < units.len() ==> #[trigger] units[i] != 0,
    ensures
        long_name_matches(long_entries(units), units),
{
    lemma_match_entries(units, 0);
    assert(units.skip(0) =~= units);
    assert(long_entries(units).skip(0) =~= long_entries(units));
}

/// Builds the long name entries of a name.
pub fn build_long_entries(units: &Vec<u16>) -> (v: Vec<Vec<u8>>)
    ensures
        v@.map_values(|r: Vec<u8>| r@) == long_entries(units@),
        forall|i: int| 0 <= i < v@.len() ==> #[trigger] v@[i]@.len() == 32,
{
    let n = units.len();
    let mut v: Vec<Vec<u8>> = Vec::new();
    let mut e: usize = 0;
    let mut pos: usize = 0;
    while pos < n
        invariant
            pos == 13 * e,
            n == units@.len(),
            pos < n ==> e < long_entry_count(n as int),
            pos >= n ==> e == long_entry_count(n as int),
            v@.map_values(|r: Vec<u8>| r@) == long_entries(units@).take(e as int),
            forall|i: int| 0 <= i < v@.len() ==> #[trigger] v@[i]@.len() == 32,
        decreases n - pos,
    {
        let entry = build_long_entry(units, e, pos);
        let ghost v0 = v@;
        v.push(entry);
        proof {
            assert(long_entries(units@)[e as int] == entry@);
            assert(v@.map_values(|r: Vec<u8>| r@) =~= v0.map_values(|r: Vec<u8>| r@).push(entry@));
            assert(v@.map_values(|r: Vec<u8>| r@) =~= long_entries(units@).take(e + 1));
        }
        proof {
            assert((pos + 13 < n ==> e + 1 < long_entry_count(n as int)) && (pos + 13 >= n ==> e + 1
                == long_entry_count(n as int))) by (nonlinear_arith)
                requires
                    pos == 13 * e,
                    pos < n,
            ;
        }
        e = e + 1;
        if n - pos <= 13 {
            pos = n;
            proof {
                assert(v@.map_values(|r: Vec<u8>| r@) =~= long_entries(units@));
            }
            return v;
        }
        pos = pos + 13;
    }
    proof {
        assert(long_entries(units@).take(e as int) =~= long_entries(units@));
    }
    v
}

/// An ASCII whitespace byte: space, tab, line feed, form feed or carriage return.
pub open spec fn is_ascii_ws(b: u8) -> bool {
    b == 0x20 || b == 0x09 || b == 0x0a || b == 0x0c || b == 0x0d
}

/// `b` without leading ASCII whitespace.
pub open spec fn trim_start(b: Seq<u8>) -> Seq<u8>
    decreases b.len(),
{
    if b.len() > 0 && is_ascii_ws(b[0]) {
        trim_start(b.drop_first())
    } else {
        b
    }
}

/// `b` without trailing ASCII whitespace.
pub open spec fn trim_end(b: Seq<u8>) -> Seq<u8>
    decreases b.len(),
{
    if b.len() > 0 && is_ascii_ws(b.last()) {
        trim_end(b.drop_last())
    } else {
        b
    }
}

/// `b` without ASCII whitespace at either end.
pub open spec fn trim_ascii(b: Seq<u8>) -> Seq<u8> {
    trim_end(trim_start(b))
}

/// `b` without ASCII whitespace at either end.
pub fn trim_ascii_vec(b: &Vec<u8>) -> (r: Vec<u8>)
    ensures
        r@ == trim_ascii(b@),
{
    let n = b.len();
    let mut i: usize = 0;
    proof {
        assert(b@.skip(0) =~= b@);
    }
    while i < n && (b[i] == 0x20 || b[i] == 0x09 || b[i] == 0x0a || b[i] == 0x0c || b[i] == 0x0d)
        invariant
            i <= n,
            n == b@.len(),
            trim_start(b@) == trim_start(b@.skip(i as int)),
        decreases n - i,
    {
        proof {
            assert(b@.skip(i as int).drop_first() =~= b@.skip(i + 1));
        }
        i = i + 1;
    }
    let mut j: usize = n;
    proof {
        assert(trim_start(b@.skip(i as int)) == b@.skip(i as int));
        assert(b@.skip(i as int) =~= b@.subrange(i as int, j as int));
    }
    while j > i && (b[j - 1] == 0x20 || b[j - 1] == 0x09 || b[j - 1] == 0x0a || b[j - 1] == 0x0c
        || b[j - 1] == 0x0d)
        invariant
            i <= j <= n,
            n == b@.len(),
            trim_start(b@) == b@.skip(i as int),
            trim_ascii(b@) == trim_end(b@.subrange(i as int, j as int)),
        decreases j,
    {
        proof {
            assert(b@.subrange(i as int, j as int).drop_last() =~= b@.subrange(i as int, j - 1));
        }
        j = j - 1;
    }
    entry_slice(b, i, j)
}

/// The arrays joined one after another.
pub open spec fn flat(arrays: Seq<Seq<u16>>) -> Seq<u16>
    decreases arrays.len(),
{
    if arrays.len() == 0 {
        Seq::empty()
    } else {
        flat(arrays.drop_last()) + arrays.last()
    }
}

/// The unit is not 0.
pub open spec fn nonzero_unit(u: u16) -> bool {
    u != 0
}

/// The UTF-16 units of long name entries, one after another, 0 left out.
pub open spec fn long_name_units(es: Seq<Seq<u8>>) -> Seq<u16> {
    flat(all_long_arrays(es)).filter(|u: u16| nonzero_unit(u))
}

pub proof fn lemma_all_long_arrays_add(a: Seq<Seq<u8>>, b: Seq<Seq<u8>>)
    ensures
        all_long_arrays(a + b) == all_long_arrays(a) + all_long_arrays(b),
    decreases a.len(),
{
    if a.len() == 0 {
        assert(a + b =~= b);
        assert(all_long_arrays(a) + all_long_arrays(b) =~= all_long_arrays(b));
    } else {
        assert((a + b).drop_first() =~= a.drop_first() + b);
        lemma_all_long_arrays_add(a.drop_first(), b);
        assert(all_long_arrays(a + b) =~= all_long_arrays(a) + all_long_arrays(b));
    }
}

proof fn lemma_all_long_arrays_take(es: Seq<Seq<u8>>, k: int)
    requires
        0 <= k < es.len(),
    ensures
        all_long_arrays(es.take(k + 1)) == all_long_arrays(es.take(k)) + long_arrays(es[k]),
{
    assert(es.take(k + 1) =~= es.take(k) + seq![es[k]]);
    lemma_all_long_arrays_add(es.take(k), seq![es[k]]);
    let one = seq![es[k]];
    assert(one.drop_first() =~= Seq::<Seq<u8>>::empty());
    assert(all_long_arrays(one.drop_first()) =~= Seq::<Seq<u16>>::empty());
    assert(all_long_arrays(one) == long_arrays(one[0]) + all_long_arrays(one.drop_first()));
    assert(all_long_arrays(one) =~= long_arrays(es[k]));
}

/// The units of long name entries, one after another, 0 left out.
pub fn collect_long_units(es: &Vec<Vec<u8>>) -> (r: Vec<u16>)
    requires
        forall|i: int| 0 <= i < es@.len() ==> #[trigger] es@[i]@.len() == 32,
    ensures
        r@ == long_name_units(es@.map_values(|x: Vec<u8>| x@)),
{
    let ghost rs = es@.map_values(|x: Vec<u8>| x@);
    let mut all: Vec<u16> = Vec::new();
    let mut k: usize = 0;
    proof {
        assert(rs.take(0) =~= Seq::<Seq<u8>>::empty());
    }
    while k < es.len()
        invariant
            k <= es@.len(),
            rs == es@.map_values(|x: Vec<u8>| x@),
            forall|i: int| 0 <= i < es@.len() ==> #[trigger] es@[i]@.len() == 32,
            all@ == flat(all_long_arrays(rs.take(k as int))),
        decreases es@.len() - k,
    {
        proof {
            lemma_all_long_arrays_take(rs, k as int);
        }
        let mut w: usize = 0;
        let ghost done = all_long_arrays(rs.take(k as int));
        proof {
            assert(done + long_arrays(rs[k as int]).take(0) =~= done);
        }
        while w < 3
            invariant
                w <= 3,
                k < es@.len(),
                es@[k as int]@.len() == 32,
                rs[k as int] == es@[k as int]@,
                all@ == flat(done + long_arrays(rs[k as int]).take(w as int)),
            decreases 3 - w,
        {
            let a = long_array_of(&es[k], w);
            let ghost before = done + long_arrays(rs[k as int]).take(w as int);
            let mut i: usize = 0;
            let ghost all0 = all@;
            while i < a.len()
                invariant
                    i <= a@.len(),
                    all@ == all0 + a@.take(i as int),
                decreases a@.len() - i,
            {
                all.push(a[i]);
                i = i + 1;
                proof {
                    assert(all@ =~= all0 + a@.take(i as int));
                }
            }
            proof {
                assert(a@.take(a@.len() as int) =~= a@);
                let after = done + long_arrays(rs[k as int]).take(w + 1);
                assert(after.drop_last() =~= before);
                assert(after.last() == a@);
            }
            w = w + 1;
        }
        proof {
            assert(long_arrays(rs[k as int]).take(3) =~= long_arrays(rs[k as int]));
        }
        k = k + 1;
    }
    proof {
        assert(rs.take(es@.len() as int) =~= rs);
    }
    let ghost full = all@;
    let mut r: Vec<u16> = Vec::new();
    let mut i: usize = 0;
    proof {
        reveal(Seq::filter);
        assert(full.take(0) =~= Seq::<u16>::empty());
    }
    while i < all.len()
        invariant
            i <= full.len(),
            full == all@,
            r@ == full.take(i as int).filter(|u: u16| nonzero_unit(u)),
        decreases full.len() - i,
    {
        proof {
            reveal(Seq::filter);
            assert(full.take(i + 1).drop_last() =~= full.take(i as int));
        }
        if all[i] != 0 {
            r.push(all[i]);
        }
        i = i + 1;
    }
    proof {
        assert(full.take(full.len() as int) =~= full);
    }
    r
}


/// The name an entry shows: its long name when it has long entries, else
/// its short name and extension, trimmed and joined by a dot.
pub open spec fn entry_name(short: Seq<u8>, long: Seq<Seq<u8>>) -> Seq<char> {
    if long.len() == 0 {
        let base = trim_ascii(short.subrange(0, 8));
        let ext = trim_ascii(short.subrange(8, 11));
        if ext.len() == 0 {
            utf8_lossy(base)
        } else {
            utf8_lossy(base) + seq!['.'] + utf8_lossy(ext)
        }
    } else {
        decode_utf16_lossy(long_name_units(long))
    }
}

/// `s` followed by `t` (`String + &str`).
#[verifier::external_body]
pub(crate) fn append_str(s: String, t: &str) -> (r: String)
    ensures
        r@ == s@ + t@,
{
    s + t
}

/// The UTF-16 units of name array `which` (0, 1 or 2) of a long name entry.
pub fn long_array_of(e: &Vec<u8>, which: usize) -> (r: Vec<u16>)
    requires
        e@.len() == 32,
        which < 3,
    ensures
        r@ == long_arrays(e@)[which as int],
{
    let (first, n): (usize, usize) = if which == 0 {
        (0, 5)
    } else if which == 1 {
        (5, 6)
    } else {
        (11, 2)
    };
    let mut r: Vec<u16> = Vec::new();
    let mut k: usize = 0;
    while k < n
        invariant
            k <= n,
            e@.len() == 32,
            (first == 0 && n == 5) || (first == 5 && n == 6) || (first == 11 && n == 2),
            r@ == Seq::new(k as nat, |i: int| le16_at(e@, long_unit_offset(i + first))),
        decreases n - k,
    {
        let i = k + first;
        let off: usize = if i < 5 {
            1 + 2 * i
        } else if i < 11 {
            14 + 2 * (i - 5)
        } else {
            28 + 2 * (i - 11)
        };
        r.push(read_u16_le(e.as_slice(), off));
        k = k + 1;
        proof {
            assert(r@ =~= Seq::new(k as nat, |i: int| le16_at(e@, long_unit_offset(i + first))));
        }
    }
    proof {
        if which == 0 {
            assert(r@ =~= long_arrays(e@)[0]);
        } else if which == 1 {
            assert(r@ =~= long_arrays(e@)[1]);
        } else {
            assert(r@ =~= long_arrays(e@)[2]);
        }
    }
    r
}

/// The arrays of `a` and then those of `b`, flattened, are the flattened
/// arrays of `a` followed by those of `b`.
proof fn lemma_flat_add(a: Seq<Seq<u16>>, b: Seq<Seq<u16>>)
    ensures
        flat(a + b) == flat(a) + flat(b),
    decreases b.len(),
{
    if b.len() == 0 {
        assert(a + b =~= a);
        assert(flat(a) + flat(b) =~= flat(a));
    } else {
        assert((a + b).drop_last() =~= a + b.drop_last());
        assert((a + b).last() == b.last());
        lemma_flat_add(a, b.drop_last());
        assert(flat(a + b) =~= flat(a) + flat(b));
    }
}

/// The units `u` followed by zeros up to `n` units.
pub open spec fn padded_units(u: Seq<u16>, n: int) -> Seq<u16> {
    Seq::new(n as nat, |i: int| if i < u.len() { u[i] } else { 0u16 })
}

/// The name arrays of the first `e` long entries of a name hold its units,
/// padded with zeros.
proof fn lemma_long_entries_units(u: Seq<u16>, e: int)
    requires
        0 <= e <= long_entry_count(u.len() as int),
    ensures
        flat(all_long_arrays(long_entries(u).take(e))) == padded_units(u, 13 * e),
    decreases e,
{
    let es = long_entries(u);
    if e == 0 {
        assert(es.take(0) =~= Seq::<Seq<u8>>::empty());
        assert(padded_units(u, 0) =~= Seq::<u16>::empty());
    } else {
        lemma_long_entries_units(u, e - 1);
        lemma_all_long_arrays_take(es, e - 1);
        let w = entry_units(u, e - 1);
        lemma_long_arrays_of_entry((e - 1) as u8, w);
        let arrs = long_arrays(es[e - 1]);
        lemma_flat_add(all_long_arrays(es.take(e - 1)), arrs);
        assert(arrs == seq![w.subrange(0, 5), w.subrange(5, 11), w.subrange(11, 13)]);
        let x0 = w.subrange(0, 5);
        let x1 = w.subrange(5, 11);
        let x2 = w.subrange(11, 13);
        assert(arrs.drop_last() =~= seq![x0, x1]);
        assert(seq![x0, x1].drop_last() =~= seq![x0]);
        assert(seq![x0].drop_last() =~= Seq::<Seq<u16>>::empty());
        assert(flat(Seq::<Seq<u16>>::empty()) == Seq::<u16>::empty());
        assert(seq![x0].last() == x0);
        assert(flat(seq![x0]) == flat(seq![x0].drop_last()) + seq![x0].last());
        assert(flat(seq![x0]) =~= x0);
        assert(flat(seq![x0, x1]) =~= x0 + x1);
        assert(flat(arrs) =~= x0 + x1 + x2);
        assert(w.subrange(0, 5) + w.subrange(5, 11) + w.subrange(11, 13) =~= w);
        assert(padded_units(u, 13 * (e - 1)) + w =~= padded_units(u, 13 * e));
    }
}

/// Keeping the nonzero units of units that are all nonzero keeps them all.
proof fn lemma_filter_nonzero_all(u: Seq<u16>, pred: spec_fn(u16) -> bool)
    requires
        forall|x: u16| #[trigger] pred(x) <==> x != 0,
        forall|i: int| 0 <= i < u.len() ==> #[trigger] u[i] != 0,
    ensures
        u.filter(pred) == u,
    decreases u.len(),
{
    reveal(Seq::filter);
    if u.len() > 0 {
        lemma_filter_nonzero_all(u.drop_last(), pred);
        assert(pred(u.last()));
        assert(u.drop_last().push(u.last()) =~= u);
    }
}

/// Zeros after the units are left out.
proof fn lemma_filter_padding(u: Seq<u16>, n: int, pred: spec_fn(u16) -> bool)
    requires
        forall|x: u16| #[trigger] pred(x) <==> x != 0,
        u.len() <= n,
    ensures
        padded_units(u, n).filter(pred) == u.filter(pred),
    decreases n,
{
    reveal(Seq::filter);
    let p = padded_units(u, n);
    if n == u.len() {
        assert(p =~= u);
    } else {
        lemma_filter_padding(u, n - 1, pred);
        assert(p.drop_last() =~= padded_units(u, n - 1));
        assert(p.last() == 0u16);
        assert(!pred(p.last()));
    }
}

/// No character other than U+0000 has a zero unit in UTF-16.
proof fn lemma_encode_utf16_nonzero(s: Seq<char>)
    requires
        forall|i: int| 0 <= i < s.len() ==> #[trigger] s[i] != '\0',
    ensures
        forall|i: int| 0 <= i < encode_utf16(s).len() ==> #[trigger] encode_utf16(s)[i] != 0,
    decreases s.len(),
{
    if s.len() > 0 {
        let c = s[0];
        let rest = s.drop_first();
        assert forall|i: int| 0 <= i < rest.len() implies #[trigger] rest[i] != '\0' by {
            assert(rest[i] == s[i + 1]);
        }
        lemma_encode_utf16_nonzero(rest);
        let x = c as u32;
        vstd::utf8::char_is_scalar(c);
        vstd::utf8::char_u32_cast(c, x);
        let head = utf16_of_char(c);
        let e = encode_utf16(s);
        assert(e == head + encode_utf16(rest));
        if x < 0x10000 {
            assert(x != 0);
            assert((x as u16) as int == x as int);
        }
        assert forall|i: int| 0 <= i < e.len() implies #[trigger] e[i] != 0 by {
            if i < head.len() {
            } else {
                assert(e[i] == encode_utf16(rest)[i - head.len()]);
            }
        }
    }
}

/// A name written as long name entries reads back as the same name: the
/// entries hold its UTF-16 units, 13 to an entry and padded with zeros, and
/// decoding the units gives the name. A name holding U+0000 would end early,
/// and the empty name takes no entry.
pub proof fn lemma_long_name_read_back(short: Seq<u8>, name: Seq<char>)
    requires
        name.len() > 0,
        forall|i: int| 0 <= i < name.len() ==> #[trigger] name[i] != '\0',
    ensures
        entry_name(short, long_entries(encode_utf16(name))) == name,
{
    let u = encode_utf16(name);
    lemma_encode_utf16_nonzero(name);
    assert(utf16_of_char(name[0]).len() > 0);
    assert(u.len() > 0) by {
        assert(u == utf16_of_char(name[0]) + encode_utf16(name.drop_first()));
    }
    let count = long_entry_count(u.len() as int);
    vstd::arithmetic::div_mod::lemma_fundamental_div_mod(u.len() as int, 13);
    assert(count >= 1);
    assert(13 * count >= u.len());
    let es = long_entries(u);
    lemma_long_entries_units(u, count);
    assert(es.take(count) =~= es);
    let pred = |x: u16| nonzero_unit(x);
    lemma_filter_padding(u, 13 * count, pred);
    lemma_filter_nonzero_all(u, pred);
    assert(long_name_units(es) == u);
    lemma_decode_encode_utf16(name);
}

} // verus!
