use vstd::bytes::{
    spec_u16_from_le_bytes, spec_u16_to_le_bytes, spec_u32_from_le_bytes, spec_u32_to_le_bytes,
    u16_from_le_bytes, u16_to_le_bytes, u32_from_le_bytes, u32_to_le_bytes,
};
use vstd::prelude::*;
use vstd::slice::slice_subrange;

verus! {

/// The little-endian `u16` at `i`.
pub open spec fn le16_at(b: Seq<u8>, i: int) -> u16 {
    spec_u16_from_le_bytes(b.subrange(i, i + 2))
}

/// The little-endian `u32` at `i`.
pub open spec fn le32_at(b: Seq<u8>, i: int) -> u32 {
    spec_u32_from_le_bytes(b.subrange(i, i + 4))
}

/// `bytes` put over `b` at `i`.
pub open spec fn put_at(b: Seq<u8>, i: int, bytes: Seq<u8>) -> Seq<u8> {
    b.take(i) + bytes + b.skip(i + bytes.len())
}

pub fn read_u16_le(b: &[u8], i: usize) -> (x: u16)
    requires
        i + 2 <= b@.len(),
    ensures
        x == le16_at(b@, i as int),
{
    let _n = b.len();
    u16_from_le_bytes(slice_subrange(b, i, i + 2))
}

pub fn read_u32_le(b: &[u8], i: usize) -> (x: u32)
    requires
        i + 4 <= b@.len(),
    ensures
        x == le32_at(b@, i as int),
{
    let _n = b.len();
    u32_from_le_bytes(slice_subrange(b, i, i + 4))
}

/// Overwrites `b` from `i` with `bytes`.
pub fn write_bytes(b: &mut Vec<u8>, i: usize, bytes: &[u8])
    requires
        i + bytes@.len() <= old(b)@.len(),
    ensures
        final(b)@ == put_at(old(b)@, i as int, bytes@),
{
    let ghost b0 = b@;
    let _n = b.len();
    let mut k: usize = 0;
    while k < bytes.len()
        invariant
            k <= bytes@.len(),
            i + bytes@.len() <= b@.len(),
            b@.len() <= usize::MAX,
            b@.len() == b0.len(),
            forall|j: int|
                0 <= j < b@.len() ==> #[trigger] b@[j] == if i <= j < i + k {
                    bytes@[j - i]
                } else {
                    b0[j]
                },
        decreases bytes@.len() - k,
    {
        b.set(i + k, bytes[k]);
        k = k + 1;
    }
    assert(b@ =~= put_at(b0, i as int, bytes@));
}

/// Stores `x` little-endian at `i`.
pub fn write_u16_le(b: &mut Vec<u8>, i: usize, x: u16)
    requires
        i + 2 <= old(b)@.len(),
    ensures
        final(b)@ == put_at(old(b)@, i as int, spec_u16_to_le_bytes(x)),
        le16_at(final(b)@, i as int) == x,
        final(b)@.len() == old(b)@.len(),
{
    let v = u16_to_le_bytes(x);
    write_bytes(b, i, v.as_slice());
    proof {
        assert(b@.subrange(i as int, i + 2) =~= spec_u16_to_le_bytes(x));
        vstd::bytes::lemma_auto_spec_u16_to_from_le_bytes();
    }
}

/// Stores `x` little-endian at `i`.
pub fn write_u32_le(b: &mut Vec<u8>, i: usize, x: u32)
    requires
        i + 4 <= old(b)@.len(),
    ensures
        final(b)@ == put_at(old(b)@, i as int, spec_u32_to_le_bytes(x)),
        le32_at(final(b)@, i as int) == x,
        final(b)@.len() == old(b)@.len(),
{
    let v = u32_to_le_bytes(x);
    write_bytes(b, i, v.as_slice());
    proof {
        assert(b@.subrange(i as int, i + 4) =~= spec_u32_to_le_bytes(x));
        vstd::bytes::lemma_auto_spec_u32_to_from_le_bytes();
    }
}


/// Appends `bytes`.
pub fn push_bytes(v: &mut Vec<u8>, bytes: &[u8])
    ensures
        final(v)@ == old(v)@ + bytes@,
{
    let ghost v0 = v@;
    let mut k: usize = 0;
    while k < bytes.len()
        invariant
            k <= bytes@.len(),
            v@ == v0 + bytes@.take(k as int),
        decreases bytes@.len() - k,
    {
        v.push(bytes[k]);
        k = k + 1;
        proof {
            assert(v@ =~= v0 + bytes@.take(k as int));
        }
    }
    assert(bytes@.take(bytes@.len() as int) =~= bytes@);
}

/// Appends `n` zero bytes.
pub fn push_zeros(v: &mut Vec<u8>, n: usize)
    ensures
        final(v)@ == old(v)@ + Seq::new(n as nat, |i: int| 0u8),
{
    let ghost v0 = v@;
    let mut k: usize = 0;
    while k < n
        invariant
            k <= n,
            v@ == v0 + Seq::new(k as nat, |i: int| 0u8),
        decreases n - k,
    {
        v.push(0u8);
        k = k + 1;
        proof {
            assert(v@ =~= v0 + Seq::new(k as nat, |i: int| 0u8));
        }
    }
}

/// Appends `x` little-endian.
pub fn push_u16_le(v: &mut Vec<u8>, x: u16)
    ensures
        final(v)@ == old(v)@ + spec_u16_to_le_bytes(x),
{
    let b = u16_to_le_bytes(x);
    push_bytes(v, b.as_slice());
}

/// Appends `x` little-endian.
pub fn push_u32_le(v: &mut Vec<u8>, x: u32)
    ensures
        final(v)@ == old(v)@ + spec_u32_to_le_bytes(x),
{
    let b = u32_to_le_bytes(x);
    push_bytes(v, b.as_slice());
}

/// The little-endian `u32` at `i` of a vector.
pub fn read_u32_le_checked(b: &Vec<u8>, i: usize) -> (x: u32)
    requires
        i + 4 <= b@.len(),
    ensures
        x == le32_at(b@, i as int),
{
    read_u32_le(b.as_slice(), i)
}

} // verus!
