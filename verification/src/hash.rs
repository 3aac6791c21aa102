use vstd::prelude::*;

verus! {

/// What `twox_hash::xxh3::hash64` (XXH3, 64 bits, seed 0) returns for `data`.
pub uninterp spec fn xxh3_64(data: Seq<u8>) -> u64;

/// `twox_hash::xxh3::hash64`: the result is [`xxh3_64`] of the bytes, a function of them alone.
#[verifier::external_body]
pub(crate) fn xxh3_of(data: &[u8]) -> (r: u64)
    ensures
        r == xxh3_64(data@),
{
    twox_hash::xxh3::hash64(data)
}

/// The big-endian bytes of `x`.
pub open spec fn be_bytes_u64(x: u64) -> Seq<u8> {
    seq![
        (x >> 56u64) as u8,
        (x >> 48u64) as u8,
        (x >> 40u64) as u8,
        (x >> 32u64) as u8,
        (x >> 24u64) as u8,
        (x >> 16u64) as u8,
        (x >> 8u64) as u8,
        x as u8,
    ]
}

/// The little-endian bytes of `x`.
pub open spec fn le_bytes_u64(x: u64) -> Seq<u8> {
    seq![
        x as u8,
        (x >> 8u64) as u8,
        (x >> 16u64) as u8,
        (x >> 24u64) as u8,
        (x >> 32u64) as u8,
        (x >> 40u64) as u8,
        (x >> 48u64) as u8,
        (x >> 56u64) as u8,
    ]
}

/// Appends the little-endian bytes of `x` to `buf`.
pub fn push_le_u64(buf: &mut Vec<u8>, x: u64)
    ensures
        final(buf)@ == old(buf)@ + le_bytes_u64(x),
{
    buf.push(x as u8);
    buf.push((x >> 8u64) as u8);
    buf.push((x >> 16u64) as u8);
    buf.push((x >> 24u64) as u8);
    buf.push((x >> 32u64) as u8);
    buf.push((x >> 40u64) as u8);
    buf.push((x >> 48u64) as u8);
    buf.push((x >> 56u64) as u8);
    assert(buf@ =~= old(buf)@ + le_bytes_u64(x));
}

/// The big-endian bytes of `x`.
pub open spec fn be_bytes_u128(x: u128) -> Seq<u8> {
    be_bytes_u64((x >> 64u128) as u64) + be_bytes_u64(x as u64)
}

/// Appends the big-endian bytes of `x` to `buf`.
pub fn push_be_u64(buf: &mut Vec<u8>, x: u64)
    ensures
        final(buf)@ == old(buf)@ + be_bytes_u64(x),
{
    buf.push((x >> 56u64) as u8);
    buf.push((x >> 48u64) as u8);
    buf.push((x >> 40u64) as u8);
    buf.push((x >> 32u64) as u8);
    buf.push((x >> 24u64) as u8);
    buf.push((x >> 16u64) as u8);
    buf.push((x >> 8u64) as u8);
    buf.push(x as u8);
    assert(buf@ =~= old(buf)@ + be_bytes_u64(x));
}

/// The 64-bit XXH3 hash of the big-endian bytes of `data`.
pub fn hash_u64(data: u64) -> (r: u64)
    ensures
        r == xxh3_64(be_bytes_u64(data)),
{
    let mut buf: Vec<u8> = Vec::new();
    push_be_u64(&mut buf, data);
    assert(buf@ =~= be_bytes_u64(data));
    xxh3_of(buf.as_slice())
}

/// The 64-bit XXH3 hash of the big-endian bytes of `data`, in the upper half of a `u128`.
pub fn hash_u128(data: u128) -> (r: u128)
    ensures
        r == xxh3_64(be_bytes_u128(data)) * 0x1_0000_0000_0000_0000,
{
    let mut buf: Vec<u8> = Vec::new();
    push_be_u64(&mut buf, (data >> 64u128) as u64);
    push_be_u64(&mut buf, data as u64);
    assert(buf@ =~= be_bytes_u128(data));
    let h = xxh3_of(buf.as_slice());
    (h as u128) * 0x1_0000_0000_0000_0000u128
}

} // verus!
