//! The BLAKE3 computations the library hashes with, and the byte encodings
//! that feed them.
use vstd::prelude::*;

verus! {

/// The bytes BLAKE3's key-derivation mode produces for `context` over
/// `data`: its extendable output, `len` bytes read from `position` on.
pub uninterp spec fn blake3_derive_key_xof(
    context: Seq<char>,
    data: Seq<u8>,
    position: nat,
    len: nat,
) -> Seq<u8>;

/// The 32-byte BLAKE3 hash of `data` in the regular (unkeyed) mode.
pub uninterp spec fn blake3_hash(data: Seq<u8>) -> Seq<u8>;

/// Reads `len` bytes of the extendable output of
/// `blake3::Hasher::new_derive_key(context)` after `update(data)`, starting at
/// stream offset `position` (`OutputReader::set_position`, then
/// `OutputReader::fill`).
///
/// Trusted: the bytes are those of the name `blake3_derive_key_xof` on these
/// arguments, and there are `len` of them (`fill` always fills the whole
/// buffer). The crate documents output beyond 2^64 - 1 bytes as unspecified,
/// so the read must end before that.
#[verifier::external_body]
pub(crate) fn derive_key_xof(context: &str, data: &[u8], position: u64, len: usize) -> (out: Vec<u8>)
    requires
        position + len <= u64::MAX,
    ensures
        out@ == blake3_derive_key_xof(context@, data@, position as nat, len as nat),
        out@.len() == len,
{
    let mut hasher = blake3::Hasher::new_derive_key(context);
    hasher.update(data);
    let mut reader = hasher.finalize_xof();
    reader.set_position(position);
    let mut out = vec![0u8; len];
    reader.fill(&mut out);
    out
}

/// `blake3::Hasher::new().update(data).finalize()`, as its 32 bytes.
///
/// Trusted: the result is the name `blake3_hash` of `data`, 32 bytes long.
#[verifier::external_body]
pub(crate) fn hash(data: &[u8]) -> (out: [u8; 32])
    ensures
        out@ == blake3_hash(data@),
{
    let mut hasher = blake3::Hasher::new();
    hasher.update(data);
    *hasher.finalize().as_bytes()
}

/// The eight little-endian bytes of `x`.
pub open spec fn u64_le(x: u64) -> Seq<u8> {
    seq![
        (x & 0xff) as u8,
        ((x >> 8u64) & 0xff) as u8,
        ((x >> 16u64) & 0xff) as u8,
        ((x >> 24u64) & 0xff) as u8,
        ((x >> 32u64) & 0xff) as u8,
        ((x >> 40u64) & 0xff) as u8,
        ((x >> 48u64) & 0xff) as u8,
        ((x >> 56u64) & 0xff) as u8,
    ]
}

/// The little-endian bytes of `x`.
pub fn u64_to_le_bytes(x: u64) -> (r: [u8; 8])
    ensures
        r@ == u64_le(x),
{
    let r = [
        (x & 0xff) as u8,
        ((x >> 8u64) & 0xff) as u8,
        ((x >> 16u64) & 0xff) as u8,
        ((x >> 24u64) & 0xff) as u8,
        ((x >> 32u64) & 0xff) as u8,
        ((x >> 40u64) & 0xff) as u8,
        ((x >> 48u64) & 0xff) as u8,
        ((x >> 56u64) & 0xff) as u8,
    ];
    assert(r@ =~= u64_le(x));
    r
}

/// The little-endian encoding of a `u64` is one to one.
pub proof fn lemma_u64_le_injective(x: u64, y: u64)
    requires
        u64_le(x) == u64_le(y),
    ensures
        x == y,
{
    assert(u64_le(x)[0] == u64_le(y)[0]);
    assert(u64_le(x)[1] == u64_le(y)[1]);
    assert(u64_le(x)[2] == u64_le(y)[2]);
    assert(u64_le(x)[3] == u64_le(y)[3]);
    assert(u64_le(x)[4] == u64_le(y)[4]);
    assert(u64_le(x)[5] == u64_le(y)[5]);
    assert(u64_le(x)[6] == u64_le(y)[6]);
    assert(u64_le(x)[7] == u64_le(y)[7]);
    assert(x == y) by (bit_vector)
        requires
            (x & 0xff) as u8 == (y & 0xff) as u8,
            ((x >> 8u64) & 0xff) as u8 == ((y >> 8u64) & 0xff) as u8,
            ((x >> 16u64) & 0xff) as u8 == ((y >> 16u64) & 0xff) as u8,
            ((x >> 24u64) & 0xff) as u8 == ((y >> 24u64) & 0xff) as u8,
            ((x >> 32u64) & 0xff) as u8 == ((y >> 32u64) & 0xff) as u8,
            ((x >> 40u64) & 0xff) as u8 == ((y >> 40u64) & 0xff) as u8,
            ((x >> 48u64) & 0xff) as u8 == ((y >> 48u64) & 0xff) as u8,
            ((x >> 56u64) & 0xff) as u8 == ((y >> 56u64) & 0xff) as u8,
    ;
}

/// Append all of `src` to `dst`.
pub(crate) fn extend_from(dst: &mut Vec<u8>, src: &[u8])
    ensures
        final(dst)@ == old(dst)@ + src@,
{
    let mut i: usize = 0;
    while i < src.len()
        invariant
            i <= src.len(),
            dst@ == old(dst)@ + src@.take(i as int),
        decreases src.len() - i,
    {
        dst.push(src[i]);
        i = i + 1;
        assert(src@.take(i as int) =~= src@.take((i - 1) as int).push(src@[i - 1]));
    }
    assert(src@.take(i as int) =~= src@);
}

} // verus!
