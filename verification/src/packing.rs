//! Bit-packed Z_q vectors: a Z_q element takes LOG_Q = 12 bits on the wire,
//! written lowest bit first, so two elements fill three bytes.
use vstd::prelude::*;
use crate::params::{Zq, N, Q};

verus! {

/// Element `i` of `values`, or 0 past the end.
pub open spec fn elem(values: Seq<Zq>, i: int) -> Zq {
    if 0 <= i < values.len() {
        values[i]
    } else {
        0
    }
}

/// Bytes that `n` packed elements take: `ceil(12 n / 8)`.
pub open spec fn packed_len(n: int) -> int {
    (12 * n + 7) / 8
}

/// Byte `b` of the packing of `values`: bits `8b .. 8b + 8` of the elements
/// laid out 12 bits each, lowest first, zero-padded to a whole byte.
pub open spec fn packed_byte(values: Seq<Zq>, b: int) -> u8 {
    let p = b / 3;
    let lo = elem(values, 2 * p);
    let hi = elem(values, 2 * p + 1);
    if b % 3 == 0 {
        (lo & 0xff) as u8
    } else if b % 3 == 1 {
        ((lo >> 8u16) | ((hi & 0xf) << 4u16)) as u8
    } else {
        (hi >> 4u16) as u8
    }
}

/// The packing of `values`.
pub open spec fn pack_spec(values: Seq<Zq>) -> Seq<u8> {
    Seq::new(packed_len(values.len() as int) as nat, |b: int| packed_byte(values, b))
}

/// Element `i` read from packed bytes: bits `12i .. 12i + 12`.
pub open spec fn unpacked_elem(bytes: Seq<u8>, i: int) -> Zq {
    let p = i / 2;
    if i % 2 == 0 {
        ((bytes[3 * p] as u16) | (((bytes[3 * p + 1] & 0xf) as u16) << 8u16)) as Zq
    } else {
        (((bytes[3 * p + 1] >> 4u8) as u16) | ((bytes[3 * p + 2] as u16) << 4u16)) as Zq
    }
}

/// Pack `values`, `LOG_Q` bits each. Every value must be reduced mod q.
pub fn pack(values: &[Zq]) -> (r: Vec<u8>)
    requires
        forall|i: int| 0 <= i < values@.len() ==> #[trigger] values@[i] < Q,
        12 * values@.len() + 7 <= usize::MAX,
    ensures
        r@ == pack_spec(values@),
{
    let n = values.len();
    let mut out: Vec<u8> = Vec::new();
    let mut p: usize = 0;
    while 2 * p < n
        invariant
            n == values@.len(),
            12 * n + 7 <= usize::MAX,
            2 * p <= n + 1,
            2 * p < n ==> out@.len() == 3 * p,
            out@.len() == (if 2 * p <= n { 3 * p } else { packed_len(n as int) }),
            forall|b: int| 0 <= b < out@.len() ==> #[trigger] out@[b] == packed_byte(values@, b),
        decreases n + 1 - 2 * p,
    {
        let lo = values[2 * p];
        out.push((lo & 0xff) as u8);
        assert(out@[3 * p as int] == packed_byte(values@, 3 * p as int));
        if 2 * p + 1 < n {
            let hi = values[2 * p + 1];
            out.push(((lo >> 8u16) | ((hi & 0xf) << 4u16)) as u8);
            out.push((hi >> 4u16) as u8);
            assert(out@[3 * p + 1] == packed_byte(values@, 3 * p + 1));
            assert(out@[3 * p + 2] == packed_byte(values@, 3 * p + 2));
        } else {
            out.push((lo >> 8u16) as u8);
            assert((lo >> 8u16) | ((0u16 & 0xf) << 4u16) == lo >> 8u16) by (bit_vector);
            assert(out@[3 * p + 1] == packed_byte(values@, 3 * p + 1));
            assert(out@.len() == packed_len(n as int));
        }
        p = p + 1;
    }
    assert(out@.len() == packed_len(n as int));
    assert(out@ =~= pack_spec(values@));
    out
}

/// Unpack `len` elements, or `None` if `bytes` runs out first. Bytes past
/// the last element are ignored.
pub fn unpack(bytes: &[u8], len: usize) -> (r: Option<Vec<Zq>>)
    requires
        12 * len + 7 <= usize::MAX,
    ensures
        8 * bytes@.len() < 12 * len <==> r is None,
        r matches Some(v) ==> v@.len() == len && forall|i: int| 0 <= i < len ==> #[trigger] v@[i]
            == unpacked_elem(bytes@, i),
{
    let n_bytes = bytes.len();
    if n_bytes < (12 * len + 7) / 8 {
        return None;
    }
    let mut out: Vec<Zq> = Vec::new();
    let mut i: usize = 0;
    while i < len
        invariant
            i <= len,
            n_bytes == bytes@.len(),
            12 * len + 7 <= usize::MAX,
            8 * n_bytes >= 12 * len,
            out@.len() == i,
            forall|j: int| 0 <= j < i ==> #[trigger] out@[j] == unpacked_elem(bytes@, j),
        decreases len - i,
    {
        let p = i / 2;
        if i % 2 == 0 {
            let v = (bytes[3 * p] as u16) | (((bytes[3 * p + 1] & 0xf) as u16) << 8u16);
            out.push(v);
        } else {
            let v = ((bytes[3 * p + 1] >> 4u8) as u16) | ((bytes[3 * p + 2] as u16) << 4u16);
            out.push(v);
        }
        i = i + 1;
    }
    Some(out)
}

/// Packing then unpacking gives back the values: the packing takes
/// `ceil(12 n / 8)` bytes, which is enough for `unpack` to read `n` elements
/// (it refuses only fewer), and element `i` reads back as `values[i]`.
pub proof fn lemma_pack_round_trip(values: Seq<Zq>)
    requires
        forall|i: int| 0 <= i < values.len() ==> #[trigger] values[i] < Q,
    ensures
        pack_spec(values).len() == (12 * values.len() + 7) / 8,
        8 * pack_spec(values).len() >= 12 * values.len(),
        forall|i: int| 0 <= i < values.len() ==> #[trigger] unpacked_elem(pack_spec(values), i)
            == values[i],
{
    let bytes = pack_spec(values);
    assert forall|i: int| 0 <= i < values.len() implies #[trigger] unpacked_elem(bytes, i)
        == values[i] by {
        let p = i / 2;
        let lo = elem(values, 2 * p);
        let hi = elem(values, 2 * p + 1);
        assert(lo < 4096);
        assert(hi < 4096);
        if i % 2 == 0 {
            assert(i == 2 * p);
            let b0 = bytes[3 * p];
            let b1 = bytes[3 * p + 1];
            assert(b0 == (lo & 0xff) as u8);
            assert(b1 == ((lo >> 8u16) | ((hi & 0xf) << 4u16)) as u8);
            assert(((b0 as u16) | (((b1 & 0xf) as u16) << 8u16)) == lo) by (bit_vector)
                requires
                    lo < 4096,
                    b0 == (lo & 0xff) as u8,
                    b1 == ((lo >> 8u16) | ((hi & 0xf) << 4u16)) as u8,
            ;
        } else {
            assert(i == 2 * p + 1);
            let b1 = bytes[3 * p + 1];
            let b2 = bytes[3 * p + 2];
            assert(b1 == ((lo >> 8u16) | ((hi & 0xf) << 4u16)) as u8);
            assert(b2 == (hi >> 4u16) as u8);
            assert((((b1 >> 4u8) as u16) | ((b2 as u16) << 4u16)) == hi) by (bit_vector)
                requires
                    hi < 4096,
                    lo < 4096,
                    b1 == ((lo >> 8u16) | ((hi & 0xf) << 4u16)) as u8,
                    b2 == (hi >> 4u16) as u8,
            ;
        }
    }
}

/// Why a packed vector was refused.
#[derive(Debug)]
pub enum PackingError {
    /// The vector claims `count` elements, not `N`.
    WrongCount { count: u64 },
    /// The bytes are short of the count.
    Short,
}

/// A packed row of `N` elements as it goes on the wire: its element count,
/// then its packed bytes.
pub fn encode_row(values: &[Zq]) -> (r: (u64, Vec<u8>))
    requires
        values@.len() == N,
        forall|i: int| 0 <= i < values@.len() ==> #[trigger] values@[i] < Q,
    ensures
        r.0 == N,
        r.1@ == pack_spec(values@),
{
    (N as u64, pack(values))
}

/// A row of `N` elements from its element count and packed bytes. Fails if
/// the count is not `N` or the bytes are short of it.
pub fn decode_row(count: u64, bytes: &[u8]) -> (r: Result<Vec<Zq>, PackingError>)
    ensures
        count != N ==> (r matches Err(PackingError::WrongCount { count: c }) && c == count),
        count == N && 8 * bytes@.len() < 12 * N ==> r matches Err(PackingError::Short),
        count == N && 8 * bytes@.len() >= 12 * N ==> (r matches Ok(v) && v@.len() == N && forall|
            i: int,
        | 0 <= i < N ==> #[trigger] v@[i] == unpacked_elem(bytes@, i)),
{
    if count != N as u64 {
        return Err(PackingError::WrongCount { count });
    }
    match unpack(bytes, N) {
        Some(v) => Ok(v),
        None => Err(PackingError::Short),
    }
}

} // verus!
