//! The random oracle `RO(t, x)`: a tag and an input hashed to a matrix over Z_q.
use vstd::prelude::*;
use crate::blake::{blake3_derive_key_xof, derive_key_xof, extend_from, u64_le, u64_to_le_bytes};
use crate::modular::reduce_q;
use crate::params::{Zq, ZqAccum, H_ROWS, N, Q};

verus! {

/// A vector of `N` elements of Z_q (one row of the hash matrix).
#[derive(Debug, PartialEq, Eq)]
pub struct ZqVector(pub(crate) Vec<Zq>);

/// A matrix of `H_ROWS` x `N` elements of Z_q, produced by hashing an input.
#[derive(Debug, PartialEq, Eq)]
pub struct ZqMatrix(pub(crate) Vec<ZqVector>);

impl View for ZqVector {
    type V = Seq<Zq>;

    closed spec fn view(&self) -> Seq<Zq> {
        self.0@
    }
}

impl View for ZqMatrix {
    type V = Seq<Seq<Zq>>;

    closed spec fn view(&self) -> Seq<Seq<Zq>> {
        self.0@.map_values(|v: ZqVector| v@)
    }
}

impl Clone for ZqVector {
    fn clone(&self) -> (r: Self)
        ensures
            r@ == self@,
    {
        proof {
            use_type_invariant(self);
        }
        ZqVector(self.0.clone())
    }
}

impl Clone for ZqMatrix {
    fn clone(&self) -> (r: Self)
        ensures
            r@ == self@,
    {
        proof {
            use_type_invariant(self);
        }
        let mut rows: Vec<ZqVector> = Vec::new();
        let mut i: usize = 0;
        while i < self.0.len()
            invariant
                i <= self.0@.len(),
                rows@.len() == i,
                forall|j: int| 0 <= j < i ==> (#[trigger] rows@[j])@ == self.0@[j]@,
            decreases self.0@.len() - i,
        {
            rows.push(self.0[i].clone());
            i = i + 1;
        }
        let r = ZqMatrix(rows);
        assert(r@ =~= self@);
        r
    }
}

/// A row of `N` reduced elements.
pub open spec fn is_zq_row(v: Seq<Zq>) -> bool {
    v.len() == N && forall|i: int| 0 <= i < v.len() ==> v[i] < Q
}

/// `H_ROWS` rows of `N` reduced elements.
pub open spec fn is_zq_matrix(m: Seq<Seq<Zq>>) -> bool {
    m.len() == H_ROWS && forall|r: int| 0 <= r < m.len() ==> is_zq_row(#[trigger] m[r])
}

impl ZqVector {
    #[verifier::type_invariant]
    spec fn wf(self) -> bool {
        is_zq_row(self.0@)
    }

    pub fn as_slice(&self) -> (r: &[Zq])
        ensures
            r@ == self@,
            is_zq_row(r@),
    {
        proof {
            use_type_invariant(self);
        }
        self.0.as_slice()
    }
}

impl ZqMatrix {
    #[verifier::type_invariant]
    spec fn wf(self) -> bool {
        self.0@.len() == H_ROWS
    }

    /// Row `idx`; it must be one of the `H_ROWS`.
    pub fn row(&self, idx: usize) -> (r: &ZqVector)
        requires
            idx < H_ROWS,
        ensures
            r@ == self@[idx as int],
            is_zq_row(r@),
    {
        proof {
            use_type_invariant(self);
        }
        let r = &self.0[idx];
        proof {
            use_type_invariant(r);
        }
        r
    }
}

/// Domain separator for the random oracle.
pub const RO_DOMAIN_SEPARATOR: &'static str = "pool-oprf v1 random oracle to zq matrix";

/// Bytes of BLAKE3 output the oracle reads: two per element.
pub const RO_OUTPUT_BYTES: usize = 15424;

/// What the oracle hashes: the tag's length as eight little-endian bytes,
/// then the tag, then the input.
pub open spec fn ro_message(tag: Seq<u8>, input: Seq<u8>) -> Seq<u8> {
    u64_le(tag.len() as u64) + tag + input
}

/// Element `i` of a matrix read from BLAKE3 output: two little-endian bytes,
/// reduced mod q.
pub open spec fn element_from_bytes(bytes: Seq<u8>, i: int) -> Zq {
    ((bytes[2 * i] + 256 * bytes[2 * i + 1]) % (Q as int)) as Zq
}

/// The matrix read from `bytes`, row after row.
pub open spec fn matrix_from_bytes(bytes: Seq<u8>) -> Seq<Seq<Zq>> {
    Seq::new(
        H_ROWS as nat,
        |r: int| Seq::new(N as nat, |i: int| element_from_bytes(bytes, r * (N as int) + i)),
    )
}

/// `RO(t, x)`.
pub open spec fn ro_matrix(tag: Seq<u8>, input: Seq<u8>) -> Seq<Seq<Zq>> {
    matrix_from_bytes(
        blake3_derive_key_xof(
            RO_DOMAIN_SEPARATOR@,
            ro_message(tag, input),
            0,
            RO_OUTPUT_BYTES as nat,
        ),
    )
}

/// The bytes of BLAKE3 output the oracle reads for `RO(t, x)`.
pub open spec fn ro_bytes(tag: Seq<u8>, input: Seq<u8>) -> Seq<u8> {
    blake3_derive_key_xof(RO_DOMAIN_SEPARATOR@, ro_message(tag, input), 0, RO_OUTPUT_BYTES as nat)
}

/// Two bytes `lo`, `hi` read as a little-endian 16-bit number and reduced
/// mod q = 2^12 keep all of `lo` and the low four bits of `hi`.
proof fn lemma_two_bytes_mod_q(lo: u8, hi: u8)
    ensures
        ((lo + 256 * hi) % (Q as int)) == lo + 256 * (hi % 16),
{
    let l = lo as u32;
    let h = hi as u32;
    assert((l + 256 * h) % 4096 == l + 256 * (h % 16)) by (bit_vector)
        requires
            l < 256,
            h < 256,
    ;
}

/// Element `(r, i)` of `RO(t, x)` is the little-endian 16-bit number made of
/// BLAKE3 output bytes `2k` and `2k + 1`, with `k = r * N + i`, reduced mod
/// q: the low byte whole, plus 256 times the high byte's low four bits. So
/// the elements range over all of `[0, q)`, and every output byte the oracle
/// reads shows in the matrix.
pub proof fn lemma_ro_matrix_elements(tag: Seq<u8>, input: Seq<u8>, r: int, i: int)
    requires
        0 <= r < H_ROWS,
        0 <= i < N,
    ensures
        ({
            let b = ro_bytes(tag, input);
            let k = r * (N as int) + i;
            &&& ro_matrix(tag, input)[r][i] as int == b[2 * k] + 256 * (b[2 * k + 1] % 16)
            &&& ro_matrix(tag, input)[r][i] % 256 == b[2 * k]
            &&& ro_matrix(tag, input)[r][i] / 256 == b[2 * k + 1] % 16
        }),
{
    let b = ro_bytes(tag, input);
    let k = r * (N as int) + i;
    lemma_two_bytes_mod_q(b[2 * k], b[2 * k + 1]);
}

/// Every element of the oracle's matrix is reduced mod q.
pub proof fn lemma_ro_matrix_reduced(tag: Seq<u8>, input: Seq<u8>)
    ensures
        is_zq_matrix(ro_matrix(tag, input)),
{
}

/// The tag's length prefix makes the oracle's message tell tag from input:
/// two different (tag, input) pairs never hash the same bytes.
pub proof fn lemma_ro_message_injective(t1: Seq<u8>, x1: Seq<u8>, t2: Seq<u8>, x2: Seq<u8>)
    requires
        t1.len() <= u64::MAX,
        t2.len() <= u64::MAX,
        ro_message(t1, x1) == ro_message(t2, x2),
    ensures
        t1 == t2,
        x1 == x2,
{
    let m1 = ro_message(t1, x1);
    let m2 = ro_message(t2, x2);
    assert(m1.take(8) =~= u64_le(t1.len() as u64));
    assert(m2.take(8) =~= u64_le(t2.len() as u64));
    crate::blake::lemma_u64_le_injective(t1.len() as u64, t2.len() as u64);
    assert(t1.len() == t2.len());
    assert(t1 =~= m1.subrange(8, 8 + t1.len() as int));
    assert(t2 =~= m2.subrange(8, 8 + t2.len() as int));
    assert(x1 =~= m1.skip(8 + t1.len() as int));
    assert(x2 =~= m2.skip(8 + t2.len() as int));
}

/// Hash a tag and an input to a matrix in Z_q^{H_ROWS x N} using BLAKE3 in
/// XOF mode. This is `RO(t, x)` from Figure 4.
///
/// `tag` is the public input of the partial OPRF. The tag's length goes in
/// first so the hash can tell where the tag ends.
///
/// Each element is 12 bits: two bytes of the XOF output, reduced mod q.
pub fn hash_to_zq_matrix(tag: &[u8], input: &[u8]) -> (m: ZqMatrix)
    ensures
        m@ == ro_matrix(tag@, input@),
        forall|r: int, i: int|
            0 <= r < H_ROWS && 0 <= i < N ==> (#[trigger] m@[r][i]) as int == ro_bytes(tag@, input@)[2
                * (r * (N as int) + i)] + 256 * (ro_bytes(tag@, input@)[2 * (r * (N as int) + i) + 1]
                % 16),
{
    let mut message: Vec<u8> = Vec::new();
    let len_bytes = u64_to_le_bytes(tag.len() as u64);
    extend_from(&mut message, &len_bytes);
    extend_from(&mut message, tag);
    extend_from(&mut message, input);
    assert(message@ =~= ro_message(tag@, input@));
    let buf = derive_key_xof(RO_DOMAIN_SEPARATOR, &message, 0, RO_OUTPUT_BYTES);
    let ghost target = matrix_from_bytes(buf@);

    let mut rows: Vec<ZqVector> = Vec::new();
    let mut row: usize = 0;
    while row < H_ROWS
        invariant
            row <= H_ROWS,
            buf@.len() == RO_OUTPUT_BYTES,
            target == matrix_from_bytes(buf@),
            rows@.len() == row,
            forall|r: int| 0 <= r < row ==> (#[trigger] rows@[r])@ == target[r],
        decreases H_ROWS - row,
    {
        let offset = row * N * 2;
        let mut vec: Vec<Zq> = Vec::new();
        let mut i: usize = 0;
        while i < N
            invariant
                row < H_ROWS,
                offset == row * N * 2,
                buf@.len() == RO_OUTPUT_BYTES,
                target == matrix_from_bytes(buf@),
                i <= N,
                vec@.len() == i,
                forall|j: int| 0 <= j < i ==> #[trigger] vec@[j] == target[row as int][j],
                forall|j: int| 0 <= j < i ==> #[trigger] vec@[j] < Q,
            decreases N - i,
        {
            let lo = buf[offset + 2 * i] as ZqAccum;
            let hi = buf[offset + 2 * i + 1] as ZqAccum;
            let v = reduce_q(lo + 256 * hi);
            assert(offset + 2 * i == 2 * (row * N + i));
            vec.push(v);
            i = i + 1;
        }
        let ghost t = target[row as int];
        assert(vec@ =~= t);
        let v = ZqVector(vec);
        rows.push(v);
        row = row + 1;
    }
    let m = ZqMatrix(rows);
    assert(m@ =~= target);
    assert forall|r: int, i: int| 0 <= r < H_ROWS && 0 <= i < N implies (#[trigger] m@[r][i]) as int
        == ro_bytes(tag@, input@)[2 * (r * (N as int) + i)] + 256 * (ro_bytes(tag@, input@)[2 * (r
        * (N as int) + i) + 1] % 16) by {
        lemma_ro_matrix_elements(tag@, input@, r, i);
    }
    m
}

} // verus!
