//! Constraint (K): `sk` opens `pk`, and each key bit is 0 or 1.
//!
//! `pk` is a [`KeyCommitment`] to `sk`. [`pack_key`] reads
//! [`BITS_PER_ELEMENT`] bits at a time, lowest first, into a number, so that
//! the key becomes the field elements the commitment takes as input.
use vstd::prelude::*;
use vstd::arithmetic::power2::{pow2, lemma2_to64, lemma_pow2_unfold};
use crate::commitment::{commitment_of, Commitment, BABYBEAR_ORDER, KEY_DOMAIN, RATE};
use crate::params::N;
use crate::prf::{is_key_bits, SecretKey};
use crate::statement::Statement;

verus! {

/// Key bits per packed element: the largest `b` with `2^b` below the
/// BabyBear order.
pub const BITS_PER_ELEMENT: usize = 30;

/// `N` bits, [`BITS_PER_ELEMENT`] per element, rounded up. The last element
/// is padded with zero bits.
pub const PACKED_KEY_ELEMENTS: usize = 17;

/// What the commitment ingests: the domain and the packed key.
pub const INPUT_ELEMENTS: usize = 18;

/// `pk`: a commitment to the packed key.
pub type KeyCommitment = Commitment<KEY_DOMAIN, PACKED_KEY_ELEMENTS>;

/// The packing's sizes: `2^30 <= order < 2^31`, so 30 bits is the most an
/// element holds for every value; 17 elements of 30 bits are the fewest that
/// hold `N` bits; and the commitment ingests the domain and those elements.
pub proof fn lemma_packing_sizes()
    ensures
        pow2(BITS_PER_ELEMENT as nat) <= BABYBEAR_ORDER < pow2(BITS_PER_ELEMENT as nat + 1),
        PACKED_KEY_ELEMENTS == (N + BITS_PER_ELEMENT - 1) / (BITS_PER_ELEMENT as int),
        INPUT_ELEMENTS == 1 + PACKED_KEY_ELEMENTS,
{
    lemma2_to64();
}

/// `sum_{p < count} bits[start + p] * 2^p`.
pub open spec fn bits_value(bits: Seq<u8>, start: int, count: nat) -> nat
    decreases count,
{
    if count == 0 {
        0
    } else {
        bits_value(bits, start, (count - 1) as nat) + (bits[start + count - 1] as nat) * pow2(
            (count - 1) as nat,
        )
    }
}

/// How many key bits element `e` holds: 30, or what is left for the last.
pub open spec fn element_bits(e: int) -> nat {
    if N - 30 * e >= 30 {
        30
    } else {
        (N - 30 * e) as nat
    }
}

/// Element `e` of the packed key: bits `30e ..` read lowest first.
pub open spec fn packed_element(bits: Seq<u8>, e: int) -> nat {
    bits_value(bits, 30 * e, element_bits(e))
}

/// `acc | (b << pos)` adds bit `b` at `pos` to a number below `2^pos`.
proof fn lemma_or_bit(acc: u32, b: u32, pos: u32)
    requires
        pos < 30,
        b <= 1,
        acc < pow2(pos as nat),
    ensures
        acc | (b << pos) == acc + b * pow2(pos as nat),
        acc + b * pow2(pos as nat) < pow2(pos as nat + 1),
{
    vstd::bits::lemma_u32_pow2_no_overflow(pos as nat);
    vstd::bits::lemma_u32_shl_is_mul(1, pos);
    lemma_pow2_unfold(pos as nat + 1);
    lemma2_to64();
    let one_shifted: u32 = 1u32 << pos;
    assert(one_shifted == pow2(pos as nat));
    if b == 0 {
        assert(acc | (0u32 << pos) == acc) by (bit_vector);
    } else {
        assert(acc < (1u32 << pos) ==> acc | (1u32 << pos) == acc + (1u32 << pos)) by (bit_vector)
            requires
                pos < 32,
        ;
    }
}

/// The key as [`PACKED_KEY_ELEMENTS`] numbers of [`BITS_PER_ELEMENT`] bits:
/// element `e` holds key bits `30e ..` with the lowest at position 0, and
/// the last element is padded with zero bits.
pub fn pack_key(sk: &SecretKey) -> (r: [u32; PACKED_KEY_ELEMENTS])
    ensures
        forall|e: int|
            0 <= e < PACKED_KEY_ELEMENTS ==> #[trigger] r@[e] == packed_element(sk@, e) && r@[e]
                < pow2(30),
{
    let bits = sk.as_bits();
    let mut packed = [0u32; 17];
    let mut e: usize = 0;
    while e < PACKED_KEY_ELEMENTS
        invariant
            e <= PACKED_KEY_ELEMENTS,
            bits@ == sk@,
            is_key_bits(bits@),
            packed@.len() == PACKED_KEY_ELEMENTS,
            forall|k: int|
                0 <= k < e ==> #[trigger] packed@[k] == packed_element(sk@, k) && packed@[k]
                    < pow2(30),
        decreases PACKED_KEY_ELEMENTS - e,
    {
        let start = e * BITS_PER_ELEMENT;
        let mut acc: u32 = 0;
        let mut pos: usize = 0;
        proof {
            lemma2_to64();
        }
        while pos < BITS_PER_ELEMENT && start + pos < N
            invariant
                e < PACKED_KEY_ELEMENTS,
                start == 30 * e,
                bits@ == sk@,
                is_key_bits(bits@),
                pos <= 30,
                pos <= element_bits(e as int),
                acc == bits_value(sk@, start as int, pos as nat),
                acc < pow2(pos as nat),
            decreases BITS_PER_ELEMENT - pos,
        {
            let b = bits[start + pos] as u32;
            proof {
                lemma_or_bit(acc, b, pos as u32);
            }
            acc = acc | (b << (pos as u32));
            pos = pos + 1;
        }
        proof {
            assert(pos as nat == element_bits(e as int));
            if pos < 30 {
                vstd::arithmetic::power2::lemma_pow2_strictly_increases(pos as nat, 30);
            }
        }
        packed[e] = acc;
        e = e + 1;
    }
    packed
}

/// A packed key as field elements: each number reduced mod the BabyBear
/// order, which leaves numbers of 30 bits as they are.
pub fn elements(packed: &[u32; PACKED_KEY_ELEMENTS]) -> (r: [u32; PACKED_KEY_ELEMENTS])
    ensures
        forall|e: int| 0 <= e < PACKED_KEY_ELEMENTS ==> #[trigger] r@[e] == packed@[e] % BABYBEAR_ORDER,
{
    let mut r = [0u32; 17];
    let mut e: usize = 0;
    while e < PACKED_KEY_ELEMENTS
        invariant
            e <= PACKED_KEY_ELEMENTS,
            r@.len() == PACKED_KEY_ELEMENTS,
            forall|k: int| 0 <= k < e ==> #[trigger] r@[k] == packed@[k] % BABYBEAR_ORDER,
        decreases PACKED_KEY_ELEMENTS - e,
    {
        r[e] = packed[e] % BABYBEAR_ORDER;
        e = e + 1;
    }
    r
}

/// The packed key, as the commitment reads it.
pub open spec fn packed_key(bits: Seq<u8>) -> Seq<u32> {
    Seq::new(PACKED_KEY_ELEMENTS as nat, |e: int| packed_element(bits, e) as u32)
}

/// Commit to a key: the key commitment to its packed elements.
pub fn commit(sk: &SecretKey) -> (r: KeyCommitment)
    ensures
        r.0@ == commitment_of(KEY_DOMAIN, packed_key(sk@)),
{
    let packed = pack_key(sk);
    let els = elements(&packed);
    proof {
        lemma2_to64();
        assert forall|e: int| 0 <= e < PACKED_KEY_ELEMENTS implies #[trigger] els@[e] == packed_key(
            sk@,
        )[e] by {
            assert(packed@[e] < pow2(30));
        }
        assert(els@ =~= packed_key(sk@));
    }
    KeyCommitment::commit(els)
}

/// The rules of (K), as a proof system checks them: the key bits are bits,
/// the commitment's sponge takes the domain and those bits packed, and its
/// digest is `pk`. This type gives the parts of the trace row that the
/// library computes; the sponge's own columns are the proof system's.
#[derive(Clone, Copy, Debug, Default)]
pub struct KeyAir;

impl KeyAir {
    /// The key's columns of the trace row: one per key bit.
    pub fn bit_columns(sk: &SecretKey) -> (r: Vec<u32>)
        ensures
            r@.len() == N,
            forall|i: int| 0 <= i < N ==> #[trigger] r@[i] == sk@[i] && r@[i] <= 1,
    {
        let bits = sk.as_bits();
        let mut r: Vec<u32> = Vec::new();
        let mut i: usize = 0;
        while i < N
            invariant
                i <= N,
                bits@ == sk@,
                is_key_bits(bits@),
                r@.len() == i,
                forall|k: int| 0 <= k < i ==> #[trigger] r@[k] == sk@[k] && r@[k] <= 1,
            decreases N - i,
        {
            r.push(bits[i] as u32);
            i = i + 1;
        }
        r
    }

    /// What the commitment's sponge takes in: the domain, then the packed
    /// key, [`INPUT_ELEMENTS`] in all, which one permutation of [`RATE`]
    /// absorbs.
    pub fn sponge_input(sk: &SecretKey) -> (r: Vec<u32>)
        ensures
            r@ == seq![KEY_DOMAIN] + packed_key(sk@),
            r@.len() == INPUT_ELEMENTS,
            INPUT_ELEMENTS <= RATE,
    {
        let packed = pack_key(sk);
        let els = elements(&packed);
        proof {
            lemma2_to64();
            assert forall|e: int| 0 <= e < PACKED_KEY_ELEMENTS implies #[trigger] els@[e]
                == packed_key(sk@)[e] by {
                assert(packed@[e] < pow2(30));
            }
            assert(els@ =~= packed_key(sk@));
        }
        KeyCommitment::input(els)
    }
}

/// Constraint (K) as a statement: `pk` is public, the key is the witness.
#[derive(Clone, Copy, PartialEq, Eq, Debug)]
pub struct KeyStatement {
    pub pk: KeyCommitment,
}

impl KeyStatement {
    /// The statement for `sk`: its commitment.
    pub fn for_key(sk: &SecretKey) -> (r: Self)
        ensures
            r.pk.0@ == commitment_of(KEY_DOMAIN, packed_key(sk@)),
    {
        KeyStatement { pk: commit(sk) }
    }
}

impl Statement for KeyStatement {
    type Witness = SecretKey;
}

} // verus!
