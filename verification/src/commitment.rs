//! Commitments via the Poseidon2 hash over BabyBear.
//!
//! Each kind of commitment includes its [`Domain`], such that no two kinds
//! hash the same input. Field elements are carried as their canonical `u32`
//! values, below [`BABYBEAR_ORDER`].
use vstd::prelude::*;
use p3_field::{PrimeCharacteristicRing, PrimeField32};
use p3_symmetric::CryptographicHasher;

verus! {

/// The order of the BabyBear field, `15 * 2^27 + 1`.
pub const BABYBEAR_ORDER: u32 = 0x7800_0001;

/// Poseidon2's state, in elements.
pub const WIDTH: usize = 32;

/// The part of the state that never takes input.
pub const CAPACITY: usize = 8;

/// Elements of a commitment.
pub const DIGEST_ELEMENTS: usize = 8;

/// Elements the sponge absorbs per permutation.
pub const RATE: usize = 24;

/// The domain number of a key commitment.
pub const KEY_DOMAIN: u32 = 1;

/// The kinds of commitment.
#[derive(Clone, Copy, PartialEq, Eq, Debug)]
pub enum Domain {
    /// (K): the server's key.
    Key,
}

/// The number a domain is hashed as.
pub open spec fn domain_number(d: Domain) -> u32 {
    match d {
        Domain::Key => KEY_DOMAIN,
    }
}

impl Domain {
    /// The number this domain is hashed as.
    pub fn number(self) -> (r: u32)
        ensures
            r == domain_number(self),
    {
        match self {
            Domain::Key => KEY_DOMAIN,
        }
    }
}

/// The digest of Plonky3's padding-free Poseidon2 sponge over BabyBear
/// (width 32, rate 24, 8 output elements, the default BabyBear round
/// constants) on `input`, each number taken as the field element it is mod
/// the field's order, the digest as canonical numbers.
pub uninterp spec fn poseidon2_sponge(input: Seq<u32>) -> Seq<u32>;

/// Hashes with `PaddingFreeSponge::hash_iter` over
/// `default_babybear_poseidon2_32()`, reading each number with
/// `BabyBear::from_u32` and returning each digest element by
/// `as_canonical_u32`. The contract claims only that the digest is the named
/// function of the input and that each element is canonical; the permutation
/// itself is not stated.
#[verifier::external_body]
fn sponge_hash(input: &[u32]) -> (r: [u32; DIGEST_ELEMENTS])
    ensures
        r@ == poseidon2_sponge(input@),
        forall|i: int| 0 <= i < DIGEST_ELEMENTS ==> r@[i] < BABYBEAR_ORDER,
{
    let sponge = p3_symmetric::PaddingFreeSponge::<_, 32, 24, 8>::new(
        p3_baby_bear::default_babybear_poseidon2_32(),
    );
    let digest: [p3_baby_bear::BabyBear; 8] = sponge.hash_iter(
        input.iter().map(|&x| p3_baby_bear::BabyBear::from_u32(x)),
    );
    digest.map(|e| e.as_canonical_u32())
}

/// The commitment of one kind to `elements`: the sponge over the domain
/// number followed by the elements.
pub open spec fn commitment_of(domain: u32, elements: Seq<u32>) -> Seq<u32> {
    poseidon2_sponge(seq![domain] + elements)
}

/// A commitment of one kind, to `LEN` elements. Both are in the type, such
/// that kinds cannot be mixed up and within a kind every input has the same
/// length.
#[derive(Clone, Copy, PartialEq, Eq, Hash, Debug)]
pub struct Commitment<const DOMAIN: u32, const LEN: usize>(pub [u32; DIGEST_ELEMENTS]);

impl<const DOMAIN: u32, const LEN: usize> Commitment<DOMAIN, LEN> {
    /// The domain number of this kind.
    pub fn domain() -> (r: u32)
        ensures
            r == DOMAIN,
    {
        DOMAIN
    }

    /// What the sponge takes in: the domain number, then the elements.
    pub fn input(elements: [u32; LEN]) -> (r: Vec<u32>)
        ensures
            r@ == seq![DOMAIN] + elements@,
    {
        let mut r: Vec<u32> = Vec::new();
        r.push(DOMAIN);
        let mut i: usize = 0;
        while i < LEN
            invariant
                i <= LEN,
                elements@.len() == LEN,
                r@ == seq![DOMAIN] + elements@.subrange(0, i as int),
            decreases LEN - i,
        {
            r.push(elements[i]);
            i = i + 1;
            assert(r@ =~= seq![DOMAIN] + elements@.subrange(0, i as int));
        }
        assert(elements@.subrange(0, LEN as int) =~= elements@);
        r
    }

    /// Commit to `elements`.
    pub fn commit(elements: [u32; LEN]) -> (r: Self)
        ensures
            r.0@ == commitment_of(DOMAIN, elements@),
            forall|i: int| 0 <= i < DIGEST_ELEMENTS ==> r.0@[i] < BABYBEAR_ORDER,
    {
        let input = Self::input(elements);
        Commitment(sponge_hash(input.as_slice()))
    }
}

} // verus!
