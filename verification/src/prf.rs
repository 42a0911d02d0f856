//! The LWR-based PRF `F_sk(t, x) = round_{q,p}(RO(t, x) * sk)`.
use vstd::prelude::*;
use crate::hash::{hash_to_zq_matrix, is_zq_row, ro_matrix, ZqMatrix, ZqVector};
use crate::modular::reduce_q;
use crate::params::{Zp, Zq, ZqAccum, H_ROWS, N, OUTPUT_ELEMENTS, Q};
use crate::round::{round_qp, round_zq_to_zp};

verus! {

/// Secret key for the LWR-based PRF: a binary vector of length `N`, one
/// byte per bit.
pub struct SecretKey(pub(crate) [u8; N]);

/// `N` bytes, each 0 or 1.
pub open spec fn is_key_bits(s: Seq<u8>) -> bool {
    s.len() == N && forall|i: int| 0 <= i < s.len() ==> #[trigger] s[i] <= 1
}

impl View for SecretKey {
    type V = Seq<u8>;

    closed spec fn view(&self) -> Seq<u8> {
        self.0@
    }
}

/// Fills `buf` from `rand::fill`, the thread-local CSPRNG seeded by the
/// operating system.
///
/// Trusted: the buffer keeps its length. Nothing is claimed of the bytes.
#[verifier::external_body]
fn fill_random(buf: &mut [u8; N])
{
    rand::fill(&mut buf[..]);
}

impl SecretKey {
    #[verifier::type_invariant]
    spec fn wf(self) -> bool {
        is_key_bits(self.0@)
    }

    /// Sample a fresh key from the operating system's randomness.
    pub fn random() -> (r: SecretKey)
        ensures
            is_key_bits(r@),
    {
        let mut bytes = [0u8; 482];
        fill_random(&mut bytes);
        Self::from_random_bytes(bytes)
    }

    /// The key whose bit `i` is the lowest bit of `bytes[i]`.
    pub fn from_random_bytes(bytes: [u8; N]) -> (r: SecretKey)
        ensures
            r@ == Seq::new(N as nat, |i: int| bytes@[i] & 1),
            is_key_bits(r@),
    {
        let mut key = bytes;
        let mut i: usize = 0;
        while i < N
            invariant
                i <= N,
                key@.len() == N,
                forall|j: int| 0 <= j < i ==> #[trigger] key@[j] == bytes@[j] & 1,
                forall|j: int| i <= j < N ==> #[trigger] key@[j] == bytes@[j],
            decreases N - i,
        {
            let b = key[i] & 1;
            key[i] = b;
            i = i + 1;
        }
        assert forall|j: int| 0 <= j < N implies #[trigger] key@[j] <= 1 by {
            let b = bytes@[j];
            assert(b & 1 <= 1) by (bit_vector);
        }
        assert(key@ =~= Seq::new(N as nat, |i: int| bytes@[i] & 1));
        SecretKey(key)
    }

    /// The key with these bits, or `None` if a byte is neither 0 nor 1.
    pub fn from_bits(bits: [u8; N]) -> (r: Option<SecretKey>)
        ensures
            r is Some <==> is_key_bits(bits@),
            r matches Some(k) ==> k@ == bits@,
    {
        let mut i: usize = 0;
        while i < N
            invariant
                i <= N,
                forall|j: int| 0 <= j < i ==> #[trigger] bits@[j] <= 1,
            decreases N - i,
        {
            if bits[i] > 1 {
                return None;
            }
            i = i + 1;
        }
        Some(SecretKey(bits))
    }

    pub fn as_bits(&self) -> (r: &[u8; N])
        ensures
            r@ == self@,
            is_key_bits(r@),
    {
        proof {
            use_type_invariant(self);
        }
        &self.0
    }
}

impl Clone for SecretKey {
    fn clone(&self) -> (r: Self)
        ensures
            r@ == self@,
    {
        proof {
            use_type_invariant(self);
        }
        SecretKey(self.0)
    }
}

/// A PRF output: one element of Z_p per row of the hash matrix.
#[derive(Clone, Copy, Debug, PartialEq, Eq, Hash)]
pub struct PrfOutput(pub(crate) [Zp; OUTPUT_ELEMENTS]);

impl View for PrfOutput {
    type V = Seq<Zp>;

    closed spec fn view(&self) -> Seq<Zp> {
        self.0@
    }
}

impl PrfOutput {
    pub fn elements(&self) -> (r: &[Zp; OUTPUT_ELEMENTS])
        ensures
            r@ == self@,
    {
        &self.0
    }
}

impl From<[Zp; OUTPUT_ELEMENTS]> for PrfOutput {
    fn from(elements: [Zp; OUTPUT_ELEMENTS]) -> (r: Self)
        ensures
            r@ == elements@,
    {
        PrfOutput(elements)
    }
}

impl vstd::std_specs::convert::FromSpecImpl<[Zp; OUTPUT_ELEMENTS]> for PrfOutput {
    open spec fn obeys_from_spec() -> bool {
        true
    }

    closed spec fn from_spec(elements: [Zp; OUTPUT_ELEMENTS]) -> PrfOutput {
        PrfOutput(elements)
    }
}

/// `sum_{i < n} a[i] * s[i]`.
pub open spec fn inner(a: Seq<Zq>, s: Seq<u8>, n: int) -> int
    decreases n,
{
    if n <= 0 {
        0
    } else {
        inner(a, s, n - 1) + a[n - 1] * s[n - 1]
    }
}

/// One output element: the inner product of a row with the key, reduced mod
/// q and rounded to Z_p.
pub open spec fn prf_row(a: Seq<Zq>, s: Seq<u8>) -> int {
    round_qp(inner(a, s, N as int) % (Q as int))
}

/// The PRF on a hash matrix: one rounded inner product per row.
pub open spec fn prf_on_matrix(s: Seq<u8>, m: Seq<Seq<Zq>>) -> Seq<Zp> {
    Seq::new(OUTPUT_ELEMENTS as nat, |r: int| prf_row(m[r], s) as Zp)
}

/// `Eval(sk, t, x)` of Figure 4.
pub open spec fn prf(s: Seq<u8>, tag: Seq<u8>, input: Seq<u8>) -> Seq<Zp> {
    prf_on_matrix(s, ro_matrix(tag, input))
}

/// A prefix inner product of reduced entries with a binary key stays within
/// `n * (Q - 1)`.
pub proof fn lemma_inner_bounds(a: Seq<Zq>, s: Seq<u8>, n: int)
    requires
        0 <= n <= a.len(),
        n <= s.len(),
        forall|i: int| 0 <= i < n ==> a[i] < Q,
        forall|i: int| 0 <= i < n ==> s[i] <= 1,
    ensures
        0 <= inner(a, s, n) <= n * (Q - 1),
    decreases n,
{
    if n > 0 {
        lemma_inner_bounds(a, s, n - 1);
        let x = a[n - 1];
        let b = s[n - 1];
        assert(0 <= x * b <= Q - 1) by (nonlinear_arith)
            requires
                x < Q,
                b <= 1,
        ;
    }
}

/// The all-zero key maps every tag and input to the all-zero output.
pub proof fn lemma_zero_key_gives_zero(tag: Seq<u8>, input: Seq<u8>)
    ensures
        prf(Seq::new(N as nat, |i: int| 0u8), tag, input) == Seq::new(
            OUTPUT_ELEMENTS as nat,
            |r: int| 0u8,
        ),
{
    let zero = Seq::new(N as nat, |i: int| 0u8);
    assert forall|a: Seq<Zq>, n: int| 0 <= n <= N implies #[trigger] inner(a, zero, n) == 0 by {
        lemma_inner_zero(a, zero, n);
    }
    assert(prf(zero, tag, input) =~= Seq::new(OUTPUT_ELEMENTS as nat, |r: int| 0u8));
}

proof fn lemma_inner_zero(a: Seq<Zq>, s: Seq<u8>, n: int)
    requires
        0 <= n <= s.len(),
        forall|i: int| 0 <= i < s.len() ==> s[i] == 0,
    ensures
        inner(a, s, n) == 0,
    decreases n,
{
    if n > 0 {
        lemma_inner_zero(a, s, n - 1);
        assert(a[n - 1] * s[n - 1] == 0);
    }
}

/// Evaluate the PRF on the given tag and input - `Eval(sk, t, x)` of Figure 4.
///
/// `tag` is the OPRF's public input.
pub fn evaluate(sk: &SecretKey, tag: &[u8], input: &[u8]) -> (r: PrfOutput)
    ensures
        r@ == prf(sk@, tag@, input@),
{
    let m = hash_to_zq_matrix(tag, input);
    evaluate_with_matrix(sk, &m)
}

/// Evaluate the PRF given a precomputed hash matrix.
pub fn evaluate_with_matrix(sk: &SecretKey, m: &ZqMatrix) -> (r: PrfOutput)
    ensures
        r@ == prf_on_matrix(sk@, m@),
{
    let mut output = [0u8; 16];
    let mut row: usize = 0;
    while row < OUTPUT_ELEMENTS
        invariant
            row <= OUTPUT_ELEMENTS,
            output@.len() == OUTPUT_ELEMENTS,
            forall|r: int| 0 <= r < row ==> #[trigger] output@[r] == prf_row(m@[r], sk@) as Zp,
        decreases OUTPUT_ELEMENTS - row,
    {
        let v = evaluate_single_row(sk, m.row(row));
        output[row] = v;
        row = row + 1;
    }
    let r = PrfOutput(output);
    assert(r@ =~= prf_on_matrix(sk@, m@));
    r
}

/// Evaluate via a single inner product and rounding, giving one Z_p element.
pub fn evaluate_single_row(sk: &SecretKey, v: &ZqVector) -> (r: Zp)
    ensures
        r == prf_row(v@, sk@),
{
    let inner = inner_product(v, sk);
    round_zq_to_zp(inner)
}

/// The inner product of a Z_q vector with a binary key, reduced mod q.
///
/// Since the key is binary, this is the sum of the `v[i]` where `sk[i] = 1`.
pub(crate) fn inner_product(v: &ZqVector, sk: &SecretKey) -> (r: Zq)
    ensures
        r == inner(v@, sk@, N as int) % (Q as int),
{
    let a = v.as_slice();
    let s = sk.as_bits();
    let mut sum: ZqAccum = 0;
    let mut i: usize = 0;
    while i < N
        invariant
            i <= N,
            a@ == v@,
            s@ == sk@,
            is_zq_row(a@),
            is_key_bits(s@),
            sum == inner(a@, s@, i as int),
        decreases N - i,
    {
        proof {
            lemma_inner_bounds(a@, s@, i as int + 1);
        }
        sum = sum + a[i] as ZqAccum * s[i] as ZqAccum;
        i = i + 1;
    }
    reduce_q(sum)
}

} // verus!
