//! The state OT-based preprocessing leaves on each side (Figure 3 of the
//! paper), and the slots it pays for.
//!
//! One preprocessing run produces `tau` slots, one per base protocol run. A
//! slot yields one Z_p element and is spent once. A full PRF evaluation
//! spends `H_ROWS` consecutive slots.
//!
//! Each binary rOT message is a 128-bit block; entry `j` of the mask vector
//! it stands for is cut from the BLAKE3 output the block expands to.
use vstd::prelude::*;
use crate::blake::{blake3_derive_key_xof, derive_key_xof, extend_from, u64_le, u64_to_le_bytes};
use crate::hash::element_from_bytes;
use crate::modular::reduce_q;
use crate::params::{Zdelta, Zp, Zq, ZqAccum, DELTA, H_ROWS, LAMBDA_BYTES, N, Q};
use crate::prf::{is_key_bits, SecretKey};

verus! {

/// Session identifier, `uid` in Figure 3.
pub type Uid = [u8; LAMBDA_BYTES];

/// A 128-bit OT message.
pub type Block = [u8; 16];

/// Most slots a state can hold: `2^62`, as a vector of them could not be
/// larger in memory.
pub const MAX_TAU: u64 = 0x4000_0000_0000_0000;

/// The `tau` that `evaluations` full OPRF evaluations need.
pub fn tau_for(evaluations: usize) -> (r: usize)
    requires
        evaluations * H_ROWS <= usize::MAX,
    ensures
        r == evaluations * H_ROWS,
{
    evaluations * H_ROWS
}

/// Full evaluations that `slots` can pay for. A remainder is unusable, since
/// an evaluation needs all `H_ROWS` of its rows.
pub fn evaluations_for(slots: usize) -> (r: usize)
    ensures
        r == (slots as int) / (H_ROWS as int),
{
    slots / H_ROWS
}

/// Domain separator for deriving the `r` masks from OT seed blocks.
pub const R_DOMAIN_SEPARATOR: &'static str = "pool-oprf v1 zq mask from ot seed";

/// Bytes of BLAKE3 output the masks of one evaluation are cut from: two per
/// mask.
pub const MASK_RUN_BYTES: usize = 32;

/// The `H_ROWS` masks for slots `first_slot ..` that `seed` expands to: mask
/// `k` is the two little-endian bytes at stream offset
/// `2 * (first_slot + k)`, reduced mod q.
pub open spec fn masks(seed: Seq<u8>, first_slot: nat) -> Seq<Zq> {
    let bytes = blake3_derive_key_xof(
        R_DOMAIN_SEPARATOR@,
        seed,
        2 * first_slot,
        MASK_RUN_BYTES as nat,
    );
    Seq::new(H_ROWS as nat, |k: int| element_from_bytes(bytes, k))
}

/// Expands an OT seed into the masks of `H_ROWS` consecutive slots, from
/// `first_slot` on.
pub fn derive_r(seed: &Block, first_slot: u64) -> (r: [Zq; H_ROWS])
    requires
        first_slot < MAX_TAU,
    ensures
        r@ == masks(seed@, first_slot as nat),
        forall|k: int| 0 <= k < H_ROWS ==> #[trigger] r@[k] < Q,
{
    let bytes = derive_key_xof(R_DOMAIN_SEPARATOR, seed, first_slot * 2, MASK_RUN_BYTES);
    let mut out = [0u16; 16];
    let mut k: usize = 0;
    while k < H_ROWS
        invariant
            k <= H_ROWS,
            bytes@.len() == MASK_RUN_BYTES,
            bytes@ == blake3_derive_key_xof(
                R_DOMAIN_SEPARATOR@,
                seed@,
                2 * first_slot as nat,
                MASK_RUN_BYTES as nat,
            ),
            out@.len() == H_ROWS,
            forall|j: int| 0 <= j < k ==> #[trigger] out@[j] == element_from_bytes(bytes@, j),
            forall|j: int| 0 <= j < k ==> #[trigger] out@[j] < Q,
        decreases H_ROWS - k,
    {
        let lo = bytes[2 * k] as ZqAccum;
        let hi = bytes[2 * k + 1] as ZqAccum;
        out[k] = reduce_q(lo + 256 * hi);
        k = k + 1;
    }
    assert(out@ =~= masks(seed@, first_slot as nat));
    out
}

/// A Z_p pad from an OT block: its first byte. Reducing a uniform byte mod
/// p, a power of two dividing 256, keeps it uniform.
pub fn r_prime_from_block(block: &Block) -> (r: Zp)
    ensures
        r == block@[0],
{
    block[0]
}

/// One entry of the client's `R_C`: its choice `b'` in the 1-out-of-DELTA
/// OT, and the pad `r'_{b'}` it received.
#[derive(Clone, Copy)]
pub struct RcEntry {
    pub b_prime: Zdelta,
    pub r_prime: Zp,
}

/// One entry of the server's `R_S`: its choice bit `b_i` in binary OT `i`,
/// and the seed of the masks it received.
#[derive(Clone, Copy)]
pub struct RsEntry {
    pub b: u8,
    pub r_seed: Block,
}

/// The slot budget: how many preprocessing slots exist, and how many are
/// spent.
#[derive(Debug)]
pub struct Slots {
    tau: usize,
    /// Next unspent slot.
    ctr: usize,
}

impl Slots {
    /// Slots spent so far never outnumber those that exist.
    pub closed spec fn wf(&self) -> bool {
        self.ctr <= self.tau
    }

    /// How many slots exist.
    pub closed spec fn total(&self) -> nat {
        self.tau as nat
    }

    /// The next unspent slot.
    pub closed spec fn spent(&self) -> nat {
        self.ctr as nat
    }

    pub fn new(tau: usize) -> (r: Self)
        ensures
            r.wf(),
            r.total() == tau,
            r.spent() == 0,
    {
        Self { tau, ctr: 0 }
    }

    pub fn remaining(&self) -> (r: usize)
        requires
            self.wf(),
        ensures
            r == self.total() - self.spent(),
    {
        self.tau - self.ctr
    }

    /// Take `count` slots, returning the first, or `None` if that many are
    /// not left. A refusal spends nothing.
    pub fn take(&mut self, count: usize) -> (r: Option<u64>)
        requires
            old(self).wf(),
        ensures
            final(self).wf(),
            final(self).total() == old(self).total(),
            old(self).total() - old(self).spent() < count ==> r is None && final(self).spent()
                == old(self).spent(),
            old(self).total() - old(self).spent() >= count ==> r == Some(old(self).spent() as u64)
                && final(self).spent() == old(self).spent() + count,
    {
        if self.remaining() < count {
            return None;
        }
        let first = self.ctr;
        self.ctr = self.ctr + count;
        Some(first as u64)
    }
}

/// Client-side preprocessing state in Figure 3.
pub struct ClientState {
    /// `S_C` as seeds: `r_seeds[i][b]` expands to the masks `r^j_{b,i}`.
    r_seeds: Vec<[Block; 2]>,
    /// `b_hat_i = b_i ^ sk_i`, the masked key bits, one byte per bit.
    bhat: Vec<u8>,
    /// One entry per slot.
    r_c: Vec<RcEntry>,
    uid: Uid,
    slots: Slots,
}

impl ClientState {
    /// `N` seed pairs and masked key bits, one `R_C` entry with a choice in
    /// `0 .. DELTA` per slot, and a slot budget that covers exactly those.
    pub closed spec fn wf(&self) -> bool {
        &&& self.r_seeds@.len() == N
        &&& self.bhat@.len() == N
        &&& forall|i: int| 0 <= i < N ==> #[trigger] self.bhat@[i] <= 1
        &&& forall|j: int| 0 <= j < self.r_c@.len() ==> #[trigger] self.r_c@[j].b_prime < DELTA
        &&& self.r_c@.len() < MAX_TAU
        &&& self.slots.wf()
        &&& self.slots.total() == self.r_c@.len()
    }

    /// `r_seeds[i][side]`.
    pub closed spec fn seed(&self, i: int, side: int) -> Seq<u8> {
        self.r_seeds@[i][side]@
    }

    /// `b_hat_i`.
    pub closed spec fn bhat(&self, i: int) -> int {
        self.bhat@[i] as int
    }

    /// The choice `b'` of slot `j`.
    pub closed spec fn b_prime(&self, j: int) -> int {
        self.r_c@[j].b_prime as int
    }

    /// The pad `r'_{b'}` of slot `j`.
    pub closed spec fn r_prime(&self, j: int) -> int {
        self.r_c@[j].r_prime as int
    }

    /// How many slots preprocessing produced.
    pub closed spec fn tau(&self) -> nat {
        self.slots.total()
    }

    /// The next unspent slot.
    pub closed spec fn ctr(&self) -> nat {
        self.slots.spent()
    }

    /// The session identifier.
    pub closed spec fn uid_view(&self) -> Seq<u8> {
        self.uid@
    }

    /// `next` is `prev` with `count` more slots spent, and nothing else changed.
    pub closed spec fn advanced(prev: ClientState, next: ClientState, count: nat) -> bool {
        &&& next.r_seeds@ == prev.r_seeds@
        &&& next.bhat@ == prev.bhat@
        &&& next.r_c@ == prev.r_c@
        &&& next.uid == prev.uid
        &&& next.slots.total() == prev.slots.total()
        &&& next.slots.spent() == prev.slots.spent() + count
    }

    /// Spending slots leaves the material as it was.
    pub proof fn lemma_advanced(prev: ClientState, next: ClientState, count: nat)
        requires
            ClientState::advanced(prev, next, count),
        ensures
            forall|i: int, side: int| #[trigger] next.seed(i, side) == prev.seed(i, side),
            forall|i: int| #[trigger] next.bhat(i) == prev.bhat(i),
            forall|j: int| #[trigger] next.b_prime(j) == prev.b_prime(j),
            forall|j: int| #[trigger] next.r_prime(j) == prev.r_prime(j),
            next.uid_view() == prev.uid_view(),
            next.tau() == prev.tau(),
            next.ctr() == prev.ctr() + count,
    {
    }

    /// Spending nothing leaves a state as it was.
    pub proof fn lemma_advanced_refl(c: ClientState)
        ensures
            ClientState::advanced(c, c, 0),
    {
    }

    /// Spending in two steps is spending the sum.
    pub proof fn lemma_advanced_trans(a: ClientState, b: ClientState, c: ClientState, x: nat, y: nat)
        requires
            ClientState::advanced(a, b, x),
            ClientState::advanced(b, c, y),
        ensures
            ClientState::advanced(a, c, x + y),
    {
    }

    /// What a well-formed state guarantees to its readers.
    pub proof fn lemma_wf(&self)
        requires
            self.wf(),
        ensures
            self.ctr() <= self.tau(),
            self.tau() < MAX_TAU,
            forall|i: int| 0 <= i < N ==> 0 <= #[trigger] self.bhat(i) <= 1,
            forall|j: int| 0 <= j < self.tau() ==> 0 <= #[trigger] self.b_prime(j) < DELTA,
            forall|j: int| 0 <= j < self.tau() ==> 0 <= #[trigger] self.r_prime(j) < 256,
    {
    }

    /// A state from what the OTs produced. `r_seeds` and `bhat` have one
    /// entry per coordinate, `bhat` is binary, and each choice in `r_c` is in
    /// `0 .. DELTA`.
    pub fn new(r_seeds: Vec<[Block; 2]>, bhat: Vec<u8>, r_c: Vec<RcEntry>, uid: Uid) -> (r: Self)
        requires
            r_seeds@.len() == N,
            bhat@.len() == N,
            forall|i: int| 0 <= i < N ==> #[trigger] bhat@[i] <= 1,
            forall|j: int| 0 <= j < r_c@.len() ==> #[trigger] r_c@[j].b_prime < DELTA,
            r_c@.len() < MAX_TAU,
        ensures
            r.wf(),
            r.ctr() == 0,
            r.tau() == r_c@.len(),
            r.uid_view() == uid@,
            forall|i: int, side: int| 0 <= i < N && 0 <= side < 2 ==> #[trigger] r.seed(i, side)
                == r_seeds@[i][side]@,
            forall|i: int| 0 <= i < N ==> #[trigger] r.bhat(i) == bhat@[i],
            forall|j: int| 0 <= j < r_c@.len() ==> #[trigger] r.b_prime(j) == r_c@[j].b_prime,
            forall|j: int| 0 <= j < r_c@.len() ==> #[trigger] r.r_prime(j) == r_c@[j].r_prime,
    {
        let slots = Slots::new(r_c.len());
        Self { r_seeds, bhat, r_c, uid, slots }
    }

    pub fn uid(&self) -> (r: &Uid)
        ensures
            r@ == self.uid_view(),
    {
        &self.uid
    }

    pub fn remaining_slots(&self) -> (r: usize)
        requires
            self.wf(),
        ensures
            r == self.tau() - self.ctr(),
    {
        self.slots.remaining()
    }

    /// `r^j_{b_hat_i,i}` onward, the client's blinding masks for coordinate `i`.
    pub fn r_bhat(&self, i: usize, first_slot: u64) -> (r: [Zq; H_ROWS])
        requires
            self.wf(),
            i < N,
            first_slot < MAX_TAU,
        ensures
            r@ == masks(self.seed(i as int, self.bhat(i as int)), first_slot as nat),
    {
        derive_r(&self.r_seeds[i][self.bhat[i] as usize], first_slot)
    }

    /// `r^j_{1-b_hat_i,i}` onward, the side not used for blinding.
    pub fn r_not_bhat(&self, i: usize, first_slot: u64) -> (r: [Zq; H_ROWS])
        requires
            self.wf(),
            i < N,
            first_slot < MAX_TAU,
        ensures
            r@ == masks(self.seed(i as int, 1 - self.bhat(i as int)), first_slot as nat),
    {
        derive_r(&self.r_seeds[i][1 - self.bhat[i] as usize], first_slot)
    }

    /// The `R_C` entry of slot `j`.
    pub fn r_c(&self, j: u64) -> (r: RcEntry)
        requires
            self.wf(),
            j < self.tau(),
        ensures
            r.b_prime == self.b_prime(j as int),
            r.r_prime == self.r_prime(j as int),
    {
        self.r_c[j as usize]
    }

    /// Reserve `count` consecutive slots, returning the first, or `None` if
    /// that many are not left.
    pub fn next_slots(&mut self, count: usize) -> (r: Option<u64>)
        requires
            old(self).wf(),
        ensures
            final(self).wf(),
            old(self).tau() - old(self).ctr() < count ==> r is None && ClientState::advanced(
                *old(self),
                *final(self),
                0,
            ),
            old(self).tau() - old(self).ctr() >= count ==> r == Some(old(self).ctr() as u64)
                && ClientState::advanced(*old(self), *final(self), count as nat),
    {
        self.slots.take(count)
    }
}

/// Server-side preprocessing state in Figure 3.
pub struct ServerState {
    r_s: Vec<RsEntry>,
    /// All `DELTA` pads of each slot.
    s_s: Vec<[Zp; DELTA]>,
    uid: Uid,
    slots: Slots,
}

impl ServerState {
    /// `N` binary rOT entries with bit choices, and a slot budget that
    /// covers exactly the pads.
    pub closed spec fn wf(&self) -> bool {
        &&& self.r_s@.len() == N
        &&& forall|i: int| 0 <= i < N ==> #[trigger] self.r_s@[i].b <= 1
        &&& self.s_s@.len() < MAX_TAU
        &&& self.slots.wf()
        &&& self.slots.total() == self.s_s@.len()
    }

    /// The seed of the masks the server received in binary OT `i`.
    pub closed spec fn seed(&self, i: int) -> Seq<u8> {
        self.r_s@[i].r_seed@
    }

    /// The server's choice bit `b_i` in binary OT `i`.
    pub closed spec fn b(&self, i: int) -> int {
        self.r_s@[i].b as int
    }

    /// The `DELTA` pads of slot `j`.
    pub closed spec fn pads(&self, j: int) -> Seq<Zp> {
        self.s_s@[j]@
    }

    pub closed spec fn tau(&self) -> nat {
        self.slots.total()
    }

    pub closed spec fn ctr(&self) -> nat {
        self.slots.spent()
    }

    pub closed spec fn uid_view(&self) -> Seq<u8> {
        self.uid@
    }

    /// `next` is `prev` with `count` more slots spent, and nothing else changed.
    pub closed spec fn advanced(prev: ServerState, next: ServerState, count: nat) -> bool {
        &&& next.r_s@ == prev.r_s@
        &&& next.s_s@ == prev.s_s@
        &&& next.uid == prev.uid
        &&& next.slots.total() == prev.slots.total()
        &&& next.slots.spent() == prev.slots.spent() + count
    }

    /// Spending slots leaves the material as it was.
    pub proof fn lemma_advanced(prev: ServerState, next: ServerState, count: nat)
        requires
            ServerState::advanced(prev, next, count),
        ensures
            forall|i: int| #[trigger] next.seed(i) == prev.seed(i),
            forall|i: int| #[trigger] next.b(i) == prev.b(i),
            forall|j: int| #[trigger] next.pads(j) == prev.pads(j),
            next.uid_view() == prev.uid_view(),
            next.tau() == prev.tau(),
            next.ctr() == prev.ctr() + count,
    {
    }

    /// Spending nothing leaves a state as it was.
    pub proof fn lemma_advanced_refl(s: ServerState)
        ensures
            ServerState::advanced(s, s, 0),
    {
    }

    /// Spending in two steps is spending the sum.
    pub proof fn lemma_advanced_trans(a: ServerState, b: ServerState, c: ServerState, x: nat, y: nat)
        requires
            ServerState::advanced(a, b, x),
            ServerState::advanced(b, c, y),
        ensures
            ServerState::advanced(a, c, x + y),
    {
    }

    pub proof fn lemma_wf(&self)
        requires
            self.wf(),
        ensures
            self.ctr() <= self.tau(),
            self.tau() < MAX_TAU,
            forall|i: int| 0 <= i < N ==> 0 <= #[trigger] self.b(i) <= 1,
            forall|j: int| 0 <= j < self.tau() ==> (#[trigger] self.pads(j)).len() == DELTA,
    {
    }

    /// A state from what the OTs produced: one entry per coordinate, each
    /// with a bit choice, and the pads of each slot.
    pub fn new(r_s: Vec<RsEntry>, s_s: Vec<[Zp; DELTA]>, uid: Uid) -> (r: Self)
        requires
            r_s@.len() == N,
            forall|i: int| 0 <= i < N ==> #[trigger] r_s@[i].b <= 1,
            s_s@.len() < MAX_TAU,
        ensures
            r.wf(),
            r.ctr() == 0,
            r.tau() == s_s@.len(),
            r.uid_view() == uid@,
            forall|i: int| 0 <= i < N ==> #[trigger] r.seed(i) == r_s@[i].r_seed@,
            forall|i: int| 0 <= i < N ==> #[trigger] r.b(i) == r_s@[i].b,
            forall|j: int| 0 <= j < s_s@.len() ==> #[trigger] r.pads(j) == s_s@[j]@,
    {
        let slots = Slots::new(s_s.len());
        Self { r_s, s_s, uid, slots }
    }

    pub fn uid(&self) -> (r: &Uid)
        ensures
            r@ == self.uid_view(),
    {
        &self.uid
    }

    pub fn remaining_slots(&self) -> (r: usize)
        requires
            self.wf(),
        ensures
            r == self.tau() - self.ctr(),
    {
        self.slots.remaining()
    }

    /// `r^j_{b_i,i}` onward, the masks the server knows for binary OT `i`.
    pub fn r(&self, i: usize, first_slot: u64) -> (r: [Zq; H_ROWS])
        requires
            self.wf(),
            i < N,
            first_slot < MAX_TAU,
        ensures
            r@ == masks(self.seed(i as int), first_slot as nat),
    {
        derive_r(&self.r_s[i].r_seed, first_slot)
    }

    /// The pads of slot `j`.
    pub fn s_s(&self, j: u64) -> (r: &[Zp; DELTA])
        requires
            self.wf(),
            j < self.tau(),
        ensures
            r@ == self.pads(j as int),
    {
        &self.s_s[j as usize]
    }

    /// Reserve `count` consecutive slots, returning the first, or `None` if
    /// that many are not left.
    pub fn next_slots(&mut self, count: usize) -> (r: Option<u64>)
        requires
            old(self).wf(),
        ensures
            final(self).wf(),
            old(self).tau() - old(self).ctr() < count ==> r is None && ServerState::advanced(
                *old(self),
                *final(self),
                0,
            ),
            old(self).tau() - old(self).ctr() >= count ==> r == Some(old(self).ctr() as u64)
                && ServerState::advanced(*old(self), *final(self), count as nat),
    {
        self.slots.take(count)
    }
}


// ---------------------------------------------------------------------------
// The decisions of the preprocessing exchange (Figure 3). The exchange
// itself - the messages and the OTs - runs over a connection outside this
// crate; these functions decide what to send and what the replies mean.
// ---------------------------------------------------------------------------

/// Why a preprocessing run was refused.
#[derive(Debug)]
pub enum PreprocError {
    /// The peer closed the stream unexpectedly.
    UnexpectedClose,
    /// The peer sent a malformed message.
    Malformed(&'static str),
    /// `tau` must be at least 1.
    ZeroTau,
    /// The peer preprocesses for `theirs` slots, this side asked for `ours`.
    TauMismatch { ours: usize, theirs: usize },
}

/// The opening message: `uid` followed by `tau` as a little-endian `u64`.
pub const HELLO_BYTES: usize = 24;

/// Longest control message a side accepts: the masked key bits, `N` bytes,
/// are the longest.
pub const MAX_CONTROL_FRAME_BYTES: usize = 491;

/// The `N` binary rOTs, rounded up to CryProt's alignment of 128; the extra
/// OTs are discarded.
pub const BINARY_OT_COUNT: usize = 512;

/// The value of eight little-endian bytes.
pub open spec fn u64_from_le(b: Seq<u8>) -> u64 {
    (b[0] as u64) | ((b[1] as u64) << 8u64) | ((b[2] as u64) << 16u64) | ((b[3] as u64) << 24u64) | ((
    b[4] as u64) << 32u64) | ((b[5] as u64) << 40u64) | ((b[6] as u64) << 48u64) | ((b[7] as u64)
        << 56u64)
}

/// Reading back the little-endian bytes of a `u64` gives the `u64`.
pub proof fn lemma_u64_le_round_trip(x: u64)
    ensures
        u64_from_le(u64_le(x)) == x,
{
    let b = u64_le(x);
    let b0 = b[0];
    let b1 = b[1];
    let b2 = b[2];
    let b3 = b[3];
    let b4 = b[4];
    let b5 = b[5];
    let b6 = b[6];
    let b7 = b[7];
    assert((b0 as u64) | ((b1 as u64) << 8u64) | ((b2 as u64) << 16u64) | ((b3 as u64) << 24u64) | ((
    b4 as u64) << 32u64) | ((b5 as u64) << 40u64) | ((b6 as u64) << 48u64) | ((b7 as u64) << 56u64)
        == x) by (bit_vector)
        requires
            b0 == (x & 0xff) as u8,
            b1 == ((x >> 8u64) & 0xff) as u8,
            b2 == ((x >> 16u64) & 0xff) as u8,
            b3 == ((x >> 24u64) & 0xff) as u8,
            b4 == ((x >> 32u64) & 0xff) as u8,
            b5 == ((x >> 40u64) & 0xff) as u8,
            b6 == ((x >> 48u64) & 0xff) as u8,
            b7 == ((x >> 56u64) & 0xff) as u8,
    ;
}

/// `tau` as eight little-endian bytes.
pub fn encode_tau(tau: usize) -> (r: [u8; 8])
    ensures
        r@ == u64_le(tau as u64),
        u64_from_le(r@) == tau,
{
    proof {
        lemma_u64_le_round_trip(tau as u64);
    }
    u64_to_le_bytes(tau as u64)
}

/// The `tau` in eight little-endian bytes. Fails if there are not eight, or
/// the value does not fit a `usize`.
pub fn decode_tau(bytes: &[u8]) -> (r: Result<usize, PreprocError>)
    ensures
        bytes@.len() != 8 ==> r == Err::<usize, PreprocError>(
            PreprocError::Malformed("tau has wrong length"),
        ),
        bytes@.len() == 8 && u64_from_le(bytes@) > usize::MAX ==> r == Err::<usize, PreprocError>(
            PreprocError::Malformed("tau does not fit in a usize"),
        ),
        bytes@.len() == 8 && u64_from_le(bytes@) <= usize::MAX ==> r == Ok::<usize, PreprocError>(
            u64_from_le(bytes@) as usize,
        ),
{
    if bytes.len() != 8 {
        return Err(PreprocError::Malformed("tau has wrong length"));
    }
    let v: u64 = (bytes[0] as u64) | ((bytes[1] as u64) << 8u64) | ((bytes[2] as u64) << 16u64) | ((
    bytes[3] as u64) << 24u64) | ((bytes[4] as u64) << 32u64) | ((bytes[5] as u64) << 40u64) | ((
    bytes[6] as u64) << 48u64) | ((bytes[7] as u64) << 56u64);
    if v > usize::MAX as u64 {
        return Err(PreprocError::Malformed("tau does not fit in a usize"));
    }
    Ok(v as usize)
}

/// Refuses a run for no slots.
pub fn check_tau(tau: usize) -> (r: Result<(), PreprocError>)
    ensures
        tau == 0 <==> r matches Err(PreprocError::ZeroTau),
        tau != 0 <==> r is Ok,
{
    if tau == 0 {
        return Err(PreprocError::ZeroTau);
    }
    Ok(())
}

/// Refuses a run whose two sides asked for different numbers of slots.
pub fn check_tau_agreement(ours: usize, theirs: usize) -> (r: Result<(), PreprocError>)
    ensures
        ours == theirs <==> r is Ok,
        ours != theirs ==> (r matches Err(PreprocError::TauMismatch { ours: o, theirs: t }) && o
            == ours && t == theirs),
{
    if theirs != ours {
        return Err(PreprocError::TauMismatch { ours, theirs });
    }
    Ok(())
}

/// The client's opening message (line 1): `uid`, then `tau`. Refuses
/// `tau = 0`.
pub fn client_hello(uid: &Uid, tau: usize) -> (r: Result<Vec<u8>, PreprocError>)
    ensures
        tau == 0 <==> r matches Err(PreprocError::ZeroTau),
        tau != 0 ==> (r matches Ok(hello) && hello@ == uid@ + u64_le(tau as u64)),
{
    check_tau(tau)?;
    let mut hello: Vec<u8> = Vec::new();
    extend_from(&mut hello, uid);
    let t = encode_tau(tau);
    extend_from(&mut hello, &t);
    Ok(hello)
}

/// What the client makes of the server's echo: the server's `tau`, which
/// must be the client's own.
pub fn client_check_echo(tau: usize, echoed: &Vec<u8>) -> (r: Result<(), PreprocError>)
    ensures
        r is Ok <==> echoed@.len() == 8 && u64_from_le(echoed@) == tau,
        echoed@.len() != 8 ==> r == Err::<(), PreprocError>(
            PreprocError::Malformed("tau has wrong length"),
        ),
        echoed@.len() == 8 && u64_from_le(echoed@) != tau ==> r is Err,
        echoed@.len() == 8 && u64_from_le(echoed@) != tau && u64_from_le(echoed@) <= usize::MAX
            ==> (r matches Err(PreprocError::TauMismatch { ours: o, theirs: t }) && o == tau && t
            == u64_from_le(echoed@)),
        echoed@.len() == 8 && u64_from_le(echoed@) > usize::MAX ==> r == Err::<(), PreprocError>(
            PreprocError::Malformed("tau does not fit in a usize"),
        ),
{
    match decode_tau(echoed.as_slice()) {
        Ok(theirs) => check_tau_agreement(tau, theirs),
        Err(e) => Err(e),
    }
}

/// What the server reads from the client's opening message: the `uid` and
/// the client's `tau`. Fails if the message is not `HELLO_BYTES` long or the
/// `tau` does not fit a `usize`.
pub fn parse_hello(hello: &Vec<u8>) -> (r: Result<(Uid, usize), PreprocError>)
    ensures
        hello@.len() != HELLO_BYTES ==> r == Err::<(Uid, usize), PreprocError>(
            PreprocError::Malformed("hello has wrong length"),
        ),
        hello@.len() == HELLO_BYTES && u64_from_le(hello@.skip(16)) > usize::MAX ==> r == Err::<
            (Uid, usize),
            PreprocError,
        >(PreprocError::Malformed("tau does not fit in a usize")),
        hello@.len() == HELLO_BYTES && u64_from_le(hello@.skip(16)) <= usize::MAX ==> (r matches Ok(
            (uid, theirs),
        ) && uid@ == hello@.take(16) && theirs == u64_from_le(hello@.skip(16))),
{
    if hello.len() != HELLO_BYTES {
        return Err(PreprocError::Malformed("hello has wrong length"));
    }
    let mut uid = [0u8; 16];
    let mut i: usize = 0;
    while i < 16
        invariant
            i <= 16,
            hello@.len() == HELLO_BYTES,
            uid@.len() == 16,
            forall|j: int| 0 <= j < i ==> #[trigger] uid@[j] == hello@[j],
        decreases 16 - i,
    {
        uid[i] = hello[i];
        i = i + 1;
    }
    assert(uid@ =~= hello@.take(16));
    let mut tail: Vec<u8> = Vec::new();
    let mut k: usize = 16;
    while k < HELLO_BYTES
        invariant
            16 <= k <= HELLO_BYTES,
            hello@.len() == HELLO_BYTES,
            tail@ == hello@.subrange(16, k as int),
        decreases HELLO_BYTES - k,
    {
        tail.push(hello[k]);
        k = k + 1;
        assert(tail@ =~= hello@.subrange(16, k as int));
    }
    assert(tail@ =~= hello@.skip(16));
    match decode_tau(tail.as_slice()) {
        Ok(theirs) => Ok((uid, theirs)),
        Err(e) => Err(e),
    }
}

/// The client's state after the OTs (lines 2 to 4): the seed pairs of its
/// `N` binary rOTs as sender (those past `N` are padding), its choices and
/// blocks as receiver of the `tau` DELTA-choose-1 rOTs, and the masked key
/// bits the server sent. Fails if there are not `N` masked bits, or one is
/// not a bit.
pub fn client_state(
    r_seeds: &Vec<[Block; 2]>,
    delta_blocks: &Vec<Block>,
    delta_choices: &Vec<Zdelta>,
    bhat: &Vec<u8>,
    uid: &Uid,
) -> (r: Result<ClientState, PreprocError>)
    requires
        N <= r_seeds@.len(),
        delta_blocks@.len() == delta_choices@.len(),
        delta_choices@.len() < MAX_TAU,
        forall|j: int| 0 <= j < delta_choices@.len() ==> #[trigger] delta_choices@[j] < DELTA,
    ensures
        bhat@.len() != N ==> r == Err::<ClientState, PreprocError>(
            PreprocError::Malformed("b_hat has wrong length"),
        ),
        bhat@.len() == N && !(forall|i: int| 0 <= i < N ==> #[trigger] bhat@[i] <= 1) ==> r == Err::<
            ClientState,
            PreprocError,
        >(PreprocError::Malformed("b_hat entries must be bits")),
        bhat@.len() == N && (forall|i: int| 0 <= i < N ==> #[trigger] bhat@[i] <= 1) ==> r is Ok,
        r matches Ok(c) ==> {
            &&& c.wf()
            &&& c.ctr() == 0
            &&& c.tau() == delta_choices@.len()
            &&& c.uid_view() == uid@
            &&& forall|i: int, side: int| 0 <= i < N && 0 <= side < 2 ==> #[trigger] c.seed(i, side)
                == r_seeds@[i][side]@
            &&& forall|i: int| 0 <= i < N ==> #[trigger] c.bhat(i) == bhat@[i]
            &&& forall|j: int| 0 <= j < c.tau() ==> #[trigger] c.b_prime(j) == delta_choices@[j]
            &&& forall|j: int| 0 <= j < c.tau() ==> #[trigger] c.r_prime(j) == delta_blocks@[j]@[0]
        },
{
    let mut seeds: Vec<[Block; 2]> = Vec::new();
    let mut i: usize = 0;
    while i < N
        invariant
            i <= N,
            N <= r_seeds@.len(),
            seeds@ == r_seeds@.take(i as int),
        decreases N - i,
    {
        seeds.push(r_seeds[i]);
        i = i + 1;
        assert(seeds@ =~= r_seeds@.take(i as int));
    }
    let mut r_c: Vec<RcEntry> = Vec::new();
    let mut j: usize = 0;
    while j < delta_choices.len()
        invariant
            j <= delta_choices@.len(),
            delta_blocks@.len() == delta_choices@.len(),
            r_c@.len() == j,
            forall|jj: int| 0 <= jj < j ==> (#[trigger] r_c@[jj]).b_prime == delta_choices@[jj]
                && r_c@[jj].r_prime == delta_blocks@[jj]@[0],
        decreases delta_choices@.len() - j,
    {
        r_c.push(RcEntry { b_prime: delta_choices[j], r_prime: r_prime_from_block(&delta_blocks[j]) });
        j = j + 1;
    }
    if bhat.len() != N {
        return Err(PreprocError::Malformed("b_hat has wrong length"));
    }
    let mut k: usize = 0;
    while k < N
        invariant
            k <= N,
            bhat@.len() == N,
            forall|kk: int| 0 <= kk < k ==> #[trigger] bhat@[kk] <= 1,
        decreases N - k,
    {
        if bhat[k] > 1 {
            return Err(PreprocError::Malformed("b_hat entries must be bits"));
        }
        k = k + 1;
    }
    let mut bits: Vec<u8> = Vec::new();
    extend_from(&mut bits, bhat.as_slice());
    let mut id = [0u8; 16];
    let mut t: usize = 0;
    while t < 16
        invariant
            t <= 16,
            id@.len() == 16,
            forall|tt: int| 0 <= tt < t ==> #[trigger] id@[tt] == uid@[tt],
        decreases 16 - t,
    {
        id[t] = uid[t];
        t = t + 1;
    }
    assert(id@ =~= uid@);
    Ok(ClientState::new(seeds, bits, r_c, id))
}

/// The server's state after the OTs (lines 2 and 3): its seeds and bit
/// choices as receiver of the `N` binary rOTs (those past `N` are padding),
/// and its `DELTA` blocks per slot as sender of the DELTA-choose-1 rOTs, each
/// cut to its Z_p pad. Also the masked key bits `b_hat_i = b_i xor sk_i` it
/// sends (line 4).
pub fn server_state(
    seeds: &Vec<Block>,
    choices: &Vec<u8>,
    sender_blocks: &Vec<[Block; DELTA]>,
    sk: &SecretKey,
    uid: &Uid,
) -> (r: (ServerState, Vec<u8>))
    requires
        N <= seeds@.len(),
        N <= choices@.len(),
        forall|i: int| 0 <= i < choices@.len() ==> #[trigger] choices@[i] <= 1,
        sender_blocks@.len() < MAX_TAU,
    ensures
        r.0.wf(),
        r.0.ctr() == 0,
        r.0.tau() == sender_blocks@.len(),
        r.0.uid_view() == uid@,
        forall|i: int| 0 <= i < N ==> #[trigger] r.0.seed(i) == seeds@[i]@,
        forall|i: int| 0 <= i < N ==> #[trigger] r.0.b(i) == choices@[i],
        forall|j: int, d: int| #![trigger r.0.pads(j)[d]]
            0 <= j < r.0.tau() && 0 <= d < DELTA ==> r.0.pads(j)[d] == sender_blocks@[j][d]@[0],
        forall|j: int| 0 <= j < r.0.tau() ==> (#[trigger] r.0.pads(j)).len() == DELTA,
        r.1@.len() == N,
        forall|i: int| 0 <= i < N ==> #[trigger] r.1@[i] == choices@[i] ^ sk@[i],
{
    let bits = sk.as_bits();
    let mut r_s: Vec<RsEntry> = Vec::new();
    let mut bhat: Vec<u8> = Vec::new();
    let mut i: usize = 0;
    while i < N
        invariant
            i <= N,
            N <= seeds@.len(),
            N <= choices@.len(),
            bits@ == sk@,
            forall|t: int| 0 <= t < choices@.len() ==> #[trigger] choices@[t] <= 1,
            r_s@.len() == i,
            bhat@.len() == i,
            forall|t: int| 0 <= t < i ==> (#[trigger] r_s@[t]).b == choices@[t] && r_s@[t].r_seed
                == seeds@[t],
            forall|t: int| 0 <= t < i ==> #[trigger] bhat@[t] == choices@[t] ^ sk@[t],
        decreases N - i,
    {
        r_s.push(RsEntry { b: choices[i], r_seed: seeds[i] });
        bhat.push(choices[i] ^ bits[i]);
        i = i + 1;
    }
    let mut s_s: Vec<[Zp; DELTA]> = Vec::new();
    let mut j: usize = 0;
    while j < sender_blocks.len()
        invariant
            j <= sender_blocks@.len(),
            s_s@.len() == j,
            forall|jj: int, d: int| #![trigger s_s@[jj][d]]
                0 <= jj < j && 0 <= d < DELTA ==> s_s@[jj][d] == sender_blocks@[jj][d]@[0],
        decreases sender_blocks@.len() - j,
    {
        let blocks = &sender_blocks[j];
        let mut pads = [0u8; 16];
        let mut d: usize = 0;
        while d < DELTA
            invariant
                d <= DELTA,
                pads@.len() == DELTA,
                forall|dd: int| 0 <= dd < d ==> #[trigger] pads@[dd] == blocks@[dd]@[0],
            decreases DELTA - d,
        {
            pads[d] = r_prime_from_block(&blocks[d]);
            d = d + 1;
        }
        s_s.push(pads);
        j = j + 1;
    }
    let mut id = [0u8; 16];
    let mut t: usize = 0;
    while t < 16
        invariant
            t <= 16,
            id@.len() == 16,
            forall|tt: int| 0 <= tt < t ==> #[trigger] id@[tt] == uid@[tt],
        decreases 16 - t,
    {
        id[t] = uid[t];
        t = t + 1;
    }
    assert(id@ =~= uid@);
    (ServerState::new(r_s, s_s, id), bhat)
}

} // verus!
