//! BLAKE3's compression function, with every intermediate state.
//!
//! A proof system that checks a BLAKE3 computation needs it written out in
//! full: the input, the state after each half of each round, and the
//! output. This module runs one compression and returns all of that; laying
//! it out in a proof system's columns is the caller's.
//!
//! One compression only, so messages of at most one block (64 bytes).
//!
//! The state is kept as 16 words `v[0..16]`; the proof system's rows are
//! `v[0..4]`, `v[4..8]`, `v[8..12]` and `v[12..16]`.
use vstd::prelude::*;

verus! {

/// BLAKE3's initialization vector.
pub const IV: [u32; 8] = [
    0x6A09E667,
    0xBB67AE85,
    0x3C6EF372,
    0xA54FF53A,
    0x510E527F,
    0x9B05688C,
    0x1F83D9AB,
    0x5BE0CD19,
];

/// The order the message words are read in the next round.
pub const MSG_PERMUTATION: [usize; 16] = [2, 6, 3, 10, 7, 0, 4, 13, 1, 11, 12, 5, 9, 14, 15, 8];

/// Flag of a chunk's first block.
pub const CHUNK_START: u32 = 1;

/// Flag of a chunk's last block.
pub const CHUNK_END: u32 = 2;

/// Flag of the root compression.
pub const ROOT: u32 = 8;

/// Flag of `derive_key`'s hashing of its material.
pub const DERIVE_KEY_MATERIAL: u32 = 64;

/// Bytes of a block.
pub const BLOCK_BYTES: usize = 64;

/// Words of a block.
pub const BLOCK_WORDS: usize = 16;

/// Byte `k` of `bytes` padded with zeros.
pub open spec fn padded_byte(bytes: Seq<u8>, k: int) -> u8 {
    if k < bytes.len() {
        bytes[k]
    } else {
        0
    }
}

/// Word `i` of a block: bytes `4i .. 4i + 4`, little-endian.
pub open spec fn block_word(bytes: Seq<u8>, i: int) -> u32 {
    (padded_byte(bytes, 4 * i) + 256 * padded_byte(bytes, 4 * i + 1) + 65536 * padded_byte(
        bytes,
        4 * i + 2,
    ) + 16777216 * padded_byte(bytes, 4 * i + 3)) as u32
}

/// A block from at most 64 bytes, zero-padded, as little-endian words.
pub fn block_from_bytes(bytes: &[u8]) -> (r: [u32; BLOCK_WORDS])
    requires
        bytes@.len() <= BLOCK_BYTES,
    ensures
        forall|i: int| 0 <= i < BLOCK_WORDS ==> #[trigger] r@[i] == block_word(bytes@, i),
{
    let mut padded = [0u8; 64];
    let mut k: usize = 0;
    while k < bytes.len()
        invariant
            bytes@.len() <= BLOCK_BYTES,
            k <= bytes@.len(),
            padded@.len() == BLOCK_BYTES,
            forall|j: int| 0 <= j < k ==> #[trigger] padded@[j] == bytes@[j],
            forall|j: int| k <= j < BLOCK_BYTES ==> #[trigger] padded@[j] == 0,
        decreases bytes@.len() - k,
    {
        padded[k] = bytes[k];
        k = k + 1;
    }
    let mut words = [0u32; 16];
    let mut i: usize = 0;
    while i < BLOCK_WORDS
        invariant
            i <= BLOCK_WORDS,
            words@.len() == BLOCK_WORDS,
            padded@.len() == BLOCK_BYTES,
            forall|j: int| 0 <= j < BLOCK_BYTES ==> #[trigger] padded@[j] == padded_byte(bytes@, j),
            forall|j: int| 0 <= j < i ==> #[trigger] words@[j] == block_word(bytes@, j),
        decreases BLOCK_WORDS - i,
    {
        let w = padded[4 * i] as u32 + 256 * padded[4 * i + 1] as u32 + 65536 * padded[4 * i
            + 2] as u32 + 16777216 * padded[4 * i + 3] as u32;
        words[i] = w;
        i = i + 1;
    }
    words
}

/// The flags of the one compression that hashes a message of at most 64
/// bytes.
pub fn single_block_flags(mode: u32) -> (r: u32)
    ensures
        r == CHUNK_START | CHUNK_END | ROOT | mode,
{
    CHUNK_START | CHUNK_END | ROOT | mode
}

/// The key BLAKE3's `derive_key(context, ..)` hashes with: the hash of the
/// context string in BLAKE3's context mode.
pub uninterp spec fn blake3_context_key(context: Seq<char>) -> Seq<u8>;

/// Calls `blake3::hazmat::hash_derive_key_context`. Claimed: 32 bytes, the
/// named function of the context string.
#[verifier::external_body]
fn hash_context(context: &str) -> (r: [u8; 32])
    ensures
        r@ == blake3_context_key(context@),
{
    blake3::hazmat::hash_derive_key_context(context)
}

/// The key `derive_key(context)` hashes with, as little-endian words.
pub fn context_key(context: &str) -> (r: [u32; 8])
    ensures
        forall|i: int| 0 <= i < 8 ==> #[trigger] r@[i] == block_word(blake3_context_key(context@), i),
{
    let key = hash_context(context);
    let words = block_from_bytes(&key);
    let mut r = [0u32; 8];
    let mut i: usize = 0;
    while i < 8
        invariant
            i <= 8,
            r@.len() == 8,
            key@ == blake3_context_key(context@),
            forall|j: int| 0 <= j < BLOCK_WORDS ==> #[trigger] words@[j] == block_word(key@, j),
            forall|j: int| 0 <= j < i ==> #[trigger] r@[j] == block_word(key@, j),
        decreases 8 - i,
    {
        r[i] = words[i];
        i = i + 1;
    }
    r
}

/// `x` rotated right by `n` bits.
pub open spec fn rotr(x: u32, n: u32) -> u32 {
    (x >> n) | (x << ((32 - n) as u32))
}

/// Half of BLAKE3's mixing function `G`: the first half mixes in one message
/// word and rotates by 16 and 12, the second mixes in the next and rotates
/// by 8 and 7.
pub open spec fn half_g_spec(a: u32, b: u32, c: u32, d: u32, m: u32, second: bool) -> (
    u32,
    u32,
    u32,
    u32,
) {
    let rot_d: u32 = if second {
        8
    } else {
        16
    };
    let rot_b: u32 = if second {
        7
    } else {
        12
    };
    let a1 = a.wrapping_add(b).wrapping_add(m);
    let d1 = rotr(d ^ a1, rot_d);
    let c1 = c.wrapping_add(d1);
    let b1 = rotr(b ^ c1, rot_b);
    (a1, b1, c1, d1)
}

fn rotate_right(x: u32, n: u32) -> (r: u32)
    requires
        0 < n < 32,
    ensures
        r == rotr(x, n),
{
    (x >> n) | (x << (32 - n))
}

/// Half of `G`, on the words `a, b, c, d` of the state and message word `m`.
pub fn half_g(a: u32, b: u32, c: u32, d: u32, m: u32, second: bool) -> (r: (u32, u32, u32, u32))
    ensures
        r == half_g_spec(a, b, c, d, m, second),
{
    let (rot_d, rot_b): (u32, u32) = if second {
        (8, 7)
    } else {
        (16, 12)
    };
    let a1 = a.wrapping_add(b).wrapping_add(m);
    let d1 = rotate_right(d ^ a1, rot_d);
    let c1 = c.wrapping_add(d1);
    let b1 = rotate_right(b ^ c1, rot_b);
    (a1, b1, c1, d1)
}

/// The state after half of `G` on words `ia, ib, ic, id` with message word
/// `m`.
pub open spec fn g_step(v: Seq<u32>, ia: int, ib: int, ic: int, id: int, m: u32, second: bool) -> Seq<
    u32,
> {
    let (a, b, c, d) = half_g_spec(v[ia], v[ib], v[ic], v[id], m, second);
    v.update(ia, a).update(ib, b).update(ic, c).update(id, d)
}

/// The message word column or diagonal `i` mixes in.
pub open spec fn msg_index(base: int, i: int, second: bool) -> int {
    base + 2 * i + if second {
        1int
    } else {
        0int
    }
}

/// The first `n` columns mixed, in order: column `i` is words
/// `i, 4 + i, 8 + i, 12 + i`.
pub open spec fn columns(v: Seq<u32>, m: Seq<u32>, second: bool, n: nat) -> Seq<u32>
    decreases n,
{
    if n == 0 {
        v
    } else {
        let i = n - 1;
        g_step(columns(v, m, second, (n - 1) as nat), i, 4 + i, 8 + i, 12 + i, m[msg_index(0, i, second)], second)
    }
}

/// The first `n` diagonals mixed, in order: diagonal `i` is words
/// `i, 4 + (i + 1) % 4, 8 + (i + 2) % 4, 12 + (i + 3) % 4`.
pub open spec fn diagonals(v: Seq<u32>, m: Seq<u32>, second: bool, n: nat) -> Seq<u32>
    decreases n,
{
    if n == 0 {
        v
    } else {
        let i = n - 1;
        g_step(
            diagonals(v, m, second, (n - 1) as nat),
            i,
            4 + (i + 1) % 4,
            8 + (i + 2) % 4,
            12 + (i + 3) % 4,
            m[msg_index(8, i, second)],
            second,
        )
    }
}

/// Half of `G` on each of the four columns.
pub fn column_half(v: &mut [u32; 16], m: &[u32; BLOCK_WORDS], second: bool)
    ensures
        final(v)@ == columns(old(v)@, m@, second, 4),
{
    let ghost v0 = v@;
    let mut i: usize = 0;
    while i < 4
        invariant
            i <= 4,
            v@.len() == 16,
            v@ == columns(v0, m@, second, i as nat),
        decreases 4 - i,
    {
        let k = 2 * i + if second {
            1
        } else {
            0
        };
        let (a, b, c, d) = half_g(v[i], v[4 + i], v[8 + i], v[12 + i], m[k], second);
        v[i] = a;
        v[4 + i] = b;
        v[8 + i] = c;
        v[12 + i] = d;
        i = i + 1;
    }
}

/// Half of `G` on each of the four diagonals.
pub fn diagonal_half(v: &mut [u32; 16], m: &[u32; BLOCK_WORDS], second: bool)
    ensures
        final(v)@ == diagonals(old(v)@, m@, second, 4),
{
    let ghost v0 = v@;
    let mut i: usize = 0;
    while i < 4
        invariant
            i <= 4,
            v@.len() == 16,
            v@ == diagonals(v0, m@, second, i as nat),
        decreases 4 - i,
    {
        let (b, c, d) = (4 + (i + 1) % 4, 8 + (i + 2) % 4, 12 + (i + 3) % 4);
        let k = 8 + 2 * i + if second {
            1
        } else {
            0
        };
        let (na, nb, nc, nd) = half_g(v[i], v[b], v[c], v[d], m[k], second);
        v[i] = na;
        v[b] = nb;
        v[c] = nc;
        v[d] = nd;
        i = i + 1;
    }
}

/// The message words in the order the next round reads them.
pub open spec fn permuted(m: Seq<u32>) -> Seq<u32> {
    Seq::new(16, |i: int| m[MSG_PERMUTATION[i] as int])
}

/// Reorder the message words for the next round.
pub fn permute(m: &mut [u32; BLOCK_WORDS])
    ensures
        final(m)@ == permuted(old(m)@),
{
    let old_m = *m;
    let mut i: usize = 0;
    while i < BLOCK_WORDS
        invariant
            i <= BLOCK_WORDS,
            m@.len() == BLOCK_WORDS,
            forall|j: int| 0 <= j < i ==> #[trigger] m@[j] == old_m@[MSG_PERMUTATION[j] as int],
        decreases BLOCK_WORDS - i,
    {
        m[i] = old_m[MSG_PERMUTATION[i]];
        i = i + 1;
    }
    assert(m@ =~= permuted(old_m@));
}

/// The first 8 words of the output: `v[i] ^ v[i + 8]`.
pub open spec fn digest_spec(v: Seq<u32>) -> Seq<u32> {
    Seq::new(8, |i: int| v[i] ^ v[i + 8])
}

/// The compression's 8-word output, from its final state.
pub fn digest(v: &[u32; 16]) -> (r: [u32; 8])
    ensures
        r@ == digest_spec(v@),
{
    let mut r = [0u32; 8];
    let mut i: usize = 0;
    while i < 8
        invariant
            i <= 8,
            r@.len() == 8,
            forall|j: int| 0 <= j < i ==> #[trigger] r@[j] == v@[j] ^ v@[j + 8],
        decreases 8 - i,
    {
        r[i] = v[i] ^ v[i + 8];
        i = i + 1;
    }
    assert(r@ =~= digest_spec(v@));
    r
}

/// The full 16-word output of a compression: the digest, then the last 8
/// words mixed with the chaining value, `v[i + 8] ^ cv[i]`.
pub open spec fn extended_output_spec(v: Seq<u32>, cv: Seq<u32>) -> Seq<u32> {
    Seq::new(16, |i: int| if i < 8 {
        v[i] ^ v[i + 8]
    } else {
        v[i] ^ cv[i - 8]
    })
}

proof fn lemma_xor_cancel(a: u32, b: u32, c: u32)
    ensures
        (a ^ b) ^ b == a,
        ((a ^ b) ^ (b ^ c)) ^ c == a,
{
    assert((a ^ b) ^ b == a) by (bit_vector);
    assert(((a ^ b) ^ (b ^ c)) ^ c == a) by (bit_vector);
}

/// The 16-word output keeps the whole final state, readable back with the
/// chaining value: words `0..8` are the digest, word `8 + i` with `cv[i]`
/// taken off is the state's word `8 + i`, and words `i` and `8 + i` with
/// `cv[i]` taken off give the state's word `i`.
pub proof fn lemma_extended_output_determines_state(v: Seq<u32>, cv: Seq<u32>)
    requires
        v.len() == 16,
        cv.len() == 8,
    ensures
        extended_output_spec(v, cv).len() == 16,
        extended_output_spec(v, cv).take(8) == digest_spec(v),
        forall|i: int| 0 <= i < 8 ==> #[trigger] extended_output_spec(v, cv)[i + 8] ^ cv[i] == v[i + 8],
        forall|i: int|
            0 <= i < 8 ==> (#[trigger] extended_output_spec(v, cv)[i]) ^ extended_output_spec(v, cv)[i
                + 8] ^ cv[i] == v[i],
{
    let o = extended_output_spec(v, cv);
    assert(o.take(8) =~= digest_spec(v));
    assert forall|i: int| 0 <= i < 8 implies #[trigger] o[i + 8] ^ cv[i] == v[i + 8] by {
        lemma_xor_cancel(v[i + 8], cv[i], cv[i]);
    }
    assert forall|i: int| 0 <= i < 8 implies (#[trigger] o[i]) ^ o[i + 8] ^ cv[i] == v[i] by {
        lemma_xor_cancel(v[i], v[i + 8], cv[i]);
    }
}

proof fn lemma_columns_len(v: Seq<u32>, m: Seq<u32>, second: bool, n: nat)
    requires
        v.len() == 16,
        n <= 4,
    ensures
        columns(v, m, second, n).len() == 16,
        diagonals(v, m, second, n).len() == 16,
    decreases n,
{
    if n > 0 {
        lemma_columns_len(v, m, second, (n - 1) as nat);
    }
}

proof fn lemma_after_quarters_len(v: Seq<u32>, m: Seq<u32>, q: nat)
    requires
        v.len() == 16,
    ensures
        after_quarters(v, m, q).len() == 16,
    decreases q,
{
    if q > 0 {
        lemma_after_quarters_len(v, m, (q - 1) as nat);
        let w = after_quarters(v, m, (q - 1) as nat);
        let mm = round_msg(m, ((q - 1) / 4) as nat);
        lemma_columns_len(w, mm, false, 4);
        lemma_columns_len(w, mm, true, 4);
    }
}

/// For a compression run from `cv`: the first half of its 16-word output is
/// the run's 8-word output, and the second half is the second half of the
/// final state with `cv` mixed in, so both halves of the final state are read
/// back from the output and `cv`.
pub proof fn lemma_extended_output_of_compression(
    cv: Seq<u32>,
    block: Seq<u32>,
    counter: u64,
    block_len: u32,
    flags: u32,
)
    requires
        cv.len() == 8,
        block.len() == BLOCK_WORDS,
    ensures
        ({
            let v = after_quarters(initial_state_spec(cv, counter, block_len, flags), block, 28);
            let o = extended_output_spec(v, cv);
            &&& o.take(8) == digest_spec(v)
            &&& forall|i: int| 0 <= i < 8 ==> #[trigger] o[i + 8] ^ cv[i] == v[i + 8]
            &&& forall|i: int| 0 <= i < 8 ==> (#[trigger] o[i]) ^ o[i + 8] ^ cv[i] == v[i]
        }),
{
    let v0 = initial_state_spec(cv, counter, block_len, flags);
    lemma_after_quarters_len(v0, block, 28);
    let v = after_quarters(v0, block, 28);
    lemma_extended_output_determines_state(v, cv);
}

/// The compression's 16-word output, from its final state and the chaining
/// value it started from. With `cv` taken off, its second half is the second
/// half of the final state.
pub fn extended_output(v: &[u32; 16], cv: &[u32; 8]) -> (r: [u32; 16])
    ensures
        r@ == extended_output_spec(v@, cv@),
        r@.take(8) == digest_spec(v@),
        forall|i: int| 0 <= i < 8 ==> #[trigger] r@[i + 8] ^ cv@[i] == v@[i + 8],
        forall|i: int| 0 <= i < 8 ==> (#[trigger] r@[i]) ^ r@[i + 8] ^ cv@[i] == v@[i],
{
    proof {
        lemma_extended_output_determines_state(v@, cv@);
    }
    let mut r = [0u32; 16];
    let mut i: usize = 0;
    while i < 16
        invariant
            i <= 16,
            r@.len() == 16,
            forall|j: int| 0 <= j < i ==> #[trigger] r@[j] == extended_output_spec(v@, cv@)[j],
        decreases 16 - i,
    {
        r[i] = if i < 8 {
            v[i] ^ v[i + 8]
        } else {
            v[i] ^ cv[i - 8]
        };
        i = i + 1;
    }
    assert(r@ =~= extended_output_spec(v@, cv@));
    r
}

/// The state a compression starts from: the chaining value, the first half
/// of the IV, then the counter's low and high words, the block length and
/// the flags.
pub open spec fn initial_state_spec(cv: Seq<u32>, counter: u64, block_len: u32, flags: u32) -> Seq<
    u32,
> {
    cv.subrange(0, 8) + IV@.subrange(0, 4) + seq![counter as u32, (counter >> 32u64) as u32, block_len, flags]
}

pub fn initial_state(cv: &[u32; 8], counter: u64, block_len: u32, flags: u32) -> (r: [u32; 16])
    ensures
        r@ == initial_state_spec(cv@, counter, block_len, flags),
{
    let r = [
        cv[0],
        cv[1],
        cv[2],
        cv[3],
        cv[4],
        cv[5],
        cv[6],
        cv[7],
        IV[0],
        IV[1],
        IV[2],
        IV[3],
        counter as u32,
        (counter >> 32) as u32,
        block_len,
        flags,
    ];
    assert(r@ =~= initial_state_spec(cv@, counter, block_len, flags));
    r
}

/// The message words round `r` reads.
pub open spec fn round_msg(m: Seq<u32>, r: nat) -> Seq<u32>
    decreases r,
{
    if r == 0 {
        m
    } else {
        permuted(round_msg(m, (r - 1) as nat))
    }
}

/// Quarter `h` of a round: columns then diagonals, each a first and a
/// second half of `G`.
pub open spec fn quarter(v: Seq<u32>, m: Seq<u32>, h: int) -> Seq<u32> {
    if h == 0 {
        columns(v, m, false, 4)
    } else if h == 1 {
        columns(v, m, true, 4)
    } else if h == 2 {
        diagonals(v, m, false, 4)
    } else {
        diagonals(v, m, true, 4)
    }
}

/// The state after the first `q` quarters of the compression's seven
/// rounds.
pub open spec fn after_quarters(v: Seq<u32>, m: Seq<u32>, q: nat) -> Seq<u32>
    decreases q,
{
    if q == 0 {
        v
    } else {
        quarter(after_quarters(v, m, (q - 1) as nat), round_msg(m, ((q - 1) / 4) as nat), (q - 1) % 4)
    }
}

/// Quarters of a compression: seven rounds of four.
pub const QUARTERS: usize = 28;

/// One compression written out: the state after each quarter of each round,
/// in order, and the 8-word output.
pub struct Compression {
    pub states: Vec<[u32; 16]>,
    pub output: [u32; 8],
}

/// Run one compression of `block` from chaining value `cv` and return every
/// state it passes through and its output.
pub fn compress(cv: &[u32; 8], block: &[u32; BLOCK_WORDS], counter: u64, block_len: u32, flags: u32) -> (r:
    Compression)
    ensures
        r.states@.len() == QUARTERS,
        forall|q: int|
            0 <= q < QUARTERS ==> (#[trigger] r.states@[q])@ == after_quarters(
                initial_state_spec(cv@, counter, block_len, flags),
                block@,
                (q + 1) as nat,
            ),
        r.output@ == digest_spec(
            after_quarters(initial_state_spec(cv@, counter, block_len, flags), block@, 28),
        ),
{
    let ghost v0 = initial_state_spec(cv@, counter, block_len, flags);
    let mut s = initial_state(cv, counter, block_len, flags);
    let mut m = *block;
    let mut states: Vec<[u32; 16]> = Vec::new();
    let mut round: usize = 0;
    while round < 7
        invariant
            round <= 7,
            states@.len() == 4 * round,
            s@ == after_quarters(v0, block@, (4 * round) as nat),
            round < 7 ==> m@ == round_msg(block@, round as nat),
            forall|q: int|
                0 <= q < 4 * round ==> (#[trigger] states@[q])@ == after_quarters(
                    v0,
                    block@,
                    (q + 1) as nat,
                ),
        decreases 7 - round,
    {
        let ghost q0 = (4 * round) as nat;
        column_half(&mut s, &m, false);
        assert(s@ == after_quarters(v0, block@, q0 + 1));
        states.push(s);
        column_half(&mut s, &m, true);
        assert(s@ == after_quarters(v0, block@, q0 + 2));
        states.push(s);
        diagonal_half(&mut s, &m, false);
        assert(s@ == after_quarters(v0, block@, q0 + 3));
        states.push(s);
        diagonal_half(&mut s, &m, true);
        assert(s@ == after_quarters(v0, block@, q0 + 4));
        states.push(s);
        if round < 6 {
            permute(&mut m);
        }
        round = round + 1;
    }
    let output = digest(&s);
    Compression { states, output }
}

} // verus!
