//! (DELTA-choose-1) random OT from binary (2-choose-1) random OTs.
//!
//! DELTA is a power of 2, so a 1-of-DELTA choice is LOG_DELTA binary
//! choices, and LOG_DELTA binary rOTs make one DELTA-choose-1 rOT. The
//! sender holds a pair of blocks for each of them and derives all DELTA
//! outputs: output `c` hashes, from pair `i`, the block bit `i` of `c`
//! selects (lowest bit first), and then `c` itself. A receiver whose binary
//! choices spell `c` holds exactly those blocks, so it derives the same
//! output, and no other.
use vstd::prelude::*;
use crate::blake::{blake3_hash, extend_from, hash};
use crate::params::{Zdelta, DELTA, LOG_DELTA};
use crate::preprocessing::Block;

verus! {

/// CryProt's `BASE_OT_COUNT`, the multiple its OT extensions run in.
///
/// Trusted: the constant is 128 in the version of `cryprot-ot` this crate
/// builds against.
#[verifier::external_body]
fn base_ot_count() -> (r: usize)
    ensures
        r == 128,
{
    cryprot_ot::extension::BASE_OT_COUNT
}

/// The binary rOTs that `delta_ot_count` DELTA-choose-1 rOTs need, rounded
/// up to a multiple of CryProt's `BASE_OT_COUNT` (128). The count must be
/// positive.
pub fn required_binary_ot_count(delta_ot_count: usize) -> (r: usize)
    requires
        delta_ot_count > 0,
        LOG_DELTA * delta_ot_count + 127 <= usize::MAX,
    ensures
        r % 128 == 0,
        LOG_DELTA * delta_ot_count <= r < LOG_DELTA * delta_ot_count + 128,
{
    let base = base_ot_count();
    let needed = LOG_DELTA * delta_ot_count;
    let r = (needed + (base - 1)) / base * base;
    proof {
        let q = (needed + 127) / 128;
        vstd::arithmetic::div_mod::lemma_fundamental_div_mod(needed + 127, 128);
        assert(r == q * 128);
    }
    r
}

/// Bit `i` of `value`.
pub open spec fn bit_spec(value: u8, i: int) -> u8 {
    (value >> (i as u8)) & 1
}

/// Bit `i` of `value`, lowest first.
pub fn bit(value: Zdelta, i: usize) -> (r: u8)
    requires
        i < 8,
    ensures
        r == bit_spec(value, i as int),
        r <= 1,
{
    let r = (value >> i as u8) & 1;
    assert(r <= 1) by (bit_vector)
        requires
            r == (value >> i as u8) & 1,
    ;
    r
}

/// The choice whose bits, lowest first, are `bits`.
pub open spec fn choice_spec(bits: Seq<u8>) -> u8 {
    (bits[0] + 2 * bits[1] + 4 * bits[2] + 8 * bits[3]) as u8
}

/// Folds `LOG_DELTA` choice bits, lowest first, into a choice index.
pub fn choice_from_bits(bits: &[u8; LOG_DELTA]) -> (r: Zdelta)
    requires
        forall|i: int| 0 <= i < LOG_DELTA ==> #[trigger] bits@[i] <= 1,
    ensures
        r == choice_spec(bits@),
        r < DELTA,
{
    let mut index: Zdelta = 0;
    let mut i: usize = 0;
    while i < LOG_DELTA
        invariant
            i <= LOG_DELTA,
            forall|j: int| 0 <= j < LOG_DELTA ==> #[trigger] bits@[j] <= 1,
            index == (if i > 0 { bits@[0] as int } else { 0 }) + (if i > 1 { 2 * bits@[1] } else { 0 })
                + (if i > 2 { 4 * bits@[2] } else { 0 }) + (if i > 3 { 8 * bits@[3] } else { 0 }),
        decreases LOG_DELTA - i,
    {
        let b = bits[i];
        let shifted = b << i as u8;
        assert(shifted == b * (if i == 0 { 1u8 } else if i == 1 { 2u8 } else if i == 2 { 4u8 } else { 8u8 }))
            by (bit_vector)
            requires
                shifted == b << i as u8,
                b <= 1,
                i < 4,
        ;
        assert(index | shifted == index + shifted) by (bit_vector)
            requires
                shifted == b * (if i == 0 { 1u8 } else if i == 1 { 2u8 } else if i == 2 { 4u8 } else { 8u8 }),
                b <= 1,
                i < 4,
                index < (if i == 0 { 1u8 } else if i == 1 { 2u8 } else if i == 2 { 4u8 } else { 8u8 }),
        ;
        index = index | shifted;
        i = i + 1;
    }
    index
}

/// The bits of a choice, folded back, are the choice.
pub proof fn lemma_choice_bits_round_trip(choice: u8)
    requires
        choice < DELTA,
    ensures
        choice_spec(seq![bit_spec(choice, 0), bit_spec(choice, 1), bit_spec(choice, 2), bit_spec(choice, 3)])
            == choice,
{
    let b0 = bit_spec(choice, 0);
    let b1 = bit_spec(choice, 1);
    let b2 = bit_spec(choice, 2);
    let b3 = bit_spec(choice, 3);
    assert(b0 + 2 * b1 + 4 * b2 + 8 * b3 == choice) by (bit_vector)
        requires
            choice < 16,
            b0 == (choice >> 0u8) & 1,
            b1 == (choice >> 1u8) & 1,
            b2 == (choice >> 2u8) & 1,
            b3 == (choice >> 3u8) & 1,
    ;
}

/// A choice's bits, read back from the choice.
pub proof fn lemma_bits_of_choice(bits: Seq<u8>)
    requires
        bits.len() == LOG_DELTA,
        forall|i: int| 0 <= i < LOG_DELTA ==> #[trigger] bits[i] <= 1,
    ensures
        forall|i: int| 0 <= i < LOG_DELTA ==> #[trigger] bit_spec(choice_spec(bits), i) == bits[i],
        choice_spec(bits) < DELTA,
{
    let b0 = bits[0];
    let b1 = bits[1];
    let b2 = bits[2];
    let b3 = bits[3];
    let c = choice_spec(bits);
    assert(c == (b0 + 2 * b1 + 4 * b2 + 8 * b3) as u8);
    assert(c < 16 && (c >> 0u8) & 1 == b0 && (c >> 1u8) & 1 == b1 && (c >> 2u8) & 1 == b2 && (c
        >> 3u8) & 1 == b3) by (bit_vector)
        requires
            b0 <= 1,
            b1 <= 1,
            b2 <= 1,
            b3 <= 1,
            c == (b0 + 2 * b1 + 4 * b2 + 8 * b3) as u8,
    ;
}

/// What output `choice` of a DELTA-choose-1 rOT hashes: the `LOG_DELTA`
/// blocks, then the choice byte.
pub open spec fn ot_block_message(blocks: Seq<Seq<u8>>, choice: u8) -> Seq<u8> {
    blocks[0] + blocks[1] + blocks[2] + blocks[3] + seq![choice]
}

/// Output `choice` derived from `blocks`: the first 16 bytes of the hash.
pub open spec fn ot_block(blocks: Seq<Seq<u8>>, choice: u8) -> Seq<u8> {
    blake3_hash(ot_block_message(blocks, choice)).take(16)
}

/// The sender's output `choice` from its `LOG_DELTA` pairs.
pub open spec fn sender_block(pairs: Seq<[Block; 2]>, choice: u8) -> Seq<u8> {
    ot_block(
        Seq::new(LOG_DELTA as nat, |i: int| pairs[i][bit_spec(choice, i) as int]@),
        choice,
    )
}

/// Derive one output block of a DELTA-choose-1 rOT by hashing `LOG_DELTA`
/// blocks together with `choice`, which must be in `0 .. DELTA`.
pub fn derive_ot_block(blocks: &[Block; LOG_DELTA], choice: Zdelta) -> (r: Block)
    requires
        choice < DELTA,
    ensures
        r@ == ot_block(blocks@.map_values(|b: Block| b@), choice),
{
    let mut message: Vec<u8> = Vec::new();
    let mut i: usize = 0;
    while i < LOG_DELTA
        invariant
            i <= LOG_DELTA,
            message@ == (if i > 0 { blocks@[0]@ } else { seq![] }) + (if i > 1 { blocks@[1]@ } else { seq![] })
                + (if i > 2 { blocks@[2]@ } else { seq![] }) + (if i > 3 { blocks@[3]@ } else { seq![] }),
        decreases LOG_DELTA - i,
    {
        let ghost before = message@;
        extend_from(&mut message, &blocks[i]);
        proof {
            if i == 0 {
                assert(message@ =~= blocks@[0]@ + seq![] + seq![] + seq![]);
            } else if i == 1 {
                assert(message@ =~= blocks@[0]@ + blocks@[1]@ + seq![] + seq![]);
            } else if i == 2 {
                assert(message@ =~= blocks@[0]@ + blocks@[1]@ + blocks@[2]@ + seq![]);
            } else {
                assert(message@ =~= blocks@[0]@ + blocks@[1]@ + blocks@[2]@ + blocks@[3]@);
            }
        }
        i = i + 1;
    }
    message.push(choice);
    let ghost bs = blocks@.map_values(|b: Block| b@);
    assert(message@ =~= ot_block_message(bs, choice));
    let digest = hash(&message);
    let mut out = [0u8; 16];
    let mut k: usize = 0;
    while k < 16
        invariant
            k <= 16,
            digest@ == blake3_hash(ot_block_message(bs, choice)),
            out@.len() == 16,
            forall|j: int| 0 <= j < k ==> #[trigger] out@[j] == digest@[j],
        decreases 16 - k,
    {
        out[k] = digest[k];
        k = k + 1;
    }
    assert(out@ =~= ot_block(bs, choice));
    out
}

/// Select one block from each pair by the bits of `choice`, then derive the
/// output block.
pub fn select_and_derive_ot_block(pairs: &[[Block; 2]; LOG_DELTA], choice: Zdelta) -> (r: Block)
    requires
        choice < DELTA,
    ensures
        r@ == sender_block(pairs@, choice),
{
    let selected: [Block; 4] = [
        pairs[0][bit(choice, 0) as usize],
        pairs[1][bit(choice, 1) as usize],
        pairs[2][bit(choice, 2) as usize],
        pairs[3][bit(choice, 3) as usize],
    ];
    let r = derive_ot_block(&selected, choice);
    assert(selected@.map_values(|b: Block| b@) =~= Seq::new(
        LOG_DELTA as nat,
        |i: int| pairs@[i][bit_spec(choice, i) as int]@,
    ));
    r
}

/// The sender's `DELTA` outputs for each of `delta_ot_count` rOTs, from the
/// pairs of the binary rOTs, `LOG_DELTA` pairs per rOT in order. Pairs past
/// those are padding and are ignored.
pub fn delta_ot_sender_blocks(pairs: &Vec<[Block; 2]>, delta_ot_count: usize) -> (r: Vec<[Block; DELTA]>)
    requires
        LOG_DELTA * delta_ot_count <= pairs@.len(),
    ensures
        r@.len() == delta_ot_count,
        forall|j: int, c: int| #![trigger r@[j][c]]
            0 <= j < delta_ot_count && 0 <= c < DELTA ==> r@[j][c]@ == sender_block(
                pairs@.subrange(LOG_DELTA * j, LOG_DELTA * j + LOG_DELTA),
                c as u8,
            ),
{
    let mut out: Vec<[Block; DELTA]> = Vec::new();
    let n_pairs = pairs.len();
    let mut j: usize = 0;
    while j < delta_ot_count
        invariant
            n_pairs == pairs@.len(),
            j <= delta_ot_count,
            LOG_DELTA * delta_ot_count <= pairs@.len(),
            out@.len() == j,
            forall|jj: int, c: int| #![trigger out@[jj][c]]
                0 <= jj < j && 0 <= c < DELTA ==> out@[jj][c]@ == sender_block(
                    pairs@.subrange(LOG_DELTA * jj, LOG_DELTA * jj + LOG_DELTA),
                    c as u8,
                ),
        decreases delta_ot_count - j,
    {
        let ot_pairs: [[Block; 2]; 4] = [
            pairs[LOG_DELTA * j],
            pairs[LOG_DELTA * j + 1],
            pairs[LOG_DELTA * j + 2],
            pairs[LOG_DELTA * j + 3],
        ];
        let ghost chunk = pairs@.subrange(LOG_DELTA * j, LOG_DELTA * j + LOG_DELTA);
        assert(ot_pairs@ =~= chunk);
        let mut blocks = [[0u8; 16]; 16];
        let mut c: usize = 0;
        while c < DELTA
            invariant
                c <= DELTA,
                ot_pairs@ == chunk,
                blocks@.len() == DELTA,
                forall|cc: int| 0 <= cc < c ==> (#[trigger] blocks@[cc])@ == sender_block(chunk, cc as u8),
            decreases DELTA - c,
        {
            blocks[c] = select_and_derive_ot_block(&ot_pairs, c as Zdelta);
            c = c + 1;
        }
        out.push(blocks);
        j = j + 1;
    }
    out
}

/// The receiver's choice and output for each of `delta_ot_count` rOTs, from
/// the blocks and bit choices of the binary rOTs, `LOG_DELTA` per rOT in
/// order. Those past them are padding and are ignored.
pub fn delta_ot_receiver_output(blocks: &Vec<Block>, bits: &Vec<u8>, delta_ot_count: usize) -> (r: (
    Vec<Block>,
    Vec<Zdelta>,
))
    requires
        LOG_DELTA * delta_ot_count <= blocks@.len(),
        LOG_DELTA * delta_ot_count <= bits@.len(),
        forall|t: int| 0 <= t < bits@.len() ==> #[trigger] bits@[t] <= 1,
    ensures
        r.0@.len() == delta_ot_count,
        r.1@.len() == delta_ot_count,
        forall|j: int| 0 <= j < delta_ot_count ==> #[trigger] r.1@[j] == choice_spec(
            bits@.subrange(LOG_DELTA * j, LOG_DELTA * j + LOG_DELTA),
        ),
        forall|j: int| 0 <= j < delta_ot_count ==> #[trigger] r.1@[j] < DELTA,
        forall|j: int| 0 <= j < delta_ot_count ==> (#[trigger] r.0@[j])@ == ot_block(
            blocks@.subrange(LOG_DELTA * j, LOG_DELTA * j + LOG_DELTA).map_values(|b: Block| b@),
            r.1@[j],
        ),
{
    let mut out_blocks: Vec<Block> = Vec::new();
    let mut choices: Vec<Zdelta> = Vec::new();
    let n_bits = bits.len();
    let n_blocks = blocks.len();
    let mut j: usize = 0;
    while j < delta_ot_count
        invariant
            n_bits == bits@.len(),
            n_blocks == blocks@.len(),
            j <= delta_ot_count,
            LOG_DELTA * delta_ot_count <= blocks@.len(),
            LOG_DELTA * delta_ot_count <= bits@.len(),
            forall|t: int| 0 <= t < bits@.len() ==> #[trigger] bits@[t] <= 1,
            out_blocks@.len() == j,
            choices@.len() == j,
            forall|jj: int| 0 <= jj < j ==> #[trigger] choices@[jj] == choice_spec(
                bits@.subrange(LOG_DELTA * jj, LOG_DELTA * jj + LOG_DELTA),
            ),
            forall|jj: int| 0 <= jj < j ==> #[trigger] choices@[jj] < DELTA,
            forall|jj: int| 0 <= jj < j ==> (#[trigger] out_blocks@[jj])@ == ot_block(
                blocks@.subrange(LOG_DELTA * jj, LOG_DELTA * jj + LOG_DELTA).map_values(
                    |b: Block| b@,
                ),
                choices@[jj],
            ),
        decreases delta_ot_count - j,
    {
        let chunk_bits: [u8; 4] = [
            bits[LOG_DELTA * j],
            bits[LOG_DELTA * j + 1],
            bits[LOG_DELTA * j + 2],
            bits[LOG_DELTA * j + 3],
        ];
        assert(chunk_bits@ =~= bits@.subrange(LOG_DELTA * j, LOG_DELTA * j + LOG_DELTA));
        let choice = choice_from_bits(&chunk_bits);
        let selected: [Block; 4] = [
            blocks[LOG_DELTA * j],
            blocks[LOG_DELTA * j + 1],
            blocks[LOG_DELTA * j + 2],
            blocks[LOG_DELTA * j + 3],
        ];
        assert(selected@.map_values(|b: Block| b@) =~= blocks@.subrange(
            LOG_DELTA * j,
            LOG_DELTA * j + LOG_DELTA,
        ).map_values(|b: Block| b@));
        out_blocks.push(derive_ot_block(&selected, choice));
        choices.push(choice);
        j = j + 1;
    }
    (out_blocks, choices)
}

/// DELTA-choose-1 rOT is correct when the binary rOTs are: if the receiver's
/// block of each binary rOT is the sender's block at the receiver's bit,
/// then the receiver's output is the sender's output at the receiver's
/// choice.
pub proof fn lemma_delta_ot_agrees(pairs: Seq<[Block; 2]>, blocks: Seq<Block>, bits: Seq<u8>)
    requires
        pairs.len() == LOG_DELTA,
        blocks.len() == LOG_DELTA,
        bits.len() == LOG_DELTA,
        forall|i: int| 0 <= i < LOG_DELTA ==> #[trigger] bits[i] <= 1,
        forall|i: int| 0 <= i < LOG_DELTA ==> #[trigger] blocks[i] == pairs[i][bits[i] as int],
    ensures
        ot_block(blocks.map_values(|b: Block| b@), choice_spec(bits)) == sender_block(
            pairs,
            choice_spec(bits),
        ),
{
    lemma_bits_of_choice(bits);
    let c = choice_spec(bits);
    assert(blocks.map_values(|b: Block| b@) =~= Seq::new(
        LOG_DELTA as nat,
        |i: int| pairs[i][bit_spec(c, i) as int]@,
    ));
}

} // verus!
