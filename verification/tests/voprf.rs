use pool_oprf::commitment::{Commitment, Domain, BABYBEAR_ORDER, KEY_DOMAIN};
use pool_oprf::compress::{
    block_from_bytes, compress, context_key, single_block_flags, DERIVE_KEY_MATERIAL, QUARTERS,
};
use pool_oprf::eval::respond;
use pool_oprf::key::{commit, elements, pack_key, KeyAir, KeyStatement, BITS_PER_ELEMENT, PACKED_KEY_ELEMENTS};
use pool_oprf::params::{Zdelta, Zq, DELTA, DELTA_ZQ, N, P, Q, ZP_MAX};
use pool_oprf::prf::SecretKey;
use pool_oprf::response::{ResponseStatement, ResponseWitness};
use pool_oprf::response_air::{ResponseAir, ENTRY_COLS, NUM_COLS};
use rand::rngs::StdRng;
use rand::{RngExt, SeedableRng};

const ALL_ONES: u32 = (1 << BITS_PER_ELEMENT) - 1;

fn key_with(set_bits: &[usize]) -> SecretKey {
    let mut bits = [0u8; N];
    for &i in set_bits {
        bits[i] = 1;
    }
    SecretKey::from_bits(bits).expect("bits")
}

fn seeded_key(seed: u64) -> SecretKey {
    let mut rng = StdRng::seed_from_u64(seed);
    let mut bytes = [0u8; N];
    rng.fill(&mut bytes[..]);
    SecretKey::from_random_bytes(bytes)
}

#[test]
fn the_first_bit_is_the_lowest() {
    assert_eq!(pack_key(&key_with(&[0]))[0], 1);
}

#[test]
fn element_boundaries_are_correct() {
    let packed = pack_key(&key_with(&[BITS_PER_ELEMENT - 1, BITS_PER_ELEMENT]));
    assert_eq!(packed[0], 1 << (BITS_PER_ELEMENT - 1));
    assert_eq!(packed[1], 1);
}

#[test]
fn the_last_element_is_padded_with_zeros() {
    let packed = pack_key(&SecretKey::from_bits([1; N]).expect("bits"));
    let (last, full) = packed.split_last().expect("elements");
    assert!(full.iter().all(|&element| element == ALL_ONES));
    if N % BITS_PER_ELEMENT == 0 {
        assert_eq!(*last, ALL_ONES);
    } else {
        assert_ne!(*last, ALL_ONES);
        assert_ne!(*last, 0);
    }
    assert_eq!(*last, (1 << (N - 16 * BITS_PER_ELEMENT)) - 1);
    assert_eq!(packed.len(), PACKED_KEY_ELEMENTS);
}

#[test]
fn commitment_is_deterministic_and_key_dependent() {
    let a = seeded_key(1);
    let b = seeded_key(2);
    assert_eq!(commit(&a), commit(&a));
    assert_ne!(commit(&a), commit(&b));
}

#[test]
fn same_input_commits_the_same_and_different_input_differently() {
    let a = Commitment::<1, 2>::commit([7, 8]);
    assert_eq!(a, Commitment::<1, 2>::commit([7, 8]));
    assert_ne!(a, Commitment::<1, 2>::commit([8, 7]));
}

#[test]
fn the_domain_is_input_too() {
    assert_ne!(Commitment::<1, 2>::commit([7, 8]).0, Commitment::<2, 2>::commit([7, 8]).0);
}

#[test]
fn a_commitment_is_eight_canonical_elements() {
    let c = Commitment::<1, 2>::commit([7, 8]);
    assert_eq!(c.0.len(), 8);
    assert!(c.0.iter().all(|&e| e < BABYBEAR_ORDER));
    assert_eq!(Commitment::<1, 2>::input([7, 8]), vec![1, 7, 8]);
    assert_eq!(Commitment::<3, 2>::domain(), 3);
    assert_eq!(Domain::Key.number(), KEY_DOMAIN);
}

#[test]
fn the_key_statement_is_the_key_commitment() {
    let sk = seeded_key(3);
    let statement = KeyStatement::for_key(&sk);
    assert_eq!(statement.pk, commit(&sk));
    let packed = pack_key(&sk);
    assert_eq!(elements(&packed), packed);
}

fn random(seed: u64) -> (ResponseStatement, ResponseWitness) {
    let mut rng = StdRng::seed_from_u64(seed);
    let witness = ResponseWitness { a_sigma_sum: rng.random_range(0..Q), pads: rng.random() };
    let b_bar_prime = rng.random_range(0..DELTA as Zdelta);
    (ResponseStatement::for_witness(&witness, b_bar_prime), witness)
}

/// The rules of (R), checked on a row the way a circuit checks them.
fn rules_hold(row: &[u32], y: &[u8; DELTA]) -> bool {
    let a = row[0] as i64;
    (0..DELTA).all(|j| {
        let c: Vec<i64> = row[1 + ENTRY_COLS * j..1 + ENTRY_COLS * (j + 1)].iter().map(|&v| v as i64).collect();
        let pack = |from: usize, n: usize| (0..n).map(|k| c[from + k] << k).sum::<i64>();
        let bits = c.iter().all(|&v| v == 0 || v == 1);
        let rule1 = pack(0, 12) == a - j as i64 + Q as i64 * c[12];
        let above_half = c[3] * (1 - (1 - c[0]) * (1 - c[1]) * (1 - c[2]));
        let rule3 = pack(4, 8) + above_half + pack(13, 8) - P as i64 * c[21] == y[j] as i64;
        bits && rule1 && rule3
    })
}

#[test]
fn the_rules_hold_at_every_wrap() {
    let mut rng = StdRng::seed_from_u64(1);
    let random: Vec<Zq> = (0..8).map(|_| rng.random_range(0..Q)).collect();
    let wraps = (0..=DELTA_ZQ).chain(Q - DELTA_ZQ..Q);
    for a_sigma_sum in wraps.chain(random) {
        for pads in [[0; DELTA], [ZP_MAX; DELTA], rng.random()] {
            let witness = ResponseWitness { a_sigma_sum, pads };
            let b_bar_prime = rng.random_range(0..DELTA as Zdelta);
            let statement = ResponseStatement::for_witness(&witness, b_bar_prime);
            let row = ResponseAir::trace_row(&witness, b_bar_prime);
            assert_eq!(row.len(), NUM_COLS);
            assert!(rules_hold(&row, &statement.y), "a = {a_sigma_sum}, pads = {pads:?}, b = {b_bar_prime}");
        }
    }
}

#[test]
fn every_entry_is_checked() {
    let (statement, witness) = random(2);
    let row = ResponseAir::trace_row(&witness, statement.b_bar_prime);
    for j in 0..DELTA {
        let mut changed = statement;
        changed.y[j] ^= 1;
        assert!(!rules_hold(&row, &changed.y), "entry {j} is not checked");
    }
}

#[test]
fn a_witness_that_does_not_give_the_response_is_refused() {
    let (statement, witness) = random(4);
    assert!(statement.holds_for(&witness));
    let mut other = statement;
    other.y[0] ^= 1;
    assert!(!other.holds_for(&witness));
    let unreduced = ResponseWitness { a_sigma_sum: Q, pads: witness.pads };
    assert!(!statement.holds_for(&unreduced));
    let mut out_of_range = statement;
    out_of_range.b_bar_prime = DELTA as Zdelta;
    assert!(!out_of_range.holds_for(&witness));
}

#[test]
fn the_statement_is_the_response() {
    let (statement, witness) = random(5);
    assert_eq!(statement.y, respond(witness.a_sigma_sum, &witness.pads, statement.b_bar_prime));
}

#[test]
fn a_filled_row_hashes_like_the_blake3_crate() {
    let mut rng = StdRng::seed_from_u64(1);
    let context = "pool-voprf test context";
    let cv = context_key(context);
    for len in [0usize, 1, 31, 32, 61, 63, 64] {
        let mut message = vec![0u8; len];
        rng.fill(&mut message[..]);
        let expected = blake3::Hasher::new_derive_key(context).update(&message).finalize();
        let run = compress(
            &cv,
            &block_from_bytes(&message),
            0,
            message.len() as u32,
            single_block_flags(DERIVE_KEY_MATERIAL),
        );
        assert_eq!(run.states.len(), QUARTERS);
        let mut digest = [0u8; 32];
        for (out, word) in digest.chunks_exact_mut(4).zip(run.output) {
            out.copy_from_slice(&word.to_le_bytes());
        }
        assert_eq!(digest, *expected.as_bytes(), "len {len}");
    }
}

#[test]
fn a_block_is_read_little_endian_and_padded() {
    let block = block_from_bytes(&[1, 2, 3, 4, 5]);
    assert_eq!(block[0], 0x0403_0201);
    assert_eq!(block[1], 5);
    assert!(block[2..].iter().all(|&w| w == 0));
    assert_eq!(single_block_flags(0), 1 | 2 | 8);
}

#[test]
fn the_key_columns_are_the_bits_and_the_sponge_takes_the_packed_key() {
    let sk = key_with(&[0, 31, N - 1]);
    let bits = KeyAir::bit_columns(&sk);
    assert_eq!(bits.len(), N);
    assert!(bits.iter().enumerate().all(|(i, &b)| b == u32::from(i == 0 || i == 31 || i == N - 1)));
    let input = KeyAir::sponge_input(&sk);
    let packed = pack_key(&sk);
    assert_eq!(input.len(), 1 + PACKED_KEY_ELEMENTS);
    assert_eq!(input[0], KEY_DOMAIN);
    assert_eq!(input[1..], packed[..]);
    assert_eq!(packed[1], 2);
    assert_eq!(packed[16], 1 << (N - 1 - 16 * BITS_PER_ELEMENT));
}

#[test]
fn a_commitment_is_32_bytes() {
    let commitment = Commitment::<1, 2>::commit([7, 8]);
    let bytes: Vec<u8> = commitment.0.iter().flat_map(|w| w.to_le_bytes()).collect();
    assert_eq!(bytes.len(), 32);
}
