use pool_oprf::delta_ot::{
    bit, choice_from_bits, delta_ot_receiver_output, delta_ot_sender_blocks, derive_ot_block,
    required_binary_ot_count, select_and_derive_ot_block,
};
use pool_oprf::packing::{decode_row, encode_row, pack, unpack, PackingError};
use pool_oprf::params::{Zdelta, Zq, DELTA, LOG_DELTA, N, Q};
use pool_oprf::preprocessing::{
    decode_tau, derive_r, encode_tau, evaluations_for, tau_for, Block, PreprocError, Slots,
};
use rand::RngExt;

fn binary_ot_pairs() -> [[Block; 2]; LOG_DELTA] {
    std::array::from_fn(|i| [[(i * 2) as u8; 16], [(i * 2 + 1) as u8; 16]])
}

#[test]
fn derive_r_deterministic_and_in_range() {
    let seed: Block = [7u8; 16];
    for j in 0..1000 {
        let r = derive_r(&seed, j)[0];
        assert_eq!(r, derive_r(&seed, j)[0]);
        assert!(r < Q);
    }
}

#[test]
fn derive_r_differs_across_slots_and_seeds() {
    let seed_a: Block = [1u8; 16];
    let seed_b: Block = [2u8; 16];
    assert_ne!(derive_r(&seed_a, 0), derive_r(&seed_a, 1), "a later slot gives different masks");
    assert_ne!(derive_r(&seed_a, 0), derive_r(&seed_b, 0), "a different seed gives different masks");
}

/// The masks of consecutive slots come from one stream: slot `j + 1`'s first
/// mask is slot `j`'s second.
#[test]
fn derive_r_of_the_next_slot_shifts_by_one() {
    let seed: Block = [9u8; 16];
    let a = derive_r(&seed, 5);
    let b = derive_r(&seed, 6);
    assert_eq!(a[1..], b[..15]);
}

#[test]
fn slots_exhaust_after_tau() {
    let tau = 4;
    let mut slots = Slots::new(tau);
    assert_eq!(slots.remaining(), tau);
    for taken in 0..tau {
        assert_eq!(slots.take(1), Some(taken as u64), "slots come out in order");
        assert_eq!(slots.remaining(), tau - 1 - taken);
    }
    assert_eq!(slots.take(1), None);
    assert_eq!(slots.take(1), None);
    assert_eq!(slots.remaining(), 0);
}

#[test]
fn a_request_that_does_not_fit_spends_nothing() {
    let mut slots = Slots::new(4);
    assert_eq!(slots.take(3), Some(0));
    assert_eq!(slots.take(3), None, "only one slot left");
    assert_eq!(slots.remaining(), 1, "the refusal spent nothing");
}

#[test]
fn tau_counts_sixteen_slots_per_evaluation() {
    assert_eq!(tau_for(1), 16);
    assert_eq!(tau_for(3), 48);
    assert_eq!(evaluations_for(48), 3);
    assert_eq!(evaluations_for(47), 2);
    assert_eq!(evaluations_for(0), 0);
}

#[test]
fn tau_round_trips_through_its_bytes() {
    let bytes = encode_tau(0x0102_0304);
    assert_eq!(bytes, [4, 3, 2, 1, 0, 0, 0, 0]);
    assert!(matches!(decode_tau(&bytes), Ok(0x0102_0304)));
    assert!(matches!(decode_tau(&bytes[..7]), Err(PreprocError::Malformed(_))));
}

#[test]
fn choice_bits_round_trip() {
    for choice in 0..DELTA as Zdelta {
        let bits: [u8; LOG_DELTA] = std::array::from_fn(|i| bit(choice, i));
        assert_eq!(choice_from_bits(&bits), choice);
    }
}

#[test]
fn choice_is_in_the_hash() {
    let pairs = binary_ot_pairs();
    let blocks: [Block; LOG_DELTA] = std::array::from_fn(|i| pairs[i][0]);
    let baseline = derive_ot_block(&blocks, 0);
    for choice in 1..DELTA as Zdelta {
        assert_ne!(baseline, derive_ot_block(&blocks, choice), "choices 0 and {choice} derive the same block");
    }
}

#[test]
fn different_choices_produce_different_blocks() {
    let pairs = binary_ot_pairs();
    let blocks: Vec<Block> =
        (0..DELTA as Zdelta).map(|choice| select_and_derive_ot_block(&pairs, choice)).collect();
    for i in 0..DELTA {
        for j in (i + 1)..DELTA {
            assert_ne!(blocks[i], blocks[j], "blocks {i} and {j} should differ");
        }
    }
}

/// The receiver's block at its choice is the sender's candidate there, for
/// binary OT outputs that agree the way a random OT makes them agree.
#[test]
fn sender_and_receiver_blocks_agree() {
    const COUNT: usize = 3;
    let binary = required_binary_ot_count(COUNT);
    assert_eq!(binary, 128);
    let mut rng = rand::rng();
    let pairs: Vec<[Block; 2]> = (0..binary).map(|_| [rng.random(), rng.random()]).collect();
    let bits: Vec<u8> = (0..binary).map(|_| rng.random_range(0..2u8)).collect();
    let received: Vec<Block> = (0..binary).map(|t| pairs[t][bits[t] as usize]).collect();

    let sent = delta_ot_sender_blocks(&pairs, COUNT);
    let (blocks, choices) = delta_ot_receiver_output(&received, &bits, COUNT);
    assert_eq!(sent.len(), COUNT);
    assert_eq!(blocks.len(), COUNT);
    for j in 0..COUNT {
        let choice = choices[j] as usize;
        assert!(choice < DELTA);
        assert_eq!(sent[j][choice], blocks[j]);
    }
}

#[test]
fn binary_ot_counts_round_up_to_the_base_count() {
    assert_eq!(required_binary_ot_count(1), 128);
    assert_eq!(required_binary_ot_count(32), 128);
    assert_eq!(required_binary_ot_count(33), 256);
}

fn a_row() -> Vec<Zq> {
    let mut rng = rand::rng();
    (0..N).map(|_| rng.random_range(0..Q)).collect()
}

#[test]
fn round_trips_a_full_row() {
    let values = a_row();
    assert_eq!(unpack(&pack(&values), N).unwrap(), values);
}

#[test]
fn round_trips_the_boundary_values() {
    let values: [Zq; 6] = [0, Q - 1, 1, Q - 2, 0, Q - 1];
    assert_eq!(unpack(&pack(&values), 6).unwrap(), values.to_vec());
}

#[test]
fn round_trips_counts_that_end_mid_byte() {
    for len in 0..=8usize {
        let values: Vec<Zq> = (0..len).map(|i| (i as Zq * 37) % Q).collect();
        assert_eq!(unpack(&pack(&values), len).unwrap(), values, "count {len}");
    }
}

#[test]
fn rejects_a_count_the_bytes_cannot_fill() {
    assert!(unpack(&pack(&[0, 0, 0]), 100).is_none());
}

#[test]
fn packing_writes_twelve_bits_per_element_lowest_first() {
    assert_eq!(pack(&[0xABC, 0x123]), vec![0xBC, 0x3A, 0x12]);
    assert_eq!(pack(&[0xFFF]), vec![0xFF, 0x0F]);
}

#[test]
fn deserialize_rejects_bytes_short_of_the_count() {
    let forged = pack(&[3, 42]);
    assert!(matches!(decode_row(N as u64, &forged), Err(PackingError::Short)));
}

#[test]
fn deserialize_rejects_a_count_that_is_not_the_row_length() {
    let row = a_row();
    let short: Vec<Zq> = row[..N - 1].to_vec();
    let bytes = pack(&short);
    assert!(matches!(
        decode_row(short.len() as u64, &bytes),
        Err(PackingError::WrongCount { count }) if count == (N - 1) as u64
    ));
}

#[test]
fn a_row_round_trips_through_its_wire_form() {
    let row = a_row();
    let (count, bytes) = encode_row(&row);
    assert_eq!(count, N as u64);
    assert_eq!(decode_row(count, &bytes).unwrap(), row);
}

use pool_oprf::online::{blind_eval, finalize, request};
use pool_oprf::params::{log2, DELTA_ZQ, H_ROWS, LOG_P, LOG_Q, P, ZP_MAX};
use pool_oprf::preprocessing::{
    check_tau, check_tau_agreement, client_check_echo, client_hello, client_state, parse_hello,
    server_state, BINARY_OT_COUNT, HELLO_BYTES,
};
use pool_oprf::prf::{evaluate, SecretKey};

#[test]
fn parameters_fit_together() {
    assert_eq!(Q, 1 << LOG_Q);
    assert_eq!(P, 1 << LOG_P);
    assert_eq!(DELTA_ZQ, Q / P);
    assert_eq!(DELTA, 1 << LOG_DELTA);
    assert_eq!(ZP_MAX as Zq, P - 1);
    assert!((N as u64) * (Q as u64 - 1) <= u32::MAX as u64);
    assert_eq!(BINARY_OT_COUNT, N.next_multiple_of(128));
}

#[test]
fn the_opening_messages_carry_uid_and_tau() {
    let uid = [3u8; 16];
    assert!(matches!(client_hello(&uid, 0), Err(PreprocError::ZeroTau)));
    assert!(matches!(check_tau(0), Err(PreprocError::ZeroTau)));
    let hello = client_hello(&uid, 48).unwrap();
    assert_eq!(hello.len(), HELLO_BYTES);
    assert_eq!(hello[..16], uid);
    assert_eq!(hello[16..], encode_tau(48));
    let (got_uid, tau) = parse_hello(&hello).unwrap();
    assert_eq!(got_uid, uid);
    assert_eq!(tau, 48);
    assert!(matches!(parse_hello(&hello[..23].to_vec()), Err(PreprocError::Malformed(_))));
}

#[test]
fn preprocessing_refuses_a_tau_mismatch() {
    assert!(client_check_echo(48, &encode_tau(48).to_vec()).is_ok());
    assert!(matches!(
        client_check_echo(48, &encode_tau(32).to_vec()),
        Err(PreprocError::TauMismatch { ours: 48, theirs: 32 })
    ));
    assert!(matches!(client_check_echo(48, &vec![0u8; 7]), Err(PreprocError::Malformed(_))));
    assert!(matches!(check_tau_agreement(16, 32), Err(PreprocError::TauMismatch { ours: 16, theirs: 32 })));
}

/// Both sides' states from random OTs that agree the way OTs do, and an
/// evaluation through them: the client learns the PRF's value.
#[test]
fn states_from_agreeing_ots_evaluate_the_prf() {
    let mut rng = rand::rng();
    let sk = SecretKey::random();
    let uid = [5u8; 16];
    let tau = 2 * H_ROWS;

    // N binary rOTs, the client sending.
    let pairs: Vec<[Block; 2]> = (0..BINARY_OT_COUNT).map(|_| [rng.random(), rng.random()]).collect();
    let choices: Vec<u8> = (0..BINARY_OT_COUNT).map(|_| rng.random_range(0..2u8)).collect();
    let seeds: Vec<Block> = (0..BINARY_OT_COUNT).map(|i| pairs[i][choices[i] as usize]).collect();

    // tau DELTA-choose-1 rOTs, the server sending.
    let binary = required_binary_ot_count(tau);
    let delta_pairs: Vec<[Block; 2]> = (0..binary).map(|_| [rng.random(), rng.random()]).collect();
    let bits: Vec<u8> = (0..binary).map(|_| rng.random_range(0..2u8)).collect();
    let received: Vec<Block> = (0..binary).map(|t| delta_pairs[t][bits[t] as usize]).collect();
    let sender_blocks = delta_ot_sender_blocks(&delta_pairs, tau);
    let (delta_blocks, delta_choices) = delta_ot_receiver_output(&received, &bits, tau);

    let (mut server, bhat) = server_state(&seeds, &choices, &sender_blocks, &sk, &uid);
    for i in 0..N {
        assert_eq!(bhat[i], choices[i] ^ sk.as_bits()[i]);
    }
    let mut client = client_state(&pairs, &delta_blocks, &delta_choices, &bhat, &uid).unwrap();
    assert_eq!(client.remaining_slots(), tau);
    assert_eq!(server.remaining_slots(), tau);

    for x in [b"first".as_slice(), b"second".as_slice()] {
        let (msg, fin) = request(&mut client, b"tag", x).unwrap_or_else(|_| panic!("request"));
        let resp = blind_eval(&mut server, &sk, &msg).unwrap();
        assert_eq!(finalize(&fin, &resp).unwrap(), evaluate(&sk, b"tag", x));
    }
}

#[test]
fn the_client_refuses_masked_bits_that_are_not_bits() {
    let pairs: Vec<[Block; 2]> = vec![[[0u8; 16], [1u8; 16]]; N];
    let short = vec![0u8; N - 1];
    assert!(matches!(client_state(&pairs, &vec![], &vec![], &short, &[0u8; 16]), Err(PreprocError::Malformed(_))));
    let mut not_bits = vec![0u8; N];
    not_bits[3] = 2;
    assert!(matches!(client_state(&pairs, &vec![], &vec![], &not_bits, &[0u8; 16]), Err(PreprocError::Malformed(_))));
}

#[test]
fn log2_of_the_moduli() {
    assert_eq!(log2(Q), LOG_Q);
    assert_eq!(log2(P), LOG_P);
    assert_eq!(log2(DELTA_ZQ), LOG_DELTA as u32);
    assert_eq!(log2(1), 0);
    assert_eq!(log2(1 << 15), 15);
}

#[test]
fn an_echo_of_another_tau_names_both() {
    match client_check_echo(32, &encode_tau(48).to_vec()) {
        Err(PreprocError::TauMismatch { ours, theirs }) => {
            assert_eq!(ours, 32);
            assert_eq!(theirs, 48);
        }
        other => panic!("expected TauMismatch, got {other:?}"),
    }
}

#[test]
fn preprocessing_names_why_a_message_is_malformed() {
    assert!(matches!(decode_tau(&[1u8; 9]), Err(PreprocError::Malformed("tau has wrong length"))));
    assert!(matches!(
        client_check_echo(48, &vec![0u8; 7]),
        Err(PreprocError::Malformed("tau has wrong length"))
    ));
    assert!(matches!(parse_hello(&vec![0u8; HELLO_BYTES + 1]), Err(PreprocError::Malformed("hello has wrong length"))));
    let pairs: Vec<[Block; 2]> = vec![[[0u8; 16], [1u8; 16]]; N];
    let long = vec![0u8; N + 1];
    assert!(matches!(
        client_state(&pairs, &vec![], &vec![], &long, &[0u8; 16]),
        Err(PreprocError::Malformed("b_hat has wrong length"))
    ));
    let mut not_bits = vec![1u8; N];
    not_bits[N - 1] = 255;
    assert!(matches!(
        client_state(&pairs, &vec![], &vec![], &not_bits, &[0u8; 16]),
        Err(PreprocError::Malformed("b_hat entries must be bits"))
    ));
}
