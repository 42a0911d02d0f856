use pool_oprf::modular::{reduce_p, sub_delta};
use pool_oprf::online::{
    blind_eval, finalize, finalize_batch, request, request_batch, BlindEvalError, FinalizeError,
    RequestError, MAX_BATCH_EVALUATIONS, MAX_TAG_LEN,
};
use pool_oprf::params::{Zdelta, Zp, ZpAccum, DELTA, H_ROWS, LAMBDA_BYTES, N, Q};
use pool_oprf::preprocessing::{tau_for, Block, ClientState, RcEntry, RsEntry, ServerState};
use pool_oprf::prf::{evaluate, SecretKey};

const TAG: &[u8] = b"tag-1";

/// The error of a call that must fail. The finalize state has no `Debug`, so
/// `unwrap_err` is not available on a request's result.
fn refused<T, E>(r: Result<T, E>) -> E {
    match r {
        Ok(_) => panic!("expected an error"),
        Err(e) => e,
    }
}

fn seed(label: u64) -> Block {
    let mut bytes = [0u8; 16];
    bytes[..8].copy_from_slice(&label.to_le_bytes());
    bytes
}

fn test_client_state(tau: usize) -> ClientState {
    let r_seeds: Vec<[Block; 2]> = (0..N as u64).map(|i| [seed(2 * i), seed(2 * i + 1)]).collect();
    let bhat: Vec<u8> = (0..N).map(|i| (i % 2) as u8).collect();
    let r_c: Vec<RcEntry> = (0..tau)
        .map(|j| RcEntry { b_prime: (j % DELTA) as Zdelta, r_prime: reduce_p(j as ZpAccum) })
        .collect();
    ClientState::new(r_seeds, bhat, r_c, [7u8; LAMBDA_BYTES])
}

/// A client/server state pair as preprocessing would leave it.
fn matched_states(sk: &SecretKey, tau: usize) -> (ClientState, ServerState) {
    let uid = [9u8; LAMBDA_BYTES];
    let mut r_seeds = Vec::with_capacity(N);
    let mut r_s = Vec::with_capacity(N);
    let mut bhat = Vec::with_capacity(N);
    for i in 0..N {
        let pair = [seed(2 * i as u64), seed(2 * i as u64 + 1)];
        let b = u8::from(i % 3 == 0);
        r_seeds.push(pair);
        r_s.push(RsEntry { b, r_seed: pair[b as usize] });
        bhat.push(b ^ sk.as_bits()[i]);
    }
    let mut r_c = Vec::with_capacity(tau);
    let mut s_s = Vec::with_capacity(tau);
    for j in 0..tau {
        let mut pads = [0 as Zp; DELTA];
        for (d, pad) in pads.iter_mut().enumerate() {
            *pad = reduce_p((17 * j + 5 * d + 1) as ZpAccum);
        }
        let b_prime = (7 * j + 3) % DELTA;
        r_c.push(RcEntry { b_prime: b_prime as Zdelta, r_prime: pads[b_prime] });
        s_s.push(pads);
    }
    (ClientState::new(r_seeds, bhat, r_c, uid), ServerState::new(r_s, s_s, uid))
}

#[test]
fn request_spends_one_evaluation_and_is_well_formed() {
    let mut state = test_client_state(tau_for(3));
    let before = state.remaining_slots();
    let (msg, fin) = request(&mut state, TAG, b"input").unwrap();
    assert_eq!(state.remaining_slots(), before - tau_for(1));
    assert_eq!(msg.rows.len(), H_ROWS);
    assert_eq!(fin.rows.len(), H_ROWS);
    assert_eq!(msg.uid, fin.uid);
    assert_eq!(msg.tag, TAG);
    for row in &msg.rows {
        assert!(row.e.iter().all(|&e| e < Q));
        assert!((row.b_bar_prime as usize) < DELTA);
    }
}

#[test]
fn request_errs_when_exhausted_without_consuming() {
    let needed_slots = tau_for(1);
    let have_slots = needed_slots - 1;
    let mut state = test_client_state(have_slots);
    let err = refused(request(&mut state, TAG, b"input"));
    let RequestError::Exhausted { needed, have } = err else {
        panic!("expected Exhausted, got {err:?}");
    };
    assert_eq!(needed, needed_slots);
    assert_eq!(have, have_slots);
    assert_eq!(state.remaining_slots(), have_slots);
}

#[test]
fn request_rejects_oversized_tag_without_consuming() {
    let mut state = test_client_state(tau_for(1));
    let tag = vec![0u8; MAX_TAG_LEN + 1];
    let err = refused(request(&mut state, &tag, b"input"));
    assert!(matches!(err, RequestError::TagTooLong { len } if len == MAX_TAG_LEN + 1));
    assert_eq!(state.remaining_slots(), tau_for(1));
}

#[test]
fn request_is_deterministic() {
    let mut s1 = test_client_state(tau_for(1));
    let mut s2 = test_client_state(tau_for(1));
    let (m1, _) = request(&mut s1, TAG, b"same").unwrap();
    let (m2, _) = request(&mut s2, TAG, b"same").unwrap();
    for (r1, r2) in m1.rows.iter().zip(&m2.rows) {
        assert_eq!(r1.e, r2.e);
        assert_eq!(r1.b_bar_prime, r2.b_bar_prime);
    }
}

#[test]
fn request_blind_eval_finalize_matches_prf() {
    let sk = SecretKey::random();
    let (mut client_state, mut server_state) = matched_states(&sk, tau_for(1));
    let x = b"correctness";
    let (msg, fin) = request(&mut client_state, TAG, x).unwrap();
    let resp = blind_eval(&mut server_state, &sk, &msg).unwrap();
    let z = finalize(&fin, &resp).unwrap();
    assert_eq!(z, evaluate(&sk, TAG, x));
}

#[test]
fn consecutive_evaluations_match_prf() {
    let sk = SecretKey::random();
    let (mut client_state, mut server_state) = matched_states(&sk, tau_for(2));
    for x in [b"first".as_slice(), b"second".as_slice()] {
        let (msg, fin) = request(&mut client_state, TAG, x).unwrap();
        let resp = blind_eval(&mut server_state, &sk, &msg).unwrap();
        assert_eq!(finalize(&fin, &resp).unwrap(), evaluate(&sk, TAG, x), "{x:?}");
    }
    assert_eq!(client_state.remaining_slots(), 0);
    assert_eq!(server_state.remaining_slots(), 0);
}

#[test]
fn batch_matches_the_same_inputs_one_at_a_time() {
    let sk = SecretKey::random();
    let inputs: [&[u8]; 3] = [b"alice", b"bob", b"alice"];
    let (mut batch_client, mut batch_server) = matched_states(&sk, tau_for(3));
    let (msg, fin) = request_batch(&mut batch_client, TAG, &inputs).unwrap();
    assert_eq!(msg.evaluations(), 3);
    let resp = blind_eval(&mut batch_server, &sk, &msg).unwrap();
    assert_eq!(resp.evaluations(), 3);
    let batched = finalize_batch(&fin, &resp).unwrap();

    let (mut one_client, mut one_server) = matched_states(&sk, tau_for(3));
    let singly: Vec<_> = inputs
        .iter()
        .map(|x| {
            let (msg, fin) = request(&mut one_client, TAG, x).unwrap();
            let resp = blind_eval(&mut one_server, &sk, &msg).unwrap();
            finalize(&fin, &resp).unwrap()
        })
        .collect();
    assert_eq!(batched, singly);
    for (x, out) in inputs.iter().zip(&batched) {
        assert_eq!(*out, evaluate(&sk, TAG, x), "input {x:?}");
    }
    assert_eq!(batched[0], batched[2]);
    assert_eq!(batch_client.remaining_slots(), 0);
    assert_eq!(batch_server.remaining_slots(), 0);
}

#[test]
fn request_batch_consumes_slots_per_input() {
    let mut state = test_client_state(tau_for(4));
    let inputs: [&[u8]; 3] = [b"a", b"b", b"c"];
    let (msg, fin) = request_batch(&mut state, TAG, &inputs).unwrap();
    assert_eq!(msg.rows.len(), 3 * H_ROWS);
    assert_eq!(fin.rows.len(), 3 * H_ROWS);
    assert_eq!(state.remaining_slots(), tau_for(1));
}

#[test]
fn request_batch_rejects_bad_batch_sizes_without_consuming() {
    let mut state = test_client_state(tau_for(2));
    let empty: [&[u8]; 0] = [];
    assert!(matches!(refused(request_batch(&mut state, TAG, &empty)), RequestError::EmptyBatch));
    let huge = vec![b"x".as_slice(); MAX_BATCH_EVALUATIONS + 1];
    assert!(matches!(
        refused(request_batch(&mut state, TAG, &huge)),
        RequestError::BatchTooLarge { len } if len == MAX_BATCH_EVALUATIONS + 1
    ));
    let three: [&[u8]; 3] = [b"a", b"b", b"c"];
    assert!(matches!(
        refused(request_batch(&mut state, TAG, &three)),
        RequestError::Exhausted { needed, have } if needed == tau_for(3) && have == tau_for(2)
    ));
    assert_eq!(state.remaining_slots(), tau_for(2));
}

#[test]
fn blind_eval_rejects_a_partial_evaluation() {
    let sk = SecretKey::random();
    let (mut client_state, mut server_state) = matched_states(&sk, tau_for(2));
    let two: [&[u8]; 2] = [b"a", b"b"];
    let (good, _) = request_batch(&mut client_state, TAG, &two).unwrap();
    let mut partial = good.clone();
    partial.rows.truncate(H_ROWS + 1);
    let err = blind_eval(&mut server_state, &sk, &partial).unwrap_err();
    assert!(matches!(err, BlindEvalError::Malformed(_)), "{err:?}");
    assert_eq!(server_state.remaining_slots(), tau_for(2));
}

#[test]
fn finalize_rejects_a_batch_state() {
    let sk = SecretKey::random();
    let (mut client_state, mut server_state) = matched_states(&sk, tau_for(2));
    let two: [&[u8]; 2] = [b"a", b"b"];
    let (msg, fin) = request_batch(&mut client_state, TAG, &two).unwrap();
    let resp = blind_eval(&mut server_state, &sk, &msg).unwrap();
    let err = finalize(&fin, &resp).unwrap_err();
    assert!(matches!(err, FinalizeError::NotSingle { len: 2 }), "{err:?}");
    assert_eq!(finalize_batch(&fin, &resp).unwrap().len(), 2);
}

#[test]
fn each_tag_gives_its_own_prf() {
    let sk = SecretKey::random();
    let (mut client_state, mut server_state) = matched_states(&sk, tau_for(3));
    let x = b"same input";
    let mut outputs = Vec::new();
    for tag in [b"".as_slice(), b"tag-1".as_slice(), b"tag-2".as_slice()] {
        let (msg, fin) = request(&mut client_state, tag, x).unwrap();
        assert_eq!(msg.tag, tag);
        let resp = blind_eval(&mut server_state, &sk, &msg).unwrap();
        let z = finalize(&fin, &resp).unwrap();
        assert_eq!(z, evaluate(&sk, tag, x), "tag {tag:?}");
        outputs.push(z);
    }
    assert_ne!(outputs[0], outputs[1]);
    assert_ne!(outputs[1], outputs[2]);
    assert_ne!(outputs[0], outputs[2]);
}

#[test]
fn finalize_needs_the_pad_rotation() {
    let sk = SecretKey::random();
    let (mut client_state, mut server_state) = matched_states(&sk, tau_for(1));
    let (mut msg, fin) = request(&mut client_state, TAG, b"rotation").unwrap();
    for row in &mut msg.rows {
        row.b_bar_prime = sub_delta(row.b_bar_prime, 1);
    }
    let resp = blind_eval(&mut server_state, &sk, &msg).unwrap();
    assert_ne!(finalize(&fin, &resp).unwrap(), evaluate(&sk, TAG, b"rotation"));
}

#[test]
fn finalize_needs_the_delta_ot_pad() {
    let sk = SecretKey::random();
    let (mut client_state, mut server_state) = matched_states(&sk, tau_for(1));
    let (msg, mut fin) = request(&mut client_state, TAG, b"pads").unwrap();
    let resp = blind_eval(&mut server_state, &sk, &msg).unwrap();
    for row in &mut fin.rows {
        row.r_prime = 0;
    }
    assert_ne!(finalize(&fin, &resp).unwrap(), evaluate(&sk, TAG, b"pads"));
}

#[test]
fn finalize_rejects_other_session() {
    let sk = SecretKey::random();
    let (mut client_state, mut server_state) = matched_states(&sk, tau_for(1));
    let (msg, fin) = request(&mut client_state, TAG, b"input").unwrap();
    let mut resp = blind_eval(&mut server_state, &sk, &msg).unwrap();
    resp.uid = [0xffu8; LAMBDA_BYTES];
    let err = finalize(&fin, &resp).unwrap_err();
    assert!(matches!(err, FinalizeError::SessionMismatch { .. }), "{err:?}");
}

#[test]
fn finalize_rejects_counter_drift() {
    let sk = SecretKey::random();
    let (mut client_state, mut server_state) = matched_states(&sk, tau_for(1));
    let (msg, fin) = request(&mut client_state, TAG, b"input").unwrap();
    let mut resp = blind_eval(&mut server_state, &sk, &msg).unwrap();
    resp.rows[0].ctr += 1;
    let err = finalize(&fin, &resp).unwrap_err();
    assert!(
        matches!(err, FinalizeError::CounterMismatch { row, want, got } if row == 0 && want == 0 && got == 1),
        "{err:?}"
    );
}

#[test]
fn finalize_rejects_truncated_response() {
    let sk = SecretKey::random();
    let (mut client_state, mut server_state) = matched_states(&sk, tau_for(1));
    let (msg, fin) = request(&mut client_state, TAG, b"input").unwrap();
    let mut resp = blind_eval(&mut server_state, &sk, &msg).unwrap();
    resp.rows.pop();
    let err = finalize(&fin, &resp).unwrap_err();
    assert!(matches!(err, FinalizeError::Malformed(_)), "{err:?}");
}

#[test]
fn blind_eval_consumes_h_rows() {
    let sk = SecretKey::random();
    let (mut client_state, mut server_state) = matched_states(&sk, tau_for(3));
    let before = server_state.remaining_slots();
    let (msg, _) = request(&mut client_state, TAG, b"input").unwrap();
    blind_eval(&mut server_state, &sk, &msg).unwrap();
    assert_eq!(server_state.remaining_slots(), before - tau_for(1));
}

#[test]
fn blind_eval_rejects_other_session_without_consuming() {
    let sk = SecretKey::random();
    let (mut client_state, mut server_state) = matched_states(&sk, tau_for(1));
    let (mut msg, _) = request(&mut client_state, TAG, b"input").unwrap();
    msg.uid = [0xffu8; LAMBDA_BYTES];
    let err = blind_eval(&mut server_state, &sk, &msg).unwrap_err();
    assert!(matches!(err, BlindEvalError::UnknownSession { .. }));
    assert_eq!(server_state.remaining_slots(), tau_for(1));
}

#[test]
fn blind_eval_rejects_malformed_request_without_consuming() {
    let sk = SecretKey::random();
    let (mut client_state, mut server_state) = matched_states(&sk, tau_for(1));
    let (good, _) = request(&mut client_state, TAG, b"input").unwrap();
    let mut short_row_count = good.clone();
    short_row_count.rows.pop();
    let mut bad_e = good.clone();
    bad_e.rows[0].e[0] = Q;
    let mut bad_correction = good.clone();
    bad_correction.rows[0].b_bar_prime = DELTA as Zdelta;
    let mut huge_tag = good.clone();
    huge_tag.tag = vec![0u8; MAX_TAG_LEN + 1];
    for bad in [short_row_count, bad_e, bad_correction, huge_tag] {
        let err = blind_eval(&mut server_state, &sk, &bad).unwrap_err();
        assert!(matches!(err, BlindEvalError::Malformed(_)), "{err:?}");
    }
    assert_eq!(server_state.remaining_slots(), tau_for(1));
}

#[test]
fn blind_eval_errs_when_exhausted() {
    let sk = SecretKey::random();
    let (mut client_state, mut server_state) = matched_states(&sk, tau_for(1));
    let (msg, _) = request(&mut client_state, TAG, b"first").unwrap();
    blind_eval(&mut server_state, &sk, &msg).unwrap();
    let err = blind_eval(&mut server_state, &sk, &msg).unwrap_err();
    assert!(matches!(err, BlindEvalError::Exhausted { needed, have } if needed == tau_for(1) && have == 0));
    assert_eq!(server_state.remaining_slots(), 0);
}

#[test]
fn blind_eval_names_why_a_request_is_malformed() {
    let sk = SecretKey::random();
    let (mut client_state, mut server_state) = matched_states(&sk, tau_for(1));
    let (good, _) = request(&mut client_state, TAG, b"input").unwrap();
    let mut short_row_count = good.clone();
    short_row_count.rows.pop();
    let mut no_rows = good.clone();
    no_rows.rows.clear();
    let mut bad_e = good.clone();
    bad_e.rows[3].e[7] = Q;
    let mut bad_correction = good.clone();
    bad_correction.rows[1].b_bar_prime = DELTA as Zdelta;
    let mut both = good.clone();
    both.rows[2].b_bar_prime = DELTA as Zdelta;
    both.rows[5].e[0] = Q + 1;
    let mut huge_tag = good.clone();
    huge_tag.tag = vec![0u8; MAX_TAG_LEN + 1];
    huge_tag.rows.pop();
    let cases = [
        (short_row_count, "row count is not a whole number of evaluations"),
        (no_rows, "row count is not a whole number of evaluations"),
        (bad_e, "e has an element outside Zq"),
        (bad_correction, "b_bar' is outside [0, DELTA)"),
        (both, "b_bar' is outside [0, DELTA)"),
        (huge_tag, "tag is longer than MAX_TAG_LEN"),
    ];
    for (bad, reason) in cases {
        match blind_eval(&mut server_state, &sk, &bad) {
            Err(BlindEvalError::Malformed(r)) => assert_eq!(r, reason),
            other => panic!("expected Malformed({reason:?}), got {other:?}"),
        }
    }
    assert_eq!(server_state.remaining_slots(), tau_for(1));
}

#[test]
fn finalize_names_a_wrong_row_count() {
    let sk = SecretKey::random();
    let (mut client_state, mut server_state) = matched_states(&sk, tau_for(1));
    let (msg, fin) = request(&mut client_state, TAG, b"input").unwrap();
    let mut resp = blind_eval(&mut server_state, &sk, &msg).unwrap();
    resp.rows.pop();
    assert!(matches!(finalize(&fin, &resp), Err(FinalizeError::Malformed("wrong number of rows"))));
    assert!(matches!(finalize_batch(&fin, &resp), Err(FinalizeError::Malformed("wrong number of rows"))));
}
