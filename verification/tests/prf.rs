use pool_oprf::hash::hash_to_zq_matrix;
use pool_oprf::params::{Zp, Zq, DELTA_ZQ, H_ROWS, N, OUTPUT_ELEMENTS, P, Q};
use pool_oprf::prf::{evaluate, evaluate_single_row, evaluate_with_matrix, SecretKey};
use pool_oprf::round::round_zq_to_zp;

#[test]
fn prf_deterministic() {
    let sk = SecretKey::random();
    let out1 = evaluate(&sk, b"tag", b"hello world");
    let out2 = evaluate(&sk, b"tag", b"hello world");
    assert_eq!(out1, out2);
}

#[test]
fn output_has_one_element_per_row() {
    let sk = SecretKey::random();
    let out = evaluate(&sk, b"tag", b"test");
    assert_eq!(out.elements().len(), H_ROWS);
}

#[test]
fn different_keys_different_outputs() {
    let sk1 = SecretKey::random();
    let sk2 = SecretKey::random();
    let out1 = evaluate(&sk1, b"tag", b"test");
    let out2 = evaluate(&sk2, b"tag", b"test");
    assert_ne!(out1, out2);
}

#[test]
fn different_inputs_different_outputs() {
    let sk = SecretKey::random();
    let out1 = evaluate(&sk, b"tag", b"input A");
    let out2 = evaluate(&sk, b"tag", b"input B");
    assert_ne!(out1, out2);
}

#[test]
fn different_tags_different_outputs() {
    let sk = SecretKey::random();
    let out1 = evaluate(&sk, b"2026-07", b"input");
    let out2 = evaluate(&sk, b"2026-08", b"input");
    assert_ne!(out1, out2);
}

#[test]
fn zero_key_gives_zero() {
    let sk = SecretKey::from_bits([0u8; N]).expect("bits");
    let out = evaluate(&sk, b"tag", b"anything");
    assert_eq!(out.elements(), &[0 as Zp; OUTPUT_ELEMENTS]);
}

#[test]
fn row_by_row_equals_full_evaluation() {
    let sk = SecretKey::random();
    let matrix = hash_to_zq_matrix(b"tag", b"consistency");
    let full = evaluate_with_matrix(&sk, &matrix);
    for row in 0..H_ROWS {
        assert_eq!(full.elements()[row], evaluate_single_row(&sk, matrix.row(row)));
    }
}

#[test]
fn rounding_boundaries() {
    const HALF: Zq = DELTA_ZQ / 2;
    for v in 0..=HALF {
        assert_eq!(round_zq_to_zp(v), 0, "v={v}");
    }
    for v in HALF + 1..=DELTA_ZQ + HALF {
        assert_eq!(round_zq_to_zp(v), 1, "v={v}");
    }
    assert_eq!(round_zq_to_zp(DELTA_ZQ + HALF + 1), 2);
    assert_eq!(round_zq_to_zp(Q - DELTA_ZQ + HALF), (P - 1) as Zp);
    for v in Q - HALF + 1..Q {
        assert_eq!(round_zq_to_zp(v), 0, "v={v}");
    }
}

#[test]
fn deterministic() {
    assert_eq!(
        hash_to_zq_matrix(b"tag", b"test input"),
        hash_to_zq_matrix(b"tag", b"test input"),
    );
}

#[test]
fn different_inputs_differ() {
    assert_ne!(
        hash_to_zq_matrix(b"tag", b"input A"),
        hash_to_zq_matrix(b"tag", b"input B"),
    );
}

#[test]
fn different_tags_differ() {
    assert_ne!(
        hash_to_zq_matrix(b"tag A", b"input"),
        hash_to_zq_matrix(b"tag B", b"input"),
    );
    assert_ne!(
        hash_to_zq_matrix(b"", b"input"),
        hash_to_zq_matrix(b"tag", b"input"),
    );
}

#[test]
fn tag_boundary_is_unambiguous() {
    assert_ne!(hash_to_zq_matrix(b"ab", b"c"), hash_to_zq_matrix(b"a", b"bc"));
}

#[test]
fn values_in_range() {
    let m = hash_to_zq_matrix(b"tag", b"range check");
    for row in 0..H_ROWS {
        for &elem in m.row(row).as_slice() {
            assert!(elem < Q, "element {elem} >= Q");
        }
    }
}

#[test]
fn rows_are_independent() {
    let m = hash_to_zq_matrix(b"tag", b"independence check");
    for i in 0..H_ROWS {
        for j in (i + 1)..H_ROWS {
            assert_ne!(m.row(i), m.row(j), "rows {i} and {j} are identical");
        }
    }
}

/// The zero key rounds every inner product of zero to zero, whatever the
/// tag; a key of one bit picks one column of each row.
#[test]
fn a_one_bit_key_picks_one_column() {
    let mut bits = [0u8; N];
    bits[7] = 1;
    let sk = SecretKey::from_bits(bits).expect("bits");
    let matrix = hash_to_zq_matrix(b"tag", b"one bit");
    let out = evaluate_with_matrix(&sk, &matrix);
    for row in 0..H_ROWS {
        let picked = matrix.row(row).as_slice()[7];
        assert_eq!(out.elements()[row], round_zq_to_zp(picked));
    }
    assert_eq!(out, evaluate(&sk, b"tag", b"one bit"));
}

#[test]
fn from_bits_refuses_a_byte_that_is_not_a_bit() {
    let mut bits = [0u8; N];
    bits[N - 1] = 2;
    assert!(SecretKey::from_bits(bits).is_none());
    bits[N - 1] = 1;
    let sk = SecretKey::from_bits(bits).expect("bits");
    assert_eq!(sk.as_bits(), &bits);
}

#[test]
fn random_bytes_keep_their_lowest_bit() {
    let mut bytes = [0u8; N];
    for (i, b) in bytes.iter_mut().enumerate() {
        *b = i as u8;
    }
    let sk = SecretKey::from_random_bytes(bytes);
    for i in 0..N {
        assert_eq!(sk.as_bits()[i], (i as u8) & 1);
    }
}

#[test]
fn an_output_from_its_elements_gives_them_back() {
    let elements: [Zp; OUTPUT_ELEMENTS] = std::array::from_fn(|i| i as Zp * 3);
    let out = pool_oprf::prf::PrfOutput::from(elements);
    assert_eq!(out.elements(), &elements);
}
