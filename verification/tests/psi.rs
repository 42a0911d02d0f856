use pool_oprf::set_file::entry;
use pool_oprf::online::MAX_BATCH_EVALUATIONS;
use pool_oprf::prf::{evaluate, PrfOutput, SecretKey};
use pool_oprf::psi::{
    check_announced_set_size, check_client_set_size, check_server_set_len, check_set_len,
    chunks_for, intersect, mask_server_set, sort_and_dedup, PsiError, PsiServer, MAX_CLIENT_SET, MAX_SERVER_SET,
};
use pool_oprf::server::OprfServer;

const TAG: &[u8] = b"tag-1";

fn key() -> SecretKey {
    SecretKey::random()
}

#[test]
fn intersect_finds_exactly_the_common_elements() {
    let sk = key();
    let client: [&[u8]; 4] = [b"alice", b"bob", b"carol", b"dave"];
    let server: [&[u8]; 3] = [b"bob", b"dave", b"erin"];
    let masked = mask_server_set(&sk, TAG, &server);
    let outputs: Vec<PrfOutput> = client.iter().map(|x| evaluate(&sk, TAG, x)).collect();
    assert_eq!(intersect(&outputs, &masked), vec![1, 3]);
}

#[test]
fn protocol_disjoint_sets_intersect_to_nothing() {
    let sk = key();
    let client: [&[u8]; 2] = [b"alice", b"carol"];
    let server: [&[u8]; 2] = [b"bob", b"dave"];
    let masked = mask_server_set(&sk, TAG, &server);
    let outputs: Vec<PrfOutput> = client.iter().map(|x| evaluate(&sk, TAG, x)).collect();
    assert!(intersect(&outputs, &masked).is_empty());
}

#[test]
fn a_different_tag_matches_nothing() {
    let sk = key();
    let set: [&[u8]; 3] = [b"alice", b"bob", b"carol"];
    let masked = mask_server_set(&sk, b"tag-1", &set);
    let outputs: Vec<PrfOutput> = set.iter().map(|x| evaluate(&sk, b"tag-2", x)).collect();
    assert!(intersect(&outputs, &masked).is_empty());
}

#[test]
fn a_different_key_matches_nothing() {
    let set: [&[u8]; 3] = [b"alice", b"bob", b"carol"];
    let masked = mask_server_set(&key(), TAG, &set);
    let other = key();
    let outputs: Vec<PrfOutput> = set.iter().map(|x| evaluate(&other, TAG, x)).collect();
    assert!(intersect(&outputs, &masked).is_empty());
}

#[test]
fn masking_sorts_and_deduplicates() {
    let sk = key();
    let with_repeats: [&[u8]; 5] = [b"bob", b"alice", b"bob", b"carol", b"alice"];
    let masked = mask_server_set(&sk, TAG, &with_repeats);
    assert_eq!(masked.len(), 3, "repeats must collapse");
    assert!(masked.is_sorted_by(|a, b| a < b), "must be sorted and deduplicated");
}

#[test]
fn client_duplicates_are_reported_separately() {
    let sk = key();
    let client: [&[u8]; 3] = [b"bob", b"alice", b"bob"];
    let server: [&[u8]; 1] = [b"bob"];
    let masked = mask_server_set(&sk, TAG, &server);
    let outputs: Vec<PrfOutput> = client.iter().map(|x| evaluate(&sk, TAG, x)).collect();
    assert_eq!(intersect(&outputs, &masked), vec![0, 2]);
}

#[test]
fn sizing_matches_the_oprf_batching() {
    assert_eq!(chunks_for(1), 1);
    assert_eq!(chunks_for(MAX_BATCH_EVALUATIONS), 1);
    assert_eq!(chunks_for(MAX_BATCH_EVALUATIONS + 1), 2);
    assert_eq!(chunks_for(2 * MAX_BATCH_EVALUATIONS), 2);
}

#[test]
fn an_empty_set_has_no_chunks_and_masks_to_nothing() {
    assert_eq!(chunks_for(0), 0);
    let empty: [&[u8]; 0] = [];
    assert!(mask_server_set(&key(), TAG, &empty).is_empty());
    assert!(intersect(&[], &[[0u8; 16]]).is_empty());
}

#[test]
fn the_server_masks_with_its_own_key() {
    let sk = key();
    let bits = *sk.as_bits();
    let server = PsiServer::new(sk);
    let set: [&[u8]; 2] = [b"x", b"y"];
    let same = SecretKey::from_bits(bits).expect("bits");
    assert_eq!(server.mask(TAG, &set), mask_server_set(&same, TAG, &set));
    assert_eq!(server.key().as_bits(), &bits);
    assert_eq!(server.oprf().key().as_bits(), &bits);
    let oprf = OprfServer::new(SecretKey::from_bits(bits).expect("bits"));
    assert_eq!(oprf.key().as_bits(), &bits);
}

#[test]
fn impossible_set_sizes_are_rejected() {
    assert!(matches!(check_client_set_size(0), Err(PsiError::EmptyClientSet)));
    assert!(matches!(
        check_client_set_size(MAX_CLIENT_SET + 1),
        Err(PsiError::ClientSetTooLarge { len, max }) if len == MAX_CLIENT_SET + 1 && max == MAX_CLIENT_SET
    ));
    assert!(check_client_set_size(1).is_ok());
    assert!(check_client_set_size(MAX_CLIENT_SET).is_ok());
}

#[test]
fn the_server_reads_an_announced_size() {
    assert!(matches!(check_announced_set_size(0), Err(PsiError::Malformed(_))));
    assert!(matches!(
        check_announced_set_size(MAX_CLIENT_SET as u64 + 1),
        Err(PsiError::ClientSetTooLarge { .. })
    ));
    assert_eq!(check_announced_set_size(5), Ok(5));
    assert!(matches!(check_set_len(3, 4), Err(PsiError::SetSizeMismatch { expected: 3, got: 4 })));
    assert!(check_set_len(4, 4).is_ok());
    assert!(check_server_set_len(MAX_SERVER_SET).is_ok());
    assert!(matches!(
        check_server_set_len(MAX_SERVER_SET + 1),
        Err(PsiError::ServerSetTooLarge { .. })
    ));
}

#[test]
fn a_line_gives_its_trimmed_entry_unless_blank_or_a_comment() {
    assert_eq!(entry("  alice \t"), Some("alice"));
    assert_eq!(entry("bob"), Some("bob"));
    assert_eq!(entry("   "), None);
    assert_eq!(entry(""), None);
    assert_eq!(entry("  # a comment"), None);
    assert_eq!(entry("carol # not a comment"), Some("carol # not a comment"));
}

/// A server built with a key masks exactly as `mask_server_set` does with
/// that key, whatever order or repeats the set comes in.
#[test]
fn the_masked_set_depends_only_on_the_set() {
    let sk = key();
    let bits = *sk.as_bits();
    let server = PsiServer::new(sk);
    let a: [&[u8]; 4] = [b"carol", b"alice", b"bob", b"alice"];
    let b: [&[u8]; 3] = [b"bob", b"carol", b"alice"];
    let same = SecretKey::from_bits(bits).expect("bits");
    assert_eq!(server.mask(TAG, &a), mask_server_set(&same, TAG, &b));
}

#[test]
fn entry_trims_unicode_whitespace() {
    assert_eq!(entry("\u{3000}dave\u{a0}\u{2029}"), Some("dave"));
    assert_eq!(entry("\u{85}\u{1680}\u{200a}"), None);
    assert_eq!(entry("\u{200b}erin"), Some("\u{200b}erin"));
}

#[test]
fn sort_and_dedup_orders_and_drops_repeats() {
    let a = [1u8; 16];
    let mut b = [0u8; 16];
    b[15] = 9;
    let mut c = [0u8; 16];
    c[0] = 2;
    let out = sort_and_dedup(vec![c, a, b, a, c]);
    assert_eq!(out, vec![b, a, c]);
    assert!(sort_and_dedup(Vec::new()).is_empty());
}
