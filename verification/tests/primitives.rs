use btclib::crypto::{pubkey_from_pem, pubkey_to_pem, PrivateKey, Signature};
use btclib::hash;
use btclib::node::{handle_message, HandlerOutcome};
use btclib::blockchain::BlockChain;
use btclib::u256::{retarget, U256};
use btclib::wire::Message;

#[test]
fn sha256_matches_the_standard_test_vector() {
    // SHA-256("abc") = ba7816bf 8f01cfea 414140de 5dae2223
    //                  b00361a3 96177a9c b410ff61 f20015ad
    let h = hash::Hash::of_bytes(&vec![0x61, 0x62, 0x63]);
    assert_eq!(h.value.w3, 0xba7816bf8f01cfea);
    assert_eq!(h.value.w2, 0x414140de5dae2223);
    assert_eq!(h.value.w1, 0xb00361a396177a9c);
    assert_eq!(h.value.w0, 0xb410ff61f20015ad);
}

#[test]
fn hashes_differ_on_different_bytes() {
    let a = hash::Hash::of_bytes(&vec![1, 2, 3]);
    let b = hash::Hash::of_bytes(&vec![1, 2, 4]);
    assert!(!a.hash_eq(&b));
    assert!(a.hash_eq(&hash::Hash::of_bytes(&vec![1, 2, 3])));
}

#[test]
fn matches_target_compares_numerically() {
    let h = hash::Hash { value: U256 { w0: 5, w1: 0, w2: 0, w3: 0 } };
    assert!(h.matches_target(U256 { w0: 5, w1: 0, w2: 0, w3: 0 }));
    assert!(h.matches_target(U256 { w0: 0, w1: 1, w2: 0, w3: 0 }));
    assert!(!h.matches_target(U256 { w0: 4, w1: 0, w2: 0, w3: 0 }));
}

#[test]
fn retarget_scales_exactly_within_the_clamp() {
    let t = U256 { w0: 1000, w1: 0, w2: 0, w3: 0 };
    // 1000 * 250 / 500 = 500, within [250, 4000]
    let r = retarget(&t, 250, 500);
    assert_eq!(r, U256 { w0: 500, w1: 0, w2: 0, w3: 0 });
}

#[test]
fn retarget_clamps_to_a_quarter() {
    let t = U256 { w0: 1000, w1: 0, w2: 0, w3: 0 };
    // 1000 * 1 / 500 = 2, clamped up to 1000 / 4
    let r = retarget(&t, 1, 500);
    assert_eq!(r, U256 { w0: 250, w1: 0, w2: 0, w3: 0 });
}

#[test]
fn retarget_clamps_to_four_times_and_the_minimum_target() {
    let t = U256 { w0: 1000, w1: 0, w2: 0, w3: 0 };
    // 1000 * 5000 / 500 = 10000, clamped down to 4000
    let r = retarget(&t, 5000, 500);
    assert_eq!(r, U256 { w0: 4000, w1: 0, w2: 0, w3: 0 });
    // from the easiest target, growth is capped at the minimum target
    let m = U256::min_target();
    let capped = retarget(&m, 5000, 500);
    assert_eq!(capped, m);
}

#[test]
fn mining_meets_an_easy_target() {
    let mut header = btclib::block::BlockHeader {
        timestamp: 1,
        nonce: 0,
        prev_block_hash: hash::Hash::zero(),
        merkle_root: hash::Hash::zero(),
        target: U256 { w0: u64::MAX, w1: u64::MAX, w2: u64::MAX, w3: u64::MAX },
    };
    assert!(header.mine(10));
    assert!(header.hash().matches_target(header.target));
}

#[test]
fn signatures_verify_under_the_right_key_only() {
    let sk = PrivateKey::new_key();
    let pk = sk.public_key().unwrap();
    let other = PrivateKey::new_key().public_key().unwrap();
    let h = hash::Hash::of_bytes(&vec![9, 9, 9]);
    let sig = Signature::sign_output(&h, &sk).unwrap();
    assert!(sig.verify(&h, &pk));
    assert!(!sig.verify(&h, &other));
    let h2 = hash::Hash::of_bytes(&vec![9, 9, 8]);
    assert!(!sig.verify(&h2, &pk));
}

#[test]
fn invalid_scalar_bytes_make_no_key() {
    let zero = PrivateKey { bytes: vec![0u8; 32] };
    assert!(zero.public_key().is_none());
    assert!(Signature::sign_output(&hash::Hash::zero(), &zero).is_none());
}

#[test]
fn public_keys_round_trip_through_pem() {
    let pk = PrivateKey::new_key().public_key().unwrap();
    let pem = pubkey_to_pem(&pk).unwrap();
    assert!(pem.contains("BEGIN PUBLIC KEY"));
    let back = pubkey_from_pem(&pem).unwrap();
    assert_eq!(back, pk);
}

#[test]
fn handler_closes_on_pushed_replies() {
    let mut chain = BlockChain::new();
    let peers: Vec<Vec<u8>> = vec![];
    let out: HandlerOutcome =
        handle_message(&mut chain, &peers, Message::TemplateValidity(true), 0, 0);
    assert!(out.close);
    assert!(out.reply.is_none());
}

#[test]
fn handler_answers_discovery_and_difference() {
    let mut chain = BlockChain::new();
    let peers: Vec<Vec<u8>> = vec![b"peer:1".to_vec()];
    let out = handle_message(&mut chain, &peers, Message::DiscoverNodes, 0, 0);
    assert_eq!(out.reply, Some(Message::NodeList(vec![b"peer:1".to_vec()])));
    let out = handle_message(&mut chain, &peers, Message::AskDifference(3), 0, 0);
    assert_eq!(out.reply, Some(Message::Difference(-3)));
}

#[test]
fn handler_serves_a_mineable_template() {
    let sk = PrivateKey::new_key();
    let key = sk.public_key().unwrap();
    let mut chain = BlockChain::new();
    let peers: Vec<Vec<u8>> = vec![];
    let out = handle_message(&mut chain, &peers, Message::FetchTemplate(key.clone()), 77, 5);
    match out.reply {
        Some(Message::Template(b)) => {
            assert_eq!(b.header.timestamp, 77);
            assert_eq!(b.transactions.len(), 1);
            assert_eq!(b.transactions[0].outputs[0].value, 5_000_000_000);
            assert_eq!(b.transactions[0].outputs[0].unique_id, 5);
            assert!(b.header.prev_block_hash.is_zero());
            // the genesis template is immediately acceptable
            let mut submitted = chain.clone();
            assert_eq!(submitted.add_block(b), Ok(()));
        },
        _ => panic!("expected a template"),
    }
}
