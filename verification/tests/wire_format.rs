use btclib::block::{Block, BlockHeader};
use btclib::crypto::{PrivateKey, PublicKey, Signature};
use btclib::hash;
use btclib::merkle::calculate_merkle_root;
use btclib::transaction::{Transaction, TransactionInput, TransactionOutput};
use btclib::u256::U256;
use btclib::wire::Message;
use btclib::BtcError;

fn sample_key() -> PublicKey {
    PrivateKey::new_key().public_key().unwrap()
}

fn sample_tx() -> Transaction {
    let sk = PrivateKey::new_key();
    let h = hash::Hash::zero();
    Transaction {
        inputs: vec![TransactionInput {
            prev_tx_output_hash: h,
            signature: Signature::sign_output(&h, &sk).unwrap(),
        }],
        outputs: vec![TransactionOutput {
            value: 42,
            unique_id: 0xdead_beef,
            pubkey: sample_key(),
        }],
    }
}

fn sample_block() -> Block {
    let txs = vec![Transaction { inputs: vec![], outputs: vec![TransactionOutput {
        value: 5_000_000_000,
        unique_id: 1,
        pubkey: sample_key(),
    }] }];
    let root = calculate_merkle_root(&txs);
    Block {
        header: BlockHeader {
            timestamp: 123,
            nonce: 456,
            prev_block_hash: hash::Hash::zero(),
            merkle_root: root,
            target: U256 { w0: 0, w1: 0, w2: 0, w3: 0x1_0000_0000_0000 },
        },
        transactions: txs,
    }
}

fn round_trips(m: Message) {
    let bytes = m.encode();
    let back = Message::decode(&bytes).unwrap();
    assert_eq!(back, m);
}

#[test]
fn every_message_variant_round_trips() {
    round_trips(Message::FetchUTXOs(sample_key()));
    round_trips(Message::UTXOs(vec![
        (TransactionOutput { value: 7, unique_id: 2, pubkey: sample_key() }, true),
        (TransactionOutput { value: 9, unique_id: 3, pubkey: sample_key() }, false),
    ]));
    round_trips(Message::SubmitTransaction(sample_tx()));
    round_trips(Message::NewTransaction(sample_tx()));
    round_trips(Message::FetchTemplate(sample_key()));
    round_trips(Message::Template(sample_block()));
    round_trips(Message::ValidateTemplate(sample_block()));
    round_trips(Message::TemplateValidity(true));
    round_trips(Message::TemplateValidity(false));
    round_trips(Message::SubmitTemplate(sample_block()));
    round_trips(Message::DiscoverNodes);
    round_trips(Message::NodeList(vec![
        b"127.0.0.1:9000".to_vec(),
        b"example.invalid:9001".to_vec(),
    ]));
    round_trips(Message::AskDifference(12));
    round_trips(Message::Difference(-5));
    round_trips(Message::Difference(5));
    round_trips(Message::Difference(i32::MIN));
    round_trips(Message::Difference(i32::MAX));
    round_trips(Message::FetchBlock(3));
    round_trips(Message::FetchBlock(u64::MAX));
    round_trips(Message::AskDifference(u32::MAX));
}

#[test]
fn garbage_bytes_are_invalid_data() {
    assert_eq!(Message::decode(&vec![]), Err(BtcError::InvalidData));
    assert_eq!(Message::decode(&vec![0xff, 0xff]), Err(BtcError::InvalidData));
    // a two-element array with an unknown tag
    assert_eq!(Message::decode(&vec![0x82, 0x18, 0x63]), Err(BtcError::InvalidData));
}

#[test]
fn frame_carries_length_then_payload() {
    let m = Message::DiscoverNodes;
    let payload = m.encode();
    let framed = m.frame();
    assert_eq!(framed.len(), payload.len() + 8);
    let mut len_bytes = [0u8; 8];
    len_bytes.copy_from_slice(&framed[0..8]);
    assert_eq!(u64::from_be_bytes(len_bytes) as usize, payload.len());
    assert_eq!(&framed[8..], payload.as_slice());
}

#[test]
fn discover_nodes_encodes_as_singleton_array() {
    // [9] in CBOR: a one-element array holding the unsigned integer 9
    assert_eq!(Message::DiscoverNodes.encode(), vec![0x81, 0x09]);
}

#[test]
fn template_validity_has_exact_encoding() {
    // [7, true]: 0x82 array(2), 0x07, 0xf5
    assert_eq!(Message::TemplateValidity(true).encode(), vec![0x82, 0x07, 0xf5]);
    assert_eq!(Message::TemplateValidity(false).encode(), vec![0x82, 0x07, 0xf4]);
}
