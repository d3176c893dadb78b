use btclib::block::{Block, BlockHeader};
use btclib::blockchain::{reward_for_halvings, BlockChain};
use btclib::crypto::{PrivateKey, PublicKey, Signature};
use btclib::hash;
use btclib::merkle::calculate_merkle_root;
use btclib::transaction::{Transaction, TransactionInput, TransactionOutput};
use btclib::u256::U256;
use btclib::BtcError;

fn easy_target() -> U256 {
    U256 { w0: u64::MAX, w1: u64::MAX, w2: u64::MAX, w3: u64::MAX }
}

fn coinbase_paying(key: &PublicKey, value: u64, uuid: u128) -> Transaction {
    Transaction {
        inputs: Vec::new(),
        outputs: vec![TransactionOutput { value, unique_id: uuid, pubkey: key.clone() }],
    }
}

fn genesis_block(key: &PublicKey, timestamp: u64) -> Block {
    let txs = vec![coinbase_paying(key, 5_000_000_000, 1)];
    let root = calculate_merkle_root(&txs);
    Block {
        header: BlockHeader {
            timestamp,
            nonce: 0,
            prev_block_hash: hash::Hash::zero(),
            merkle_root: root,
            target: easy_target(),
        },
        transactions: txs,
    }
}

#[test]
fn genesis_is_accepted() {
    let key = PrivateKey::new_key().public_key().unwrap();
    let mut chain = BlockChain::new();
    let g = genesis_block(&key, 100);
    assert_eq!(chain.add_block(g), Ok(()));
    assert_eq!(chain.block_height(), 1);
    chain.rebuild_utxos();
    assert_eq!(chain.utxos().len(), 1);
    assert!(!chain.utxos().entries[0].marked);
}

#[test]
fn wrong_previous_hash_is_rejected() {
    let key = PrivateKey::new_key().public_key().unwrap();
    let mut chain = BlockChain::new();
    let g = genesis_block(&key, 100);
    assert_eq!(chain.add_block(g.clone()), Ok(()));
    let mut second = genesis_block(&key, 200);
    second.header.prev_block_hash = hash::Hash::zero();
    assert_eq!(chain.add_block(second), Err(BtcError::InvalidBlock));
    assert_eq!(chain.block_height(), 1);
}

#[test]
fn stale_timestamp_is_rejected() {
    let key = PrivateKey::new_key().public_key().unwrap();
    let mut chain = BlockChain::new();
    let g = genesis_block(&key, 100);
    assert_eq!(chain.add_block(g.clone()), Ok(()));
    chain.rebuild_utxos();
    let txs = vec![coinbase_paying(&key, 5_000_000_000, 2)];
    let root = calculate_merkle_root(&txs);
    let second = Block {
        header: BlockHeader {
            timestamp: 100,
            nonce: 0,
            prev_block_hash: g.hash(),
            merkle_root: root,
            target: easy_target(),
        },
        transactions: txs,
    };
    assert_eq!(chain.add_block(second), Err(BtcError::InvalidBlock));
}

#[test]
fn wrong_merkle_root_is_rejected() {
    let key = PrivateKey::new_key().public_key().unwrap();
    let mut chain = BlockChain::new();
    let g = genesis_block(&key, 100);
    assert_eq!(chain.add_block(g.clone()), Ok(()));
    chain.rebuild_utxos();
    let txs = vec![coinbase_paying(&key, 5_000_000_000, 2)];
    let second = Block {
        header: BlockHeader {
            timestamp: 200,
            nonce: 0,
            prev_block_hash: g.hash(),
            merkle_root: hash::Hash::zero(),
            target: easy_target(),
        },
        transactions: txs,
    };
    assert_eq!(chain.add_block(second), Err(BtcError::InvalidMerkleRoot));
}

#[test]
fn spending_block_with_valid_signature_is_accepted() {
    let sk = PrivateKey::new_key();
    let key = sk.public_key().unwrap();
    let mut chain = BlockChain::new();
    let g = genesis_block(&key, 100);
    assert_eq!(chain.add_block(g.clone()), Ok(()));
    chain.rebuild_utxos();
    let coinbase_hash = g.transactions[0].hash();
    let spend = Transaction {
        inputs: vec![TransactionInput {
            prev_tx_output_hash: coinbase_hash,
            signature: Signature::sign_output(&coinbase_hash, &sk).unwrap(),
        }],
        outputs: vec![TransactionOutput { value: 3_000_000_000, unique_id: 7, pubkey: key.clone() }],
    };
    // reward at height 1 plus the 2_000_000_000 fee the spend leaves
    let cb2 = coinbase_paying(&key, 7_000_000_000, 3);
    let txs = vec![cb2, spend];
    let root = calculate_merkle_root(&txs);
    let second = Block {
        header: BlockHeader {
            timestamp: 200,
            nonce: 0,
            prev_block_hash: g.hash(),
            merkle_root: root,
            target: easy_target(),
        },
        transactions: txs,
    };
    assert_eq!(chain.add_block(second), Ok(()));
    assert_eq!(chain.block_height(), 2);
    chain.rebuild_utxos();
    // the coinbase UTXO was spent; block 2 left two fresh ones
    assert_eq!(chain.utxos().len(), 2);
}

#[test]
fn bad_signature_is_rejected() {
    let sk = PrivateKey::new_key();
    let other = PrivateKey::new_key();
    let key = sk.public_key().unwrap();
    let mut chain = BlockChain::new();
    let g = genesis_block(&key, 100);
    assert_eq!(chain.add_block(g.clone()), Ok(()));
    chain.rebuild_utxos();
    let coinbase_hash = g.transactions[0].hash();
    let spend = Transaction {
        inputs: vec![TransactionInput {
            prev_tx_output_hash: coinbase_hash,
            signature: Signature::sign_output(&coinbase_hash, &other).unwrap(),
        }],
        outputs: vec![TransactionOutput { value: 3_000_000_000, unique_id: 7, pubkey: key.clone() }],
    };
    let cb2 = coinbase_paying(&key, 7_000_000_000, 3);
    let txs = vec![cb2, spend];
    let root = calculate_merkle_root(&txs);
    let second = Block {
        header: BlockHeader {
            timestamp: 200,
            nonce: 0,
            prev_block_hash: g.hash(),
            merkle_root: root,
            target: easy_target(),
        },
        transactions: txs,
    };
    assert_eq!(chain.add_block(second), Err(BtcError::InvalidSignature));
}

#[test]
fn coinbase_reward_halves_at_halving_boundary() {
    let key = PrivateKey::new_key().public_key().unwrap();
    let chain = BlockChain::new();
    let full = Block {
        header: BlockHeader {
            timestamp: 1,
            nonce: 0,
            prev_block_hash: hash::Hash::zero(),
            merkle_root: hash::Hash::zero(),
            target: easy_target(),
        },
        transactions: vec![coinbase_paying(&key, 5_000_000_000, 1)],
    };
    // at the halving boundary the full reward is no longer owed
    assert_eq!(
        full.verify_coinbase_transaction(btclib::HALVING_INTERVAL, chain.utxos()),
        Err(BtcError::InvalidTransaction)
    );
    let halved = Block {
        header: full.header,
        transactions: vec![coinbase_paying(&key, 2_500_000_000, 1)],
    };
    assert_eq!(
        halved.verify_coinbase_transaction(btclib::HALVING_INTERVAL, chain.utxos()),
        Ok(())
    );
}

#[test]
fn reward_schedule_is_exact() {
    assert_eq!(reward_for_halvings(0), 5_000_000_000);
    assert_eq!(reward_for_halvings(1), 2_500_000_000);
    assert_eq!(reward_for_halvings(2), 1_250_000_000);
    assert_eq!(reward_for_halvings(33), 0);
    assert_eq!(reward_for_halvings(u64::MAX), 0);
}

#[test]
fn mempool_admission_marks_inputs() {
    let sk = PrivateKey::new_key();
    let key = sk.public_key().unwrap();
    let mut chain = BlockChain::new();
    let g = genesis_block(&key, 100);
    assert_eq!(chain.add_block(g.clone()), Ok(()));
    chain.rebuild_utxos();
    let coinbase_hash = g.transactions[0].hash();
    let tx = Transaction {
        inputs: vec![TransactionInput {
            prev_tx_output_hash: coinbase_hash,
            signature: Signature::sign_output(&coinbase_hash, &sk).unwrap(),
        }],
        outputs: vec![TransactionOutput { value: 1_000_000_000, unique_id: 9, pubkey: key.clone() }],
    };
    assert_eq!(chain.add_to_mempool(tx, 50), Ok(()));
    assert_eq!(chain.mempool().len(), 1);
    assert!(chain.utxos().entries[0].marked);
}

#[test]
fn mempool_rejects_missing_and_duplicate_inputs() {
    let sk = PrivateKey::new_key();
    let key = sk.public_key().unwrap();
    let mut chain = BlockChain::new();
    let g = genesis_block(&key, 100);
    assert_eq!(chain.add_block(g.clone()), Ok(()));
    chain.rebuild_utxos();
    let missing = hash::Hash::zero();
    let tx = Transaction {
        inputs: vec![TransactionInput {
            prev_tx_output_hash: missing,
            signature: Signature::sign_output(&missing, &sk).unwrap(),
        }],
        outputs: vec![],
    };
    assert_eq!(chain.add_to_mempool(tx, 50), Err(BtcError::InvalidTransaction));
    let coinbase_hash = g.transactions[0].hash();
    let dup = Transaction {
        inputs: vec![
            TransactionInput {
                prev_tx_output_hash: coinbase_hash,
                signature: Signature::sign_output(&coinbase_hash, &sk).unwrap(),
            },
            TransactionInput {
                prev_tx_output_hash: coinbase_hash,
                signature: Signature::sign_output(&coinbase_hash, &sk).unwrap(),
            },
        ],
        outputs: vec![],
    };
    assert_eq!(chain.add_to_mempool(dup, 50), Err(BtcError::InvalidTransaction));
    assert_eq!(chain.mempool().len(), 0);
}

#[test]
fn mempool_rejects_value_imbalance() {
    let sk = PrivateKey::new_key();
    let key = sk.public_key().unwrap();
    let mut chain = BlockChain::new();
    let g = genesis_block(&key, 100);
    assert_eq!(chain.add_block(g.clone()), Ok(()));
    chain.rebuild_utxos();
    let coinbase_hash = g.transactions[0].hash();
    let tx = Transaction {
        inputs: vec![TransactionInput {
            prev_tx_output_hash: coinbase_hash,
            signature: Signature::sign_output(&coinbase_hash, &sk).unwrap(),
        }],
        outputs: vec![TransactionOutput {
            value: 6_000_000_000,
            unique_id: 9,
            pubkey: key.clone(),
        }],
    };
    assert_eq!(chain.add_to_mempool(tx, 50), Err(BtcError::InvalidTransaction));
}

#[test]
fn second_spend_of_marked_utxo_unmarks_then_remarks() {
    let sk = PrivateKey::new_key();
    let key = sk.public_key().unwrap();
    let mut chain = BlockChain::new();
    let g = genesis_block(&key, 100);
    assert_eq!(chain.add_block(g.clone()), Ok(()));
    chain.rebuild_utxos();
    let coinbase_hash = g.transactions[0].hash();
    let spend = |uuid: u128| Transaction {
        inputs: vec![TransactionInput {
            prev_tx_output_hash: coinbase_hash,
            signature: Signature::sign_output(&coinbase_hash, &sk).unwrap(),
        }],
        outputs: vec![TransactionOutput {
            value: 1_000_000_000,
            unique_id: uuid,
            pubkey: key.clone(),
        }],
    };
    assert_eq!(chain.add_to_mempool(spend(1), 50), Ok(()));
    assert_eq!(chain.add_to_mempool(spend(2), 60), Ok(()));
    // the conflict search goes by output hashes, which never coincide
    // with the producing transaction's hash, so the first spend stays
    assert_eq!(chain.mempool().len(), 2);
    assert!(chain.utxos().entries[0].marked);
}

#[test]
fn cleanup_evicts_aged_entries_and_unmarks() {
    let sk = PrivateKey::new_key();
    let key = sk.public_key().unwrap();
    let mut chain = BlockChain::new();
    let g = genesis_block(&key, 100);
    assert_eq!(chain.add_block(g.clone()), Ok(()));
    chain.rebuild_utxos();
    let coinbase_hash = g.transactions[0].hash();
    let tx = Transaction {
        inputs: vec![TransactionInput {
            prev_tx_output_hash: coinbase_hash,
            signature: Signature::sign_output(&coinbase_hash, &sk).unwrap(),
        }],
        outputs: vec![TransactionOutput { value: 1_000_000_000, unique_id: 9, pubkey: key.clone() }],
    };
    assert_eq!(chain.add_to_mempool(tx, 50), Ok(()));
    chain.cleanup_mempool(100);
    assert_eq!(chain.mempool().len(), 1);
    chain.cleanup_mempool(50 + btclib::MAX_MEMPOOL_TRANSACTION_AGE + 1);
    assert_eq!(chain.mempool().len(), 0);
    assert!(!chain.utxos().entries[0].marked);
}

#[test]
fn included_transactions_leave_the_mempool() {
    let sk = PrivateKey::new_key();
    let key = sk.public_key().unwrap();
    let mut chain = BlockChain::new();
    let g = genesis_block(&key, 100);
    assert_eq!(chain.add_block(g.clone()), Ok(()));
    chain.rebuild_utxos();
    let coinbase_hash = g.transactions[0].hash();
    let spend = Transaction {
        inputs: vec![TransactionInput {
            prev_tx_output_hash: coinbase_hash,
            signature: Signature::sign_output(&coinbase_hash, &sk).unwrap(),
        }],
        outputs: vec![TransactionOutput { value: 3_000_000_000, unique_id: 7, pubkey: key.clone() }],
    };
    assert_eq!(chain.add_to_mempool(spend.clone(), 50), Ok(()));
    let cb2 = coinbase_paying(&key, 7_000_000_000, 3);
    let txs = vec![cb2, spend];
    let root = calculate_merkle_root(&txs);
    let second = Block {
        header: BlockHeader {
            timestamp: 200,
            nonce: 0,
            prev_block_hash: g.hash(),
            merkle_root: root,
            target: easy_target(),
        },
        transactions: txs,
    };
    assert_eq!(chain.add_block(second), Ok(()));
    assert_eq!(chain.mempool().len(), 0);
}

#[test]
fn snapshot_round_trips_modulo_mempool() {
    let sk = PrivateKey::new_key();
    let key = sk.public_key().unwrap();
    let mut chain = BlockChain::new();
    let g = genesis_block(&key, 100);
    assert_eq!(chain.add_block(g.clone()), Ok(()));
    chain.rebuild_utxos();
    let coinbase_hash = g.transactions[0].hash();
    let tx = Transaction {
        inputs: vec![TransactionInput {
            prev_tx_output_hash: coinbase_hash,
            signature: Signature::sign_output(&coinbase_hash, &sk).unwrap(),
        }],
        outputs: vec![TransactionOutput { value: 1_000_000_000, unique_id: 9, pubkey: key }],
    };
    assert_eq!(chain.add_to_mempool(tx, 50), Ok(()));
    let bytes = chain.save();
    let loaded = BlockChain::load(&bytes).unwrap();
    assert_eq!(loaded.utxos(), chain.utxos());
    assert_eq!(loaded.target(), chain.target());
    assert_eq!(loaded.blocks(), chain.blocks());
    assert!(loaded.mempool().is_empty());
}

#[test]
fn truncated_snapshot_is_invalid_data() {
    let key = PrivateKey::new_key().public_key().unwrap();
    let mut chain = BlockChain::new();
    assert_eq!(chain.add_block(genesis_block(&key, 100)), Ok(()));
    let mut bytes = chain.save();
    bytes.truncate(bytes.len() - 1);
    assert_eq!(BlockChain::load(&bytes), Err(BtcError::InvalidData));
}
