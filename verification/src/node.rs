//! The message-dispatch state machine of a node.
//!
//! A connection handler is a loop: receive a framed message, apply
//! [`handle_message`] to the shared ledger, then perform the outcome —
//! send the reply on the same connection, broadcast to every peer, or
//! close. The I/O around it lives outside; everything the node decides
//! is here.

use crate::block::{Block, BlockV};
use crate::blockchain::{
    add_block_check, entry_fee, replay_utxos, BlockChain, ChainV, MempoolEntryV,
};
use crate::codec::header_hash;
use crate::hash;
use crate::merkle::merkle_root_spec;
use crate::transaction::{OutputV, Transaction, TransactionOutput, TxV};
use crate::utxo::{map_of, UtxoEntryV};
use crate::wire::{Message, MessageV};
use vstd::prelude::*;

verus! {

/// What a handler does after dispatching one message.
pub struct HandlerOutcome {
    /// Send this on the same connection.
    pub reply: Option<Message>,
    /// Send this to every known peer.
    pub broadcast: Option<Message>,
    /// Close the connection afterwards.
    pub close: bool,
}

/// The hash a new block must link to: the tip's header hash, or zero on
/// an empty chain.
pub open spec fn tip_hash(c: ChainV) -> nat {
    if c.blocks.len() == 0 {
        0
    } else {
        header_hash(c.blocks.last().header)
    }
}

/// The outputs a key owns, with their mempool marks, in UTXO-set order.
pub open spec fn utxos_for_key(entries: Seq<UtxoEntryV>, k: Seq<u8>) -> Seq<(OutputV, bool)>
    decreases entries.len(),
{
    if entries.len() == 0 {
        Seq::empty()
    } else {
        let rest = utxos_for_key(entries.drop_last(), k);
        if entries.last().output.pubkey == k {
            rest.push((entries.last().output, entries.last().marked))
        } else {
            rest
        }
    }
}

/// The transactions a template takes: the first entries of the mempool,
/// up to the block cap.
pub open spec fn template_txs(mp: Seq<MempoolEntryV>) -> Seq<TxV> {
    if mp.len() <= crate::BLOCK_TRANSACTION_CAP {
        mp.map_values(|e: MempoolEntryV| e.tx)
    } else {
        mp.take(crate::BLOCK_TRANSACTION_CAP as int).map_values(|e: MempoolEntryV| e.tx)
    }
}

/// The total fee of a list of transactions against a UTXO map.
pub open spec fn sum_fees(
    u: Map<nat, (bool, OutputV)>,
    txs: Seq<TxV>,
) -> nat
    decreases txs.len(),
{
    if txs.len() == 0 {
        0
    } else {
        sum_fees(u, txs.drop_last()) + entry_fee(u, txs.last())
    }
}

/// The coinbase value of a template: reward plus fees, capped at `u64`.
pub open spec fn template_value(c: ChainV) -> u64 {
    let fees = sum_fees(map_of(c.utxos), template_txs(c.mempool));
    let reward = crate::blockchain::block_reward_spec(c.blocks.len() as u64);
    if reward + fees > u64::MAX {
        u64::MAX
    } else {
        (reward + fees) as u64
    }
}

/// A sum capped at `2^64`: all the coinbase value needs of the fees.
pub open spec fn cap64(n: nat) -> nat {
    if n > 0x1_0000_0000_0000_0000nat {
        0x1_0000_0000_0000_0000nat
    } else {
        n
    }
}

/// The block template a node hands a miner: a fresh coinbase paying the
/// key, then the lowest-fee mempool transactions up to the cap, under a
/// header that links to the tip at the current target, ready to mine.
pub open spec fn template_spec(c: ChainV, key: Seq<u8>, uuid: u128, now: u64) -> BlockV {
    let cb = TxV {
        inputs: Seq::empty(),
        outputs: seq![
            (OutputV { value: template_value(c), unique_id: uuid, pubkey: key }),
        ],
    };
    let txs = seq![cb] + template_txs(c.mempool);
    BlockV {
        header: crate::block::HeaderV {
            timestamp: now,
            nonce: 0,
            prev_block_hash: tip_hash(c),
            merkle_root: merkle_root_spec(txs),
            target: c.target,
        },
        transactions: txs,
    }
}

/// List the outputs a key owns.
fn collect_utxos_for_key(chain: &BlockChain, key: &crate::crypto::PublicKey) -> (r: Vec<
    (TransactionOutput, bool),
>)
    ensures
        r@.map_values(|p: (TransactionOutput, bool)| (p.0@, p.1)) == utxos_for_key(
            chain@.utxos,
            key@,
        ),
{
    let ghost entries = chain@.utxos;
    let mut out: Vec<(TransactionOutput, bool)> = Vec::new();
    let n = chain.utxos.entries.len();
    let mut i: usize = 0;
    proof {
        assert(entries.take(0) =~= Seq::<UtxoEntryV>::empty());
        assert(out@.map_values(|p: (TransactionOutput, bool)| (p.0@, p.1)) =~= Seq::<
            (OutputV, bool),
        >::empty());
    }
    while i < n
        invariant
            i <= n,
            n == chain.utxos.entries@.len(),
            entries == chain@.utxos,
            out@.map_values(|p: (TransactionOutput, bool)| (p.0@, p.1)) == utxos_for_key(
                entries.take(i as int),
                key@,
            ),
        decreases n - i,
    {
        let e = &chain.utxos.entries[i];
        let ghost pre = out@.map_values(|p: (TransactionOutput, bool)| (p.0@, p.1));
        proof {
            assert(entries.take(i + 1).drop_last() =~= entries.take(i as int));
            assert(entries.take(i + 1).last() == entries[i as int]);
            assert(entries[i as int] == chain.utxos.entries@[i as int]@);
        }
        if e.output.pubkey.key_eq(key) {
            out.push((e.output.clone(), e.marked));
            proof {
                assert(out@.map_values(|p: (TransactionOutput, bool)| (p.0@, p.1))
                    =~= pre.push((entries[i as int].output, entries[i as int].marked)));
            }
        }
        i = i + 1;
    }
    proof {
        assert(entries.take(n as int) =~= entries);
    }
    out
}

/// Build the block template for a miner.
fn build_template(chain: &BlockChain, key: &crate::crypto::PublicKey, uuid: u128, now: u64)
    -> (r: Block)
    requires
        chain.wf(),
    ensures
        r@ == template_spec(chain@, key@, uuid, now),
{
    let ghost c = chain@;
    let ghost sel = template_txs(c.mempool);
    let count = if chain.mempool.len() <= crate::BLOCK_TRANSACTION_CAP {
        chain.mempool.len()
    } else {
        crate::BLOCK_TRANSACTION_CAP
    };
    let mut txs: Vec<Transaction> = Vec::new();
    let mut fees: u128 = 0;
    let mut i: usize = 0;
    proof {
        if c.mempool.len() <= crate::BLOCK_TRANSACTION_CAP {
            assert(c.mempool.take(count as int) =~= c.mempool);
            assert(sel =~= c.mempool.take(count as int).map_values(
                |e: MempoolEntryV| e.tx,
            ));
        }
        assert(sel.take(0) =~= Seq::<TxV>::empty());
        assert(txs@.map_values(|t: Transaction| t@) =~= Seq::<TxV>::empty());
    }
    while i < count
        invariant
            i <= count,
            count <= chain.mempool@.len(),
            c == chain@,
            chain.wf(),
            sel == template_txs(c.mempool),
            sel.len() == count,
            sel == c.mempool.take(count as int).map_values(|e: MempoolEntryV| e.tx),
            txs@.map_values(|t: Transaction| t@) == sel.take(i as int),
            fees as nat == cap64(sum_fees(map_of(c.utxos), sel.take(i as int))),
        decreases count - i,
    {
        let ghost pre = txs@.map_values(|t: Transaction| t@);
        let entry_tx = chain.mempool[i].tx.clone();
        let f = crate::blockchain::mempool_fee_pub(&chain.utxos, &entry_tx);
        proof {
            assert(sel[i as int] == c.mempool.take(count as int)[i as int].tx);
            assert(c.mempool[i as int] == chain.mempool@[i as int]@);
            assert(sel.take(i + 1).drop_last() =~= sel.take(i as int));
            assert(sel.take(i + 1).last() == sel[i as int]);
        }
        let cap: u128 = 0x1_0000_0000_0000_0000;
        let fc: u128 = if f > cap {
            cap
        } else {
            f
        };
        let s2: u128 = fees + fc;
        fees = if s2 > cap {
            cap
        } else {
            s2
        };
        txs.push(entry_tx);
        proof {
            assert(txs@.map_values(|t: Transaction| t@) =~= pre.push(sel[i as int]));
        }
        i = i + 1;
    }
    proof {
        assert(sel.take(count as int) =~= sel);
    }
    let reward = chain.calculate_block_reward();
    let total: u128 = reward as u128 + fees;
    let value: u64 = if total > 0xffff_ffff_ffff_ffffu128 {
        0xffff_ffff_ffff_ffff
    } else {
        total as u64
    };
    proof {
        assert(value == template_value(c));
    }
    let coinbase = Transaction {
        inputs: Vec::new(),
        outputs: vec![
            TransactionOutput { value, unique_id: uuid, pubkey: key.clone() },
        ],
    };
    let mut all: Vec<Transaction> = Vec::new();
    let ghost cbv = coinbase@;
    all.push(coinbase);
    let n = txs.len();
    let mut j: usize = 0;
    proof {
        assert(cbv.inputs =~= Seq::<crate::transaction::InputV>::empty());
        assert(cbv.outputs =~= seq![
            (OutputV { value, unique_id: uuid, pubkey: key@ }),
        ]);
        assert(all@.map_values(|t: Transaction| t@) =~= seq![cbv] + sel.take(0));
    }
    while j < n
        invariant
            j <= n,
            n == txs@.len(),
            sel == txs@.map_values(|t: Transaction| t@),
            all@.map_values(|t: Transaction| t@) == seq![cbv] + sel.take(j as int),
        decreases n - j,
    {
        let ghost pre = all@.map_values(|t: Transaction| t@);
        all.push(txs[j].clone());
        proof {
            assert(all@.map_values(|t: Transaction| t@) =~= pre.push(sel[j as int]));
            assert(pre.push(sel[j as int]) =~= seq![cbv] + sel.take(j + 1));
        }
        j = j + 1;
    }
    proof {
        assert(sel.take(n as int) =~= sel);
    }
    let root = crate::merkle::calculate_merkle_root(&all);
    let prev = if chain.blocks.len() == 0 {
        hash::Hash::zero()
    } else {
        let idx = chain.blocks.len() - 1;
        proof {
            assert(c.blocks.last() == chain.blocks@[idx as int]@);
        }
        chain.blocks[idx].hash()
    };
    let header = crate::block::BlockHeader {
        timestamp: now,
        nonce: 0,
        prev_block_hash: prev,
        merkle_root: root,
        target: chain.target,
    };
    let b = Block { header, transactions: all };
    proof {
        assert(b@.transactions =~= seq![cbv] + sel);
        assert(b@ == template_spec(c, key@, uuid, now));
    }
    b
}

/// Copy a list of peer addresses.
fn copy_addrs(peers: &Vec<Vec<u8>>) -> (r: Vec<Vec<u8>>)
    ensures
        r@.map_values(|a: Vec<u8>| a@) == peers@.map_values(|a: Vec<u8>| a@),
{
    let mut list: Vec<Vec<u8>> = Vec::new();
    let n = peers.len();
    let mut i: usize = 0;
    proof {
        assert(list@.map_values(|a: Vec<u8>| a@) =~= peers@.map_values(
            |a: Vec<u8>| a@,
        ).take(0));
    }
    while i < n
        invariant
            i <= n,
            n == peers@.len(),
            list@.map_values(|a: Vec<u8>| a@) == peers@.map_values(|a: Vec<u8>| a@).take(
                i as int,
            ),
        decreases n - i,
    {
        let ghost pre = list@.map_values(|a: Vec<u8>| a@);
        let mut copy: Vec<u8> = Vec::new();
        copy.extend_from_slice(peers[i].as_slice());
        proof {
            assert(copy@ =~= peers@[i as int]@);
        }
        list.push(copy);
        proof {
            assert(list@.map_values(|a: Vec<u8>| a@) =~= pre.push(peers@[i as int]@));
            assert(pre.push(peers@[i as int]@) =~= peers@.map_values(|a: Vec<u8>| a@).take(
                i + 1,
            ));
        }
        i = i + 1;
    }
    proof {
        assert(peers@.map_values(|a: Vec<u8>| a@).take(n as int) =~= peers@.map_values(
            |a: Vec<u8>| a@,
        ));
    }
    list
}


/// Take in a gossiped block: accept or ignore.
fn on_new_block(chain: &mut BlockChain, b: Block) -> (r: HandlerOutcome)
    requires
        old(chain).wf(),
    ensures
        final (chain).wf(),
        !r.close && r.reply is None && r.broadcast is None,
        match add_block_check(old(chain)@, b@) {
            Ok(()) => final (chain)@.blocks == old(chain)@.blocks.push(b@),
            Err(_) => *final (chain) == *old(chain),
        },
{
    let res = chain.add_block(b);
    HandlerOutcome { reply: None, broadcast: None, close: false }
}

/// Take in a mined block: accept, rebuild the UTXO set and broadcast it,
/// or reject and close.
fn on_submit_template(chain: &mut BlockChain, b: Block) -> (r: HandlerOutcome)
    requires
        old(chain).wf(),
    ensures
        final (chain).wf(),
        r.reply is None,
        match add_block_check(old(chain)@, b@) {
            Ok(()) => !r.close && (r.broadcast matches Some(m) && m@ == MessageV::NewBlock(b@))
                && final (chain)@.blocks == old(chain)@.blocks.push(b@) && final (
            chain).utxos.as_map() == replay_utxos(old(chain)@.blocks.push(b@)),
            Err(_) => r.close && r.broadcast is None && *final (chain) == *old(chain),
        },
{
    let copy = b.clone();
    match chain.add_block(copy) {
        Ok(()) => {
            chain.rebuild_utxos();
            HandlerOutcome { reply: None, broadcast: Some(Message::NewBlock(b)), close: false }
        },
        Err(_) => HandlerOutcome { reply: None, broadcast: None, close: true },
    }
}


/// Serve a block by height, or close when out of range.
fn on_fetch_block(chain: &BlockChain, h: u64) -> (r: HandlerOutcome)
    ensures
        r.broadcast is None,
        if h < chain@.blocks.len() {
            !r.close && (r.reply matches Some(m) && m@ == MessageV::NewBlock(
                chain@.blocks[h as int],
            ))
        } else {
            r.close && r.reply is None
        },
{
    let n = chain.blocks.len();
    if h < n as u64 {
        let idx = h as usize;
        proof {
            assert(chain@.blocks[h as int] == chain.blocks@[h as int]@);
        }
        let b = chain.blocks[idx].clone();
        HandlerOutcome { reply: Some(Message::NewBlock(b)), broadcast: None, close: false }
    } else {
        HandlerOutcome { reply: None, broadcast: None, close: true }
    }
}

/// Answer a height difference probe.
fn on_ask_difference(chain: &BlockChain, h: u32) -> (r: HandlerOutcome)
    ensures
        !r.close && r.broadcast is None,
        r.reply matches Some(m) && m@ matches MessageV::Difference(d) && (chain@.blocks.len()
            <= 0x7fff_ffff && h <= 0x7fff_ffff ==> d == chain@.blocks.len() - h),
{
    let height = chain.block_height();
    #[verifier::truncate]
    let lh: i32 = height as i32;
    #[verifier::truncate]
    let rh: i32 = h as i32;
    let d: i32 = lh.wrapping_sub(rh);
    proof {
        if chain@.blocks.len() <= 0x7fff_ffff && h <= 0x7fff_ffff {
            assert(lh == height as int);
            assert(rh == h as int);
        }
    }
    HandlerOutcome { reply: Some(Message::Difference(d)), broadcast: None, close: false }
}

/// Answer whether a template still builds on the tip.
fn on_validate_template(chain: &BlockChain, b: Block) -> (r: HandlerOutcome)
    ensures
        !r.close && r.broadcast is None,
        r.reply matches Some(m) && m@ == MessageV::TemplateValidity(
            b@.header.prev_block_hash == tip_hash(chain@),
        ),
{
    let tip = if chain.blocks.len() == 0 {
        hash::Hash::zero()
    } else {
        let idx = chain.blocks.len() - 1;
        proof {
            assert(chain@.blocks.last() == chain.blocks@[idx as int]@);
        }
        chain.blocks[idx].hash()
    };
    let status = b.header.prev_block_hash.hash_eq(&tip);
    HandlerOutcome {
        reply: Some(Message::TemplateValidity(status)),
        broadcast: None,
        close: false,
    }
}

/// Admit a gossiped transaction; a rejected one closes the connection.
fn on_new_transaction(chain: &mut BlockChain, tx: Transaction, now: u64) -> (r: HandlerOutcome)
    requires
        old(chain).wf(),
    ensures
        final (chain).wf(),
        r.reply is None && r.broadcast is None,
{
    let res = chain.add_to_mempool(tx, now);
    let close = res.is_err();
    HandlerOutcome { reply: None, broadcast: None, close }
}

/// Admit a submitted transaction and broadcast it; a rejected one closes
/// the connection.
fn on_submit_transaction(chain: &mut BlockChain, tx: Transaction, now: u64) -> (r:
    HandlerOutcome)
    requires
        old(chain).wf(),
    ensures
        final (chain).wf(),
        r.reply is None,
{
    let copy = tx.clone();
    match chain.add_to_mempool(copy, now) {
        Ok(()) => HandlerOutcome {
            reply: None,
            broadcast: Some(Message::NewTransaction(tx)),
            close: false,
        },
        Err(_) => HandlerOutcome { reply: None, broadcast: None, close: true },
    }
}

/// Dispatch one received message against the ledger: the node's whole
/// behavior per message, minus the I/O that carries the outcome out.
/// Replies (`UTXOs`, `Template`, `Difference`, `TemplateValidity`,
/// `NodeList`) pushed by a peer close the connection.
#[verifier::rlimit(100)]
pub fn handle_message(
    chain: &mut BlockChain,
    peers: &Vec<Vec<u8>>,
    msg: Message,
    now: u64,
    coinbase_uuid: u128,
) -> (r: HandlerOutcome)
    requires
        old(chain).wf(),
    ensures
        final (chain).wf(),
        match msg@ {
            MessageV::UTXOs(_) | MessageV::Template(_) | MessageV::Difference(_)
                | MessageV::TemplateValidity(_) | MessageV::NodeList(_) => r.close && *final (
            chain) == *old(chain) && r.reply is None && r.broadcast is None,
            MessageV::FetchBlock(h) => *final (chain) == *old(chain) && r.broadcast is None
                && (if h < old(chain)@.blocks.len() {
                !r.close && (r.reply matches Some(m) && m@ == MessageV::NewBlock(
                    old(chain)@.blocks[h as int],
                ))
            } else {
                r.close && r.reply is None
            }),
            MessageV::DiscoverNodes => *final (chain) == *old(chain) && !r.close
                && r.broadcast is None && (r.reply matches Some(m) && m@ == MessageV::NodeList(
                peers@.map_values(|a: Vec<u8>| a@),
            )),
            MessageV::AskDifference(h) => *final (chain) == *old(chain) && !r.close
                && r.broadcast is None && (r.reply matches Some(m) && m@ matches
                MessageV::Difference(d) && (old(chain)@.blocks.len() <= 0x7fff_ffff && h
                <= 0x7fff_ffff ==> d == old(chain)@.blocks.len() - h)),
            MessageV::FetchUTXOs(k) => *final (chain) == *old(chain) && !r.close
                && r.broadcast is None && (r.reply matches Some(m) && m@ == MessageV::UTXOs(
                utxos_for_key(old(chain)@.utxos, k),
            )),
            MessageV::NewBlock(b) => !r.close && r.reply is None && r.broadcast is None && (
            match add_block_check(old(chain)@, b) {
                Ok(()) => final (chain)@.blocks == old(chain)@.blocks.push(b),
                Err(_) => *final (chain) == *old(chain),
            }),
            MessageV::NewTransaction(_) => r.reply is None && r.broadcast is None,
            MessageV::ValidateTemplate(b) => *final (chain) == *old(chain) && !r.close
                && r.broadcast is None && (r.reply matches Some(m) && m@
                == MessageV::TemplateValidity(
                b.header.prev_block_hash == tip_hash(old(chain)@),
            )),
            MessageV::SubmitTemplate(b) => r.reply is None && (
            match add_block_check(old(chain)@, b) {
                Ok(()) => !r.close && (r.broadcast matches Some(m) && m@
                    == MessageV::NewBlock(b)) && final (chain)@.blocks == old(
                chain,
                )@.blocks.push(b) && final (chain).utxos.as_map() == replay_utxos(
                    old(chain)@.blocks.push(b),
                ),
                Err(_) => r.close && r.broadcast is None && *final (chain) == *old(chain),
            }),
            MessageV::SubmitTransaction(t) => r.reply is None,
            MessageV::FetchTemplate(k) => *final (chain) == *old(chain) && !r.close
                && r.broadcast is None && (r.reply matches Some(m) && m@ == MessageV::Template(
                template_spec(old(chain)@, k, coinbase_uuid, now),
            )),
        },
{
    match msg {
        Message::UTXOs(_) | Message::Template(_) | Message::Difference(_)
            | Message::TemplateValidity(_) | Message::NodeList(_) => HandlerOutcome {
            reply: None,
            broadcast: None,
            close: true,
        },
        Message::FetchBlock(h) => on_fetch_block(chain, h),
        Message::DiscoverNodes => {
            let list = copy_addrs(peers);
            HandlerOutcome {
                reply: Some(Message::NodeList(list)),
                broadcast: None,
                close: false,
            }
        },
        Message::AskDifference(h) => on_ask_difference(chain, h),
        Message::FetchUTXOs(key) => {
            let list = collect_utxos_for_key(chain, &key);
            HandlerOutcome { reply: Some(Message::UTXOs(list)), broadcast: None, close: false }
        },
        Message::NewBlock(b) => on_new_block(chain, b),
        Message::NewTransaction(tx) => on_new_transaction(chain, tx, now),
        Message::ValidateTemplate(b) => on_validate_template(chain, b),
        Message::SubmitTemplate(b) => on_submit_template(chain, b),
        Message::SubmitTransaction(tx) => on_submit_transaction(chain, tx, now),
        Message::FetchTemplate(key) => {
            let b = build_template(chain, &key, coinbase_uuid, now);
            HandlerOutcome { reply: Some(Message::Template(b)), broadcast: None, close: false }
        },
    }
}

} // verus!
