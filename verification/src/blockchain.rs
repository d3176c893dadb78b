//! The ledger: the chain of blocks, the UTXO set, and the mempool.

use crate::block::{Block, BlockV};
use crate::codec::{header_hash, tx_hash};
use crate::hash;
use crate::merkle::merkle_root_spec;
use crate::transaction::{
    input_keys, sum_outputs, InputV, OutputV, Transaction, TransactionInput, TxV,
};
use crate::u256::{min_target_nat, retarget_nat, U256};
use crate::utxo::{set_marked_spec, UtxoEntryV, UtxoMap};
use crate::BtcError;
use vstd::prelude::*;

verus! {

/// The block reward after a number of halvings: fifty coins in satoshis,
/// halved (rounding down) that many times.
pub open spec fn reward_of(halvings: nat) -> nat
    decreases halvings,
{
    if halvings == 0 {
        5_000_000_000
    } else {
        reward_of((halvings - 1) as nat) / 2
    }
}

/// The reward of the block at a height.
pub open spec fn block_reward_spec(height: u64) -> nat {
    reward_of((height as nat) / (crate::HALVING_INTERVAL as nat))
}

/// Once the reward reaches zero it stays zero.
pub proof fn lemma_reward_zero_stays(k: nat, j: nat)
    requires
        reward_of(k) == 0,
        j >= k,
    ensures
        reward_of(j) == 0,
    decreases j,
{
    if j > k {
        lemma_reward_zero_stays(k, (j - 1) as nat);
    }
}

/// Compute the reward after a number of halvings.
pub fn reward_for_halvings(halvings: u64) -> (r: u64)
    ensures
        r as nat == reward_of(halvings as nat),
{
    let mut r: u64 = 5_000_000_000;
    let mut k: u64 = 0;
    while k < halvings && r > 0
        invariant
            k <= halvings,
            r as nat == reward_of(k as nat),
        decreases halvings - k,
    {
        r = r / 2;
        k = k + 1;
    }
    proof {
        if r == 0 && k < halvings {
            lemma_reward_zero_stays(k as nat, halvings as nat);
        }
    }
    r
}

/// One pending transaction: its arrival time (seconds) and the
/// transaction itself.
#[derive(Debug, PartialEq, Eq)]
pub struct MempoolEntry {
    pub time: u64,
    pub tx: Transaction,
}

/// The mathematical shape of a mempool entry.
pub struct MempoolEntryV {
    pub time: u64,
    pub tx: TxV,
}

impl View for MempoolEntry {
    type V = MempoolEntryV;

    open spec fn view(&self) -> MempoolEntryV {
        MempoolEntryV { time: self.time, tx: self.tx@ }
    }
}

impl Clone for MempoolEntry {
    /// A clone denotes the same entry.
    fn clone(&self) -> (r: Self)
        ensures
            r@ == self@,
    {
        MempoolEntry { time: self.time, tx: self.tx.clone() }
    }
}

/// The ledger: an append-only chain of blocks, the UTXO set it induces,
/// the current proof-of-work target, and the mempool of pending
/// transactions ordered by fee.
#[derive(Debug, PartialEq, Eq)]
pub struct BlockChain {
    pub utxos: UtxoMap,
    pub target: U256,
    pub blocks: Vec<Block>,
    pub mempool: Vec<MempoolEntry>,
}

/// The mathematical shape of the ledger.
pub struct ChainV {
    pub utxos: Seq<UtxoEntryV>,
    pub target: nat,
    pub blocks: Seq<BlockV>,
    pub mempool: Seq<MempoolEntryV>,
}

impl View for BlockChain {
    type V = ChainV;

    open spec fn view(&self) -> ChainV {
        ChainV {
            utxos: self.utxos@,
            target: self.target.as_nat(),
            blocks: self.blocks@.map_values(|b: Block| b@),
            mempool: self.mempool@.map_values(|e: MempoolEntry| e@),
        }
    }
}

/// One block soundly extends another: the hash link holds, the timestamp
/// strictly increases, and the header meets its own claimed target.
pub open spec fn linked(prev: BlockV, cur: BlockV) -> bool {
    &&& cur.header.prev_block_hash == header_hash(prev.header)
    &&& cur.header.timestamp > prev.header.timestamp
    &&& header_hash(cur.header) <= cur.header.target
}

/// The chain invariant: a genesis block links to the zero hash, and each
/// later block soundly extends its predecessor. (The genesis block
/// itself is trusted: nothing is checked of its own proof of work.)
pub open spec fn chain_wf(blocks: Seq<BlockV>) -> bool {
    &&& blocks.len() > 0 ==> blocks[0].header.prev_block_hash == 0
    &&& forall|i: int| 1 <= i < blocks.len() ==> linked(blocks[i - 1], #[trigger] blocks[i])
}

/// Timestamps never decrease along a well-formed chain.
pub proof fn lemma_timestamps_increase(blocks: Seq<BlockV>, i: int, j: int)
    requires
        chain_wf(blocks),
        0 <= i <= j < blocks.len(),
    ensures
        blocks[i].header.timestamp <= blocks[j].header.timestamp,
    decreases j - i,
{
    if i < j {
        lemma_timestamps_increase(blocks, i, j - 1);
    }
}

/// The acceptance rule of [`BlockChain::add_block`], in the order the
/// checks are made: a genesis block needs only the zero previous hash;
/// a later block must link to the tip, meet its own target, commit to
/// its transactions' Merkle root, move time forward, and pass every
/// transaction check.
pub open spec fn add_block_check(c: ChainV, b: BlockV) -> Result<(), BtcError> {
    if c.blocks.len() == 0 {
        if b.header.prev_block_hash != 0 {
            Err(BtcError::InvalidBlock)
        } else {
            Ok(())
        }
    } else {
        let last = c.blocks.last();
        if b.header.prev_block_hash != header_hash(last.header) {
            Err(BtcError::InvalidBlock)
        } else if !(header_hash(b.header) <= b.header.target) {
            Err(BtcError::InvalidBlock)
        } else if merkle_root_spec(b.transactions) != b.header.merkle_root {
            Err(BtcError::InvalidMerkleRoot)
        } else if b.header.timestamp <= last.header.timestamp {
            Err(BtcError::InvalidBlock)
        } else {
            crate::block::check_block_txs(b, c.blocks.len() as u64, crate::utxo::map_of(c.utxos))
        }
    }
}

/// Whether a block carries a transaction with the given hash.
pub open spec fn block_has_tx_hash(b: BlockV, k: nat) -> bool {
    exists|j: int| 0 <= j < b.transactions.len() && tx_hash(b.transactions[j]) == k
}

/// The mempool after a block is accepted: every entry whose transaction
/// the block carries is dropped.
pub open spec fn mempool_after_block(mp: Seq<MempoolEntryV>, b: BlockV) -> Seq<MempoolEntryV>
    decreases mp.len(),
{
    if mp.len() == 0 {
        Seq::empty()
    } else {
        let rest = mempool_after_block(mp.drop_last(), b);
        if block_has_tx_hash(b, tx_hash(mp.last().tx)) {
            rest
        } else {
            rest.push(mp.last())
        }
    }
}

/// The retargeting rule over a whole chain: at every fiftieth block,
/// rescale the target by the time the last fifty took against the ideal
/// five hundred seconds, within a factor of four and never easier than
/// the minimum target; otherwise leave it.
pub open spec fn adjust_target_spec(blocks: Seq<BlockV>, t: nat) -> nat {
    let n = blocks.len();
    if n == 0 || n % (crate::DIFFICULTY_UPDATE_INTERVAL as nat) != 0 {
        t
    } else {
        let start = blocks[n - crate::DIFFICULTY_UPDATE_INTERVAL as int].header.timestamp;
        let end = blocks[n - 1].header.timestamp;
        let elapsed = if end >= start {
            (end - start) as nat
        } else {
            0
        };
        retarget_nat(t, elapsed, (crate::IDEAL_BLOCK_TIME * crate::DIFFICULTY_UPDATE_INTERVAL) as nat)
    }
}

/// Remove the keys a list of inputs references, in order.
pub open spec fn remove_keys(
    u: Map<nat, (bool, crate::transaction::OutputV)>,
    inputs: Seq<crate::transaction::InputV>,
) -> Map<nat, (bool, crate::transaction::OutputV)>
    decreases inputs.len(),
{
    if inputs.len() == 0 {
        u
    } else {
        remove_keys(u, inputs.drop_last()).remove(inputs.last().prev_tx_output_hash)
    }
}

/// Insert every output of a transaction, unmarked, under one key: its
/// producing transaction's hash. Later outputs override earlier ones —
/// the keyspace of this design knows only the producing transaction.
pub open spec fn insert_outputs(
    u: Map<nat, (bool, crate::transaction::OutputV)>,
    k: nat,
    outputs: Seq<crate::transaction::OutputV>,
) -> Map<nat, (bool, crate::transaction::OutputV)>
    decreases outputs.len(),
{
    if outputs.len() == 0 {
        u
    } else {
        insert_outputs(u, k, outputs.drop_last()).insert(k, (false, outputs.last()))
    }
}

/// Apply one transaction to the UTXO map: delete what it spends, then
/// record what it creates.
pub open spec fn apply_tx(
    u: Map<nat, (bool, crate::transaction::OutputV)>,
    t: TxV,
) -> Map<nat, (bool, crate::transaction::OutputV)> {
    insert_outputs(remove_keys(u, t.inputs), tx_hash(t), t.outputs)
}

/// Apply a block's transactions in order.
pub open spec fn apply_txs(
    u: Map<nat, (bool, crate::transaction::OutputV)>,
    txs: Seq<TxV>,
) -> Map<nat, (bool, crate::transaction::OutputV)>
    decreases txs.len(),
{
    if txs.len() == 0 {
        u
    } else {
        apply_tx(apply_txs(u, txs.drop_last()), txs.last())
    }
}

/// The UTXO map the chain itself induces: replay every block from
/// genesis over an empty map.
pub open spec fn replay_utxos(blocks: Seq<BlockV>) -> Map<
    nat,
    (bool, crate::transaction::OutputV),
>
    decreases blocks.len(),
{
    if blocks.len() == 0 {
        Map::empty()
    } else {
        apply_txs(replay_utxos(blocks.drop_last()), blocks.last().transactions)
    }
}

impl BlockChain {
    /// The ledger's integrity: a well-formed chain, a target no easier
    /// than the minimum, and a UTXO set without duplicate keys.
    pub open spec fn wf(&self) -> bool {
        &&& chain_wf(self@.blocks)
        &&& self@.target <= min_target_nat()
        &&& crate::utxo::keys_unique(self@.utxos)
    }

    /// An empty ledger at the easiest target.
    pub fn new() -> (r: BlockChain)
        ensures
            r@.blocks.len() == 0,
            r@.mempool.len() == 0,
            r@.utxos.len() == 0,
            r@.target == min_target_nat(),
            r.wf(),
    {
        let r = BlockChain {
            utxos: UtxoMap::new(),
            target: U256::min_target(),
            blocks: Vec::new(),
            mempool: Vec::new(),
        };
        proof {
            assert(r@.blocks =~= Seq::<BlockV>::empty());
            assert(r@.mempool =~= Seq::<MempoolEntryV>::empty());
        }
        r
    }

    /// The UTXO set.
    pub fn utxos(&self) -> (r: &UtxoMap)
        ensures
            r@ == self@.utxos,
    {
        &self.utxos
    }

    /// The current proof-of-work target.
    pub fn target(&self) -> (r: U256)
        ensures
            r.as_nat() == self@.target,
    {
        self.target
    }

    /// The blocks, genesis first.
    pub fn blocks(&self) -> (r: &Vec<Block>)
        ensures
            r@.map_values(|b: Block| b@) == self@.blocks,
    {
        &self.blocks
    }

    /// How many blocks the chain holds.
    pub fn block_height(&self) -> (r: u64)
        ensures
            r == self@.blocks.len(),
    {
        self.blocks.len() as u64
    }

    /// The pending transactions, lowest fee first.
    pub fn mempool(&self) -> (r: &Vec<MempoolEntry>)
        ensures
            r@.map_values(|e: MempoolEntry| e@) == self@.mempool,
    {
        &self.mempool
    }

    /// The reward of the block at the current height.
    pub fn calculate_block_reward(&self) -> (r: u64)
        ensures
            r as nat == block_reward_spec(self@.blocks.len() as u64),
    {
        let height = self.block_height();
        reward_for_halvings(height / crate::HALVING_INTERVAL)
    }

    /// Rebuild the UTXO set from scratch: replay every block from
    /// genesis. The caller's way to bring the set in line after the
    /// chain grew.
    pub fn rebuild_utxos(&mut self)
        requires
            old(self).wf(),
        ensures
            final (self).utxos.as_map() == replay_utxos(old(self)@.blocks),
            final (self)@.blocks == old(self)@.blocks,
            final (self)@.target == old(self)@.target,
            final (self)@.mempool == old(self)@.mempool,
            final (self).wf(),
    {
        let ghost blockviews = self@.blocks;
        let mut u = UtxoMap::new();
        let nb = self.blocks.len();
        let mut bi: usize = 0;
        proof {
            assert(blockviews.take(0) =~= Seq::<BlockV>::empty());
        }
        while bi < nb
            invariant
                nb == self.blocks@.len(),
                bi <= nb,
                blockviews == self@.blocks,
                u.wf(),
                u.as_map() == replay_utxos(blockviews.take(bi as int)),
            decreases nb - bi,
        {
            let ghost txviews = blockviews[bi as int].transactions;
            let ghost u0 = u.as_map();
            let block = &self.blocks[bi];
            let nt = block.transactions.len();
            let mut ti: usize = 0;
            proof {
                assert(txviews.take(0) =~= Seq::<TxV>::empty());
                assert(apply_txs(u0, txviews.take(0)) == u0);
            }
            while ti < nt
                invariant
                    nt == block.transactions@.len(),
                    ti <= nt,
                    block == self.blocks@[bi as int],
                    bi < self.blocks@.len(),
                    blockviews == self@.blocks,
                    txviews == blockviews[bi as int].transactions,
                    u.wf(),
                    u.as_map() == apply_txs(u0, txviews.take(ti as int)),
                decreases nt - ti,
            {
                let tx = &block.transactions[ti];
                let ghost u1 = u.as_map();
                let ghost inviews = txviews[ti as int].inputs;
                let ni = tx.inputs.len();
                let mut ii: usize = 0;
                proof {
                    assert(inviews.take(0) =~= Seq::<crate::transaction::InputV>::empty());
                }
                while ii < ni
                    invariant
                        ni == tx.inputs@.len(),
                        ii <= ni,
                        tx == self.blocks@[bi as int].transactions@[ti as int],
                        bi < self.blocks@.len(),
                        ti < self.blocks@[bi as int].transactions@.len(),
                        inviews == self.blocks@[bi as int]@.transactions[ti as int].inputs,
                        u.wf(),
                        u.as_map() == remove_keys(u1, inviews.take(ii as int)),
                    decreases ni - ii,
                {
                    u.remove(&tx.inputs[ii].prev_tx_output_hash);
                    proof {
                        assert(inviews.take(ii + 1).drop_last() =~= inviews.take(ii as int));
                        assert(inviews.take(ii + 1).last() == inviews[ii as int]);
                        assert(inviews[ii as int] == tx.inputs@[ii as int]@);
                    }
                    ii = ii + 1;
                }
                proof {
                    assert(inviews.take(ni as int) =~= inviews);
                }
                let txh = tx.hash();
                let ghost u2 = u.as_map();
                let ghost outviews = txviews[ti as int].outputs;
                let no = tx.outputs.len();
                let mut oi: usize = 0;
                proof {
                    assert(outviews.take(0) =~= Seq::<crate::transaction::OutputV>::empty());
                }
                while oi < no
                    invariant
                        no == tx.outputs@.len(),
                        oi <= no,
                        tx == self.blocks@[bi as int].transactions@[ti as int],
                        bi < self.blocks@.len(),
                        ti < self.blocks@[bi as int].transactions@.len(),
                        outviews == self.blocks@[bi as int]@.transactions[ti as int].outputs,
                        txh.as_nat() == tx_hash(self.blocks@[bi as int]@.transactions[ti as int]),
                        u.wf(),
                        u.as_map() == insert_outputs(u2, txh.as_nat(), outviews.take(oi as int)),
                    decreases no - oi,
                {
                    u.insert(&txh, false, tx.outputs[oi].clone());
                    proof {
                        assert(outviews.take(oi + 1).drop_last() =~= outviews.take(oi as int));
                        assert(outviews.take(oi + 1).last() == outviews[oi as int]);
                        assert(outviews[oi as int] == tx.outputs@[oi as int]@);
                    }
                    oi = oi + 1;
                }
                proof {
                    assert(outviews.take(no as int) =~= outviews);
                    assert(txviews.take(ti + 1).drop_last() =~= txviews.take(ti as int));
                    assert(txviews.take(ti + 1).last() == txviews[ti as int]);
                    assert(tx@ == txviews[ti as int]);
                    assert(u.as_map() == apply_tx(u1, txviews[ti as int]));
                }
                ti = ti + 1;
            }
            proof {
                assert(txviews.take(nt as int) =~= txviews);
                assert(blockviews.take(bi + 1).drop_last() =~= blockviews.take(bi as int));
                assert(blockviews.take(bi + 1).last() == blockviews[bi as int]);
            }
            bi = bi + 1;
        }
        proof {
            assert(blockviews.take(nb as int) =~= blockviews);
        }
        self.utxos = u;
    }

    /// At every fiftieth block, rescale the target by the time the last
    /// fifty blocks took; otherwise do nothing.
    #[verifier::rlimit(100)]
    pub fn try_adjust_target(&mut self)
        requires
            old(self).wf(),
        ensures
            final (self)@.target == adjust_target_spec(old(self)@.blocks, old(self)@.target),
            final (self)@.blocks == old(self)@.blocks,
            final (self)@.mempool == old(self)@.mempool,
            final (self)@.utxos == old(self)@.utxos,
            final (self).wf(),
    {
        let n = self.blocks.len();
        if n == 0 {
            return ;
        }
        let interval = crate::DIFFICULTY_UPDATE_INTERVAL as usize;
        if (n as u64) % crate::DIFFICULTY_UPDATE_INTERVAL != 0 {
            return ;
        }
        let start = self.blocks[n - interval].header.timestamp;
        let end = self.blocks[n - 1].header.timestamp;
        proof {
            lemma_timestamps_increase(self@.blocks, n - interval, n - 1);
            assert(self@.blocks[n - interval].header.timestamp == start);
            assert(self@.blocks[n - 1].header.timestamp == end);
        }
        let elapsed = end - start;
        let target_seconds = crate::IDEAL_BLOCK_TIME * crate::DIFFICULTY_UPDATE_INTERVAL;
        self.target = crate::u256::retarget(&self.target, elapsed, target_seconds);
    }
}

/// Appending a block that soundly extends the tip keeps the chain
/// invariant.
pub proof fn lemma_chain_wf_push(blocks: Seq<BlockV>, b: BlockV)
    requires
        chain_wf(blocks),
        blocks.len() == 0 ==> b.header.prev_block_hash == 0,
        blocks.len() > 0 ==> linked(blocks.last(), b),
    ensures
        chain_wf(blocks.push(b)),
{
    let t = blocks.push(b);
    assert forall|i: int| 1 <= i < t.len() implies linked(t[i - 1], #[trigger] t[i]) by {
        if i < t.len() - 1 {
            assert(t[i] == blocks[i]);
            assert(t[i - 1] == blocks[i - 1]);
        } else {
            assert(t[i] == b);
            assert(t[i - 1] == blocks.last());
        }
    }
}

/// Drop from the mempool every entry whose transaction the block carries.
fn mempool_without_block_txs(mempool: &Vec<MempoolEntry>, block: &Block) -> (r: Vec<
    MempoolEntry,
>)
    ensures
        r@.map_values(|e: MempoolEntry| e@) == mempool_after_block(
            mempool@.map_values(|e: MempoolEntry| e@),
            block@,
        ),
{
    let ghost bview = block@;
    let ghost txviews = block@.transactions;
    let ghost mpviews = mempool@.map_values(|e: MempoolEntry| e@);
    let mut tx_hashes: Vec<hash::Hash> = Vec::new();
    let nt = block.transactions.len();
    let mut i: usize = 0;
    while i < nt
        invariant
            nt == block.transactions@.len(),
            i <= nt,
            bview == block@,
            txviews == block@.transactions,
            tx_hashes@.len() == i,
            forall|j: int|
                0 <= j < i ==> #[trigger] tx_hashes@[j].as_nat() == tx_hash(txviews[j]),
        decreases nt - i,
    {
        let h = block.transactions[i].hash();
        tx_hashes.push(h);
        i = i + 1;
    }
    proof {
        assert forall|k: nat|
            crate::block::hash_set(tx_hashes@).contains(k) == block_has_tx_hash(
                bview,
                k,
            ) by {
            if crate::block::hash_set(tx_hashes@).contains(k) {
                let j = choose|j: int|
                    0 <= j < tx_hashes@.len() && tx_hashes@[j].as_nat() == k;
                assert(tx_hash(txviews[j]) == k);
                assert(block_has_tx_hash(bview, k));
            }
            if block_has_tx_hash(bview, k) {
                let j = choose|j: int| 0 <= j < txviews.len() && tx_hash(txviews[j]) == k;
                assert(tx_hashes@[j].as_nat() == k);
                assert(crate::block::hash_set(tx_hashes@).contains(k));
            }
        }
    }
    let mut kept: Vec<MempoolEntry> = Vec::new();
    let nm = mempool.len();
    let mut mi: usize = 0;
    proof {
        assert(mpviews.take(0) =~= Seq::<MempoolEntryV>::empty());
        assert(kept@.map_values(|e: MempoolEntry| e@) =~= Seq::<MempoolEntryV>::empty());
    }
    while mi < nm
        invariant
            nm == mempool@.len(),
            mi <= nm,
            bview == block@,
            mpviews == mempool@.map_values(|e: MempoolEntry| e@),
            forall|k: nat|
                crate::block::hash_set(tx_hashes@).contains(k) == block_has_tx_hash(bview, k),
            kept@.map_values(|e: MempoolEntry| e@) == mempool_after_block(
                mpviews.take(mi as int),
                bview,
            ),
        decreases nm - mi,
    {
        let entry = &mempool[mi];
        let th = entry.tx.hash();
        let ghost pre_kept = kept@.map_values(|e: MempoolEntry| e@);
        proof {
            assert(mpviews.take(mi + 1).drop_last() =~= mpviews.take(mi as int));
            assert(mpviews.take(mi + 1).last() == mpviews[mi as int]);
            assert(mpviews[mi as int] == mempool@[mi as int]@);
            assert(th.as_nat() == tx_hash(mpviews[mi as int].tx));
        }
        if !crate::block::hash_in(&tx_hashes, &th) {
            kept.push(entry.clone());
            proof {
                assert(kept@.map_values(|e: MempoolEntry| e@) =~= pre_kept.push(
                    mpviews[mi as int],
                ));
            }
        }
        mi = mi + 1;
    }
    proof {
        assert(mpviews.take(nm as int) =~= mpviews);
    }
    kept
}

impl BlockChain {
    /// Decide whether a block may extend this chain, without changing
    /// anything: the acceptance rule of [`BlockChain::add_block`].
    fn acceptance_check(&self, block: &Block) -> (r: Result<(), BtcError>)
        requires
            self.wf(),
        ensures
            r == add_block_check(self@, block@),
    {
        let ghost pre = self@;
        if self.blocks.len() == 0 {
            if !block.header.prev_block_hash.is_zero() {
                return Err(BtcError::InvalidBlock);
            }
            return Ok(());
        }
        let lastidx = self.blocks.len() - 1;
        let last_hash = self.blocks[lastidx].hash();
        proof {
            assert(pre.blocks.last() == self.blocks@[lastidx as int]@);
        }
        if !block.header.prev_block_hash.hash_eq(&last_hash) {
            return Err(BtcError::InvalidBlock);
        }
        let bh = block.header.hash();
        if !bh.matches_target(block.header.target) {
            return Err(BtcError::InvalidBlock);
        }
        let root = crate::merkle::calculate_merkle_root(&block.transactions);
        if !root.hash_eq(&block.header.merkle_root) {
            return Err(BtcError::InvalidMerkleRoot);
        }
        if block.header.timestamp <= self.blocks[lastidx].header.timestamp {
            return Err(BtcError::InvalidBlock);
        }
        let height = self.block_height();
        block.verify_transactions(height, &self.utxos)
    }

    /// The sole entry for chain extension. A genesis block is accepted
    /// on the zero previous hash alone; a later block must link to the
    /// tip, meet its own target, commit to its transactions' Merkle
    /// root, move time forward, and pass every transaction check. On
    /// acceptance the block's transactions leave the mempool, the block
    /// is appended, and the target is adjusted; the UTXO set is not
    /// touched — callers follow structural changes with
    /// [`BlockChain::rebuild_utxos`]. On rejection the ledger is
    /// unchanged.
    pub fn add_block(&mut self, block: Block) -> (r: Result<(), BtcError>)
        requires
            old(self).wf(),
        ensures
            r == add_block_check(old(self)@, block@),
            r is Ok ==> final (self)@.blocks == old(self)@.blocks.push(block@) && final (
            self)@.mempool == mempool_after_block(old(self)@.mempool, block@) && final (
            self)@.target == adjust_target_spec(
                old(self)@.blocks.push(block@),
                old(self)@.target,
            ) && final (self)@.utxos == old(self)@.utxos,
            r is Err ==> *final (self) == *old(self),
            final (self).wf(),
    {
        let ghost pre = self@;
        let chk = self.acceptance_check(&block);
        proof {
            assert(chk == add_block_check(pre, block@));
        }
        match chk {
            Err(e) => {
                return Err(e);
            },
            Ok(u) => {
                proof {
                    assert(chk == Ok::<(), BtcError>(u));
                }
            },
        }
        let ghost bview = block@;
        let kept = mempool_without_block_txs(&self.mempool, &block);
        self.mempool = kept;
        let ghost old_blocks = self@.blocks;
        proof {
            assert(old_blocks == pre.blocks);
        }
        self.blocks.push(block);
        proof {
            assert(self@.blocks =~= old_blocks.push(bview));
            lemma_chain_wf_push(pre.blocks, bview);
        }
        self.try_adjust_target();
        proof {
            assert(pre == old(self)@);
            assert(bview == block@);
            assert(add_block_check(pre, bview) == Ok::<(), BtcError>(()));
        }
        Ok(())
    }
}

/// A mempool candidate's inputs are admissible: every referenced UTXO
/// exists and no key is referenced twice within the transaction.
pub open spec fn tx_inputs_admissible(u: Map<nat, (bool, OutputV)>, t: TxV) -> bool {
    &&& forall|i: int|
        0 <= i < t.inputs.len() ==> u.dom().contains(
            #[trigger] t.inputs[i].prev_tx_output_hash,
        )
    &&& forall|i: int, j: int|
        0 <= i < j < t.inputs.len() ==> t.inputs[i].prev_tx_output_hash
            != t.inputs[j].prev_tx_output_hash
}

/// Whether a transaction has an output hashing to the given key. The
/// mempool's conflict search goes by this: in this design's keyspace a
/// UTXO key is the producing transaction's hash, and the search relies
/// on the two coinciding.
pub open spec fn tx_makes_output_hash(t: TxV, k: nat) -> bool {
    exists|j: int| 0 <= j < t.outputs.len() && crate::codec::output_hash(t.outputs[j]) == k
}

/// The first mempool entry one of whose outputs hashes to the key.
pub open spec fn find_referencing(mp: Seq<MempoolEntryV>, k: nat) -> Option<int>
    decreases mp.len(),
{
    if mp.len() == 0 {
        None
    } else if tx_makes_output_hash(mp.first().tx, k) {
        Some(0)
    } else {
        match find_referencing(mp.drop_first(), k) {
            Some(i) => Some(i + 1),
            None => None,
        }
    }
}

/// Set the mark of each key in turn.
pub open spec fn set_marks(
    u: Map<nat, (bool, OutputV)>,
    keys: Seq<nat>,
    marked: bool,
) -> Map<nat, (bool, OutputV)>
    decreases keys.len(),
{
    if keys.len() == 0 {
        u
    } else {
        set_marked_spec(set_marks(u, keys.drop_last(), marked), keys.last(), marked)
    }
}

/// Resolve one possibly-conflicting input of a candidate: if its UTXO is
/// marked, evict the first mempool transaction whose outputs hash to the
/// key, unmarking that transaction's inputs; if none is found, just
/// unmark the key.
pub open spec fn resolve_one(
    u: Map<nat, (bool, OutputV)>,
    mp: Seq<MempoolEntryV>,
    k: nat,
) -> (Map<nat, (bool, OutputV)>, Seq<MempoolEntryV>) {
    if u.dom().contains(k) && u[k].0 {
        match find_referencing(mp, k) {
            Some(i) => (set_marks(u, input_keys(mp[i].tx.inputs), false), mp.remove(i)),
            None => (set_marked_spec(u, k, false), mp),
        }
    } else {
        (u, mp)
    }
}

/// Resolve the candidate's input keys in order.
pub open spec fn resolve_conflicts(
    u: Map<nat, (bool, OutputV)>,
    mp: Seq<MempoolEntryV>,
    keys: Seq<nat>,
) -> (Map<nat, (bool, OutputV)>, Seq<MempoolEntryV>)
    decreases keys.len(),
{
    if keys.len() == 0 {
        (u, mp)
    } else {
        let p = resolve_one(u, mp, keys.first());
        resolve_conflicts(p.0, p.1, keys.drop_first())
    }
}

/// The total value the UTXO set holds for a list of inputs; an absent
/// key contributes nothing.
pub open spec fn sum_input_values(u: Map<nat, (bool, OutputV)>, inputs: Seq<InputV>) -> nat
    decreases inputs.len(),
{
    if inputs.len() == 0 {
        0
    } else {
        sum_input_values(u, inputs.drop_last()) + (if u.dom().contains(
            inputs.last().prev_tx_output_hash,
        ) {
            u[inputs.last().prev_tx_output_hash].1.value as nat
        } else {
            0
        })
    }
}

/// A pending transaction's fee: input value it can draw minus output
/// value, never below zero.
pub open spec fn entry_fee(u: Map<nat, (bool, OutputV)>, t: TxV) -> nat {
    let vin = sum_input_values(u, t.inputs);
    let vout = sum_outputs(t.outputs);
    if vin >= vout {
        (vin - vout) as nat
    } else {
        0
    }
}

/// Insert an entry into a mempool directly before every entry whose fee
/// exceeds its own: where a stable sort by fee would put a new arrival.
pub open spec fn insert_by_fee(
    u: Map<nat, (bool, OutputV)>,
    s: Seq<MempoolEntryV>,
    e: MempoolEntryV,
) -> Seq<MempoolEntryV>
    decreases s.len(),
{
    if s.len() == 0 {
        seq![e]
    } else if entry_fee(u, s.last().tx) > entry_fee(u, e.tx) {
        insert_by_fee(u, s.drop_last(), e).push(s.last())
    } else {
        s.push(e)
    }
}

/// Sort a mempool ascending by fee, stably: the result of a stable sort,
/// built by inserting each entry in turn.
pub open spec fn sort_by_fee(u: Map<nat, (bool, OutputV)>, s: Seq<MempoolEntryV>) -> Seq<
    MempoolEntryV,
>
    decreases s.len(),
{
    if s.len() == 0 {
        Seq::empty()
    } else {
        insert_by_fee(u, sort_by_fee(u, s.drop_last()), s.last())
    }
}

/// Inserting at the position bounded below by a fee no larger and above
/// by fees strictly larger is what [`insert_by_fee`] does.
pub proof fn lemma_insert_by_fee_at(
    u: Map<nat, (bool, OutputV)>,
    s: Seq<MempoolEntryV>,
    e: MempoolEntryV,
    j: int,
)
    requires
        0 <= j <= s.len(),
        forall|l: int| j <= l < s.len() ==> entry_fee(u, #[trigger] s[l].tx) > entry_fee(u, e.tx),
        j > 0 ==> entry_fee(u, s[j - 1].tx) <= entry_fee(u, e.tx),
    ensures
        insert_by_fee(u, s, e) == s.take(j) + seq![e] + s.skip(j),
    decreases s.len(),
{
    if s.len() == 0 {
        assert(insert_by_fee(u, s, e) =~= s.take(j) + seq![e] + s.skip(j));
    } else if j == s.len() {
        assert(insert_by_fee(u, s, e) == s.push(e));
        assert(s.push(e) =~= s.take(j) + seq![e] + s.skip(j));
    } else {
        assert(entry_fee(u, s[s.len() - 1].tx) > entry_fee(u, e.tx));
        let dl = s.drop_last();
        assert(forall|l: int|
            j <= l < dl.len() ==> entry_fee(u, #[trigger] dl[l].tx) > entry_fee(u, e.tx));
        if j > 0 {
            assert(dl[j - 1] == s[j - 1]);
        }
        lemma_insert_by_fee_at(u, dl, e, j);
        assert(insert_by_fee(u, s, e) == (dl.take(j) + seq![e] + dl.skip(j)).push(s.last()));
        assert((dl.take(j) + seq![e] + dl.skip(j)).push(s.last()) =~= s.take(j) + seq![e]
            + s.skip(j));
    }
}

/// Whether a mempool entry survives a cleanup at the given time.
pub open spec fn entry_fresh(e: MempoolEntryV, now: u64) -> bool {
    !(now > e.time + crate::MAX_MEMPOOL_TRANSACTION_AGE)
}

/// The mempool after a cleanup: entries older than the age cap leave.
pub open spec fn mempool_after_cleanup(mp: Seq<MempoolEntryV>, now: u64) -> Seq<MempoolEntryV>
    decreases mp.len(),
{
    if mp.len() == 0 {
        Seq::empty()
    } else {
        let rest = mempool_after_cleanup(mp.drop_last(), now);
        if entry_fresh(mp.last(), now) {
            rest.push(mp.last())
        } else {
            rest
        }
    }
}

/// The input keys of the entries a cleanup evicts, in mempool order.
pub open spec fn expired_keys(mp: Seq<MempoolEntryV>, now: u64) -> Seq<nat>
    decreases mp.len(),
{
    if mp.len() == 0 {
        Seq::empty()
    } else {
        let rest = expired_keys(mp.drop_last(), now);
        if entry_fresh(mp.last(), now) {
            rest
        } else {
            rest + input_keys(mp.last().tx.inputs)
        }
    }
}

/// The values a list of hashes denotes, as a sequence.
pub open spec fn hash_nats(s: Seq<hash::Hash>) -> Seq<nat> {
    s.map_values(|h: hash::Hash| h.as_nat())
}

/// Total the value the UTXO set holds for a transaction's inputs.
fn sum_input_values_exec(u: &UtxoMap, inputs: &Vec<TransactionInput>) -> (r: u128)
    requires
        u.wf(),
    ensures
        r as nat == sum_input_values(u.as_map(), inputs@.map_values(|i: TransactionInput| i@)),
{
    let ghost m = inputs@.map_values(|i: TransactionInput| i@);
    let n = inputs.len();
    let mut acc: u128 = 0;
    let mut i: usize = 0;
    proof {
        assert(m.take(0) =~= Seq::<InputV>::empty());
    }
    while i < n
        invariant
            u.wf(),
            i <= n,
            n == inputs@.len(),
            m == inputs@.map_values(|x: TransactionInput| x@),
            acc as nat == sum_input_values(u.as_map(), m.take(i as int)),
            acc as nat <= i * 0xffff_ffff_ffff_ffffnat,
        decreases n - i,
    {
        let got = u.get(&inputs[i].prev_tx_output_hash);
        proof {
            assert(m.take(i + 1).drop_last() =~= m.take(i as int));
            assert(m.take(i + 1).last() == m[i as int]);
            assert(m[i as int] == inputs@[i as int]@);
            assert(acc + 0xffff_ffff_ffff_ffffnat <= (i + 1) * 0xffff_ffff_ffff_ffffnat)
                by (nonlinear_arith)
                requires
                    acc as nat <= i * 0xffff_ffff_ffff_ffffnat,
            ;
            assert((i + 1) * 0xffff_ffff_ffff_ffffnat <= 0x1_0000_0000_0000_0000nat
                * 0xffff_ffff_ffff_ffffnat) by (nonlinear_arith)
                requires
                    i + 1 <= 0x1_0000_0000_0000_0000nat,
            ;
        }
        match got {
            Some(p) => {
                acc = acc + p.1.value as u128;
            },
            None => {},
        }
        i = i + 1;
    }
    proof {
        assert(m.take(n as int) =~= m);
    }
    acc
}

/// A pending transaction's fee against the current UTXO set.
pub(crate) fn mempool_fee_pub(u: &UtxoMap, tx: &Transaction) -> (r: u128)
    requires
        u.wf(),
    ensures
        r as nat == entry_fee(u.as_map(), tx@),
{
    let vin = sum_input_values_exec(u, &tx.inputs);
    let vout = crate::transaction::sum_output_values(&tx.outputs);
    if vin >= vout {
        vin - vout
    } else {
        0
    }
}

/// Insert an entry where a stable sort by fee would put it.
fn insert_entry_by_fee(u: &UtxoMap, res: &mut Vec<MempoolEntry>, e: MempoolEntry)
    requires
        u.wf(),
    ensures
        final (res)@.map_values(|x: MempoolEntry| x@) == insert_by_fee(
            u.as_map(),
            old(res)@.map_values(|x: MempoolEntry| x@),
            e@,
        ),
{
    let ghost m = res@.map_values(|x: MempoolEntry| x@);
    let fee_e = mempool_fee_pub(u, &e.tx);
    let n = res.len();
    let mut j: usize = n;
    let mut done = false;
    while !done && j > 0
        invariant
            j <= n,
            n == res@.len(),
            m == res@.map_values(|x: MempoolEntry| x@),
            fee_e as nat == entry_fee(u.as_map(), e@.tx),
            u.wf(),
            forall|l: int|
                j <= l < n ==> entry_fee(u.as_map(), #[trigger] m[l].tx) > entry_fee(
                    u.as_map(),
                    e@.tx,
                ),
            done ==> j > 0 && entry_fee(u.as_map(), m[j - 1].tx) <= entry_fee(
                u.as_map(),
                e@.tx,
            ),
        decreases (if done { 0int } else { j + 1 }),
    {
        let fee_j = mempool_fee_pub(u, &res[j - 1].tx);
        proof {
            assert(m[j - 1] == res@[j - 1 as int]@);
        }
        if fee_j <= fee_e {
            done = true;
        } else {
            j = j - 1;
        }
    }
    proof {
        lemma_insert_by_fee_at(u.as_map(), m, e@, j as int);
    }
    res.insert(j, e);
    proof {
        assert(res@.map_values(|x: MempoolEntry| x@) =~= m.take(j as int) + seq![e@] + m.skip(
            j as int,
        ));
    }
}

/// Whether one of a transaction's outputs hashes to the key.
fn tx_has_output_hash(tx: &Transaction, k: &hash::Hash) -> (r: bool)
    ensures
        r == tx_makes_output_hash(tx@, k.as_nat()),
{
    let n = tx.outputs.len();
    let mut j: usize = 0;
    while j < n
        invariant
            j <= n,
            n == tx.outputs@.len(),
            forall|l: int|
                0 <= l < j ==> crate::codec::output_hash(#[trigger] tx@.outputs[l])
                    != k.as_nat(),
        decreases n - j,
    {
        let oh = tx.outputs[j].hash();
        proof {
            assert(tx@.outputs[j as int] == tx.outputs@[j as int]@);
        }
        if oh.hash_eq(k) {
            return true;
        }
        j = j + 1;
    }
    false
}

/// The first index whose transaction has an output hashing to the key,
/// scanning forward, gives [`find_referencing`].
proof fn lemma_find_referencing_some(mp: Seq<MempoolEntryV>, k: nat, i: int)
    requires
        0 <= i < mp.len(),
        tx_makes_output_hash(mp[i].tx, k),
        forall|l: int| 0 <= l < i ==> !tx_makes_output_hash(#[trigger] mp[l].tx, k),
    ensures
        find_referencing(mp, k) == Some(i),
    decreases i,
{
    if i == 0 {
    } else {
        let rest = mp.drop_first();
        assert(rest[i - 1] == mp[i]);
        assert(forall|l: int|
            0 <= l < i - 1 ==> !tx_makes_output_hash(#[trigger] rest[l].tx, k)) by {
            assert(forall|l: int| 0 <= l < i - 1 ==> rest[l] == mp[l + 1]);
        }
        lemma_find_referencing_some(rest, k, i - 1);
        assert(!tx_makes_output_hash(mp.first().tx, k));
    }
}

/// With no transaction referencing the key, nothing is found.
proof fn lemma_find_referencing_none(mp: Seq<MempoolEntryV>, k: nat)
    requires
        forall|l: int| 0 <= l < mp.len() ==> !tx_makes_output_hash(#[trigger] mp[l].tx, k),
    ensures
        find_referencing(mp, k) is None,
    decreases mp.len(),
{
    if mp.len() > 0 {
        let rest = mp.drop_first();
        assert(forall|l: int| 0 <= l < rest.len() ==> rest[l] == mp[l + 1]);
        lemma_find_referencing_none(rest, k);
    }
}

/// Find the first mempool entry one of whose outputs hashes to the key.
fn find_referencing_exec(mp: &Vec<MempoolEntry>, k: &hash::Hash) -> (r: Option<usize>)
    ensures
        match r {
            Some(i) => i < mp@.len() && find_referencing(
                mp@.map_values(|x: MempoolEntry| x@),
                k.as_nat(),
            ) == Some(i as int),
            None => find_referencing(mp@.map_values(|x: MempoolEntry| x@), k.as_nat()) is None,
        },
{
    let ghost m = mp@.map_values(|x: MempoolEntry| x@);
    let n = mp.len();
    let mut i: usize = 0;
    while i < n
        invariant
            i <= n,
            n == mp@.len(),
            m == mp@.map_values(|x: MempoolEntry| x@),
            forall|l: int| 0 <= l < i ==> !tx_makes_output_hash(#[trigger] m[l].tx, k.as_nat()),
        decreases n - i,
    {
        proof {
            assert(m[i as int] == mp@[i as int]@);
        }
        if tx_has_output_hash(&mp[i].tx, k) {
            proof {
                lemma_find_referencing_some(m, k.as_nat(), i as int);
            }
            return Some(i);
        }
        i = i + 1;
    }
    proof {
        lemma_find_referencing_none(m, k.as_nat());
    }
    None
}

impl BlockChain {
    /// Unmark (or mark) the keys a list of hashes names, in order.
    fn set_marks_exec(&mut self, keys: &Vec<hash::Hash>, marked: bool)
        requires
            old(self).utxos.wf(),
        ensures
            final (self).utxos.as_map() == set_marks(
                old(self).utxos.as_map(),
                hash_nats(keys@),
                marked,
            ),
            final (self).utxos.wf(),
            final (self).blocks == old(self).blocks,
            final (self).mempool == old(self).mempool,
            final (self).target == old(self).target,
    {
        let ghost u0 = self.utxos.as_map();
        let ghost ks = hash_nats(keys@);
        let n = keys.len();
        let mut i: usize = 0;
        proof {
            assert(ks.take(0) =~= Seq::<nat>::empty());
        }
        while i < n
            invariant
                i <= n,
                n == keys@.len(),
                ks == hash_nats(keys@),
                self.utxos.wf(),
                self.utxos.as_map() == set_marks(u0, ks.take(i as int), marked),
                self.blocks == old(self).blocks,
                self.mempool == old(self).mempool,
                self.target == old(self).target,
                u0 == old(self).utxos.as_map(),
            decreases n - i,
        {
            self.utxos.set_marked(&keys[i], marked);
            proof {
                assert(ks.take(i + 1).drop_last() =~= ks.take(i as int));
                assert(ks.take(i + 1).last() == ks[i as int]);
                assert(ks[i as int] == keys@[i as int].as_nat());
            }
            i = i + 1;
        }
        proof {
            assert(ks.take(n as int) =~= ks);
        }
    }

    /// Admit a transaction to the mempool. Its inputs must all exist in
    /// the UTXO set, none twice. An input whose UTXO is already marked
    /// is a conflict: the first mempool transaction whose outputs hash
    /// to the contested key is evicted and its inputs unmarked (the key
    /// alone is unmarked when no such transaction is found). The inputs
    /// must then cover the outputs — if they do not, the transaction is
    /// rejected, but the evictions stand. On admission the input UTXOs
    /// are marked and the entry enters the mempool at its place by fee.
    #[verifier::rlimit(100)]
    pub fn add_to_mempool(&mut self, tx: Transaction, now: u64) -> (r: Result<(), BtcError>)
        requires
            old(self).wf(),
        ensures
            final (self)@.blocks == old(self)@.blocks,
            final (self)@.target == old(self)@.target,
            final (self).wf(),
            !tx_inputs_admissible(old(self).utxos.as_map(), tx@) ==> r == Err::<(), BtcError>(
                BtcError::InvalidTransaction,
            ) && *final (self) == *old(self),
            tx_inputs_admissible(old(self).utxos.as_map(), tx@) ==> ({
                let p = resolve_conflicts(
                    old(self).utxos.as_map(),
                    old(self)@.mempool,
                    input_keys(tx@.inputs),
                );
                if sum_input_values(p.0, tx@.inputs) < sum_outputs(tx@.outputs) {
                    r == Err::<(), BtcError>(BtcError::InvalidTransaction) && final (
                    self).utxos.as_map() == p.0 && final (self)@.mempool == p.1
                } else {
                    let marked = set_marks(p.0, input_keys(tx@.inputs), true);
                    r == Ok::<(), BtcError>(()) && final (self).utxos.as_map() == marked
                        && final (self)@.mempool == sort_by_fee(
                        marked,
                        p.1.push((MempoolEntryV { time: now, tx: tx@ })),
                    )
                }
            }),
    {
        let ghost u0 = self.utxos.as_map();
        let ghost keys = input_keys(tx@.inputs);
        let ni = tx.inputs.len();
        let mut i: usize = 0;
        while i < ni
            invariant
                i <= ni,
                ni == tx.inputs@.len(),
                old(self).wf(),
                *self == *old(self),
                u0 == self.utxos.as_map(),
                forall|l: int|
                    0 <= l < i ==> u0.dom().contains(
                        #[trigger] tx@.inputs[l].prev_tx_output_hash,
                    ),
                forall|a: int, b: int|
                    0 <= a < b < i ==> tx@.inputs[a].prev_tx_output_hash
                        != tx@.inputs[b].prev_tx_output_hash,
            decreases ni - i,
        {
            proof {
                assert(tx@.inputs.len() == tx.inputs@.len());
                assert(tx@.inputs[i as int] == tx.inputs@[i as int]@);
            }
            if !self.utxos.contains_key(&tx.inputs[i].prev_tx_output_hash) {
                proof {
                    assert(!u0.dom().contains(tx@.inputs[i as int].prev_tx_output_hash));
                    assert(!tx_inputs_admissible(u0, tx@));
                }
                return Err(BtcError::InvalidTransaction);
            }
            let mut j: usize = 0;
            while j < i
                invariant
                    j <= i < ni,
                    ni == tx.inputs@.len(),
                    old(self).wf(),
                    *self == *old(self),
                    forall|a: int|
                        0 <= a < j ==> tx@.inputs[a].prev_tx_output_hash
                            != tx@.inputs[i as int].prev_tx_output_hash,
                decreases i - j,
            {
                proof {
                    assert(tx@.inputs.len() == tx.inputs@.len());
                    assert(tx@.inputs[j as int] == tx.inputs@[j as int]@);
                    assert(tx@.inputs[i as int] == tx.inputs@[i as int]@);
                }
                if tx.inputs[j].prev_tx_output_hash.hash_eq(&tx.inputs[i].prev_tx_output_hash) {
                    proof {
                        assert(tx@.inputs[j as int].prev_tx_output_hash == tx@.inputs[
                            i as int
                        ].prev_tx_output_hash);
                        assert(!tx_inputs_admissible(u0, tx@));
                    }
                    return Err(BtcError::InvalidTransaction);
                }
                j = j + 1;
            }
            i = i + 1;
        }
        proof {
            assert(tx_inputs_admissible(u0, tx@));
        }
        let ghost mp0 = self@.mempool;
        let mut ci: usize = 0;
        proof {
            assert(keys.skip(0) =~= keys);
        }
        while ci < ni
            invariant
                ci <= ni,
                ni == tx.inputs@.len(),
                keys == input_keys(tx@.inputs),
                old(self).wf(),
                self.utxos.wf(),
                self.blocks == old(self).blocks,
                self.target == old(self).target,
                resolve_conflicts(u0, mp0, keys) == resolve_conflicts(
                    self.utxos.as_map(),
                    self@.mempool,
                    keys.skip(ci as int),
                ),
            decreases ni - ci,
        {
            let ghost rest = keys.skip(ci as int);
            proof {
                assert(rest.first() == keys[ci as int]);
                assert(keys[ci as int] == tx@.inputs[ci as int].prev_tx_output_hash);
                assert(tx@.inputs[ci as int] == tx.inputs@[ci as int]@);
                assert(rest.drop_first() =~= keys.skip(ci + 1));
            }
            let k = &tx.inputs[ci].prev_tx_output_hash;
            let ghost u_before = self.utxos.as_map();
            let ghost mp_before = self@.mempool;
            let marked_now = match self.utxos.get(k) {
                Some(p) => p.0,
                None => false,
            };
            if marked_now {
                match find_referencing_exec(&self.mempool, k) {
                    Some(idx) => {
                        let mut victim_keys: Vec<hash::Hash> = Vec::new();
                        let ghost vkeys = input_keys(mp_before[idx as int].tx.inputs);
                        let nv = self.mempool[idx].tx.inputs.len();
                        let mut vi: usize = 0;
                        while vi < nv
                            invariant
                                vi <= nv,
                                idx < self.mempool@.len(),
                                nv == self.mempool@[idx as int].tx.inputs@.len(),
                                vkeys == input_keys(self.mempool@[idx as int]@.tx.inputs),
                                victim_keys@.len() == vi,
                                forall|l: int|
                                    0 <= l < vi ==> #[trigger] victim_keys@[l].as_nat()
                                        == vkeys[l],
                            decreases nv - vi,
                        {
                            proof {
                                assert(self.mempool@[idx as int]@.tx.inputs[vi as int]
                                    == self.mempool@[idx as int].tx.inputs@[vi as int]@);
                            }
                            victim_keys.push(self.mempool[idx].tx.inputs[vi].prev_tx_output_hash);
                            vi = vi + 1;
                        }
                        proof {
                            assert(hash_nats(victim_keys@) =~= vkeys);
                        }
                        self.set_marks_exec(&victim_keys, false);
                        self.mempool.remove(idx);
                        proof {
                            assert(self@.mempool =~= mp_before.remove(idx as int));
                        }
                    },
                    None => {
                        self.utxos.set_marked(k, false);
                    },
                }
            }
            proof {
                assert((self.utxos.as_map(), self@.mempool) == resolve_one(
                    u_before,
                    mp_before,
                    k.as_nat(),
                ));
            }
            ci = ci + 1;
        }
        proof {
            assert(keys.skip(ni as int).len() == 0);
        }
        let ghost p = resolve_conflicts(u0, mp0, keys);
        proof {
            assert(p == (self.utxos.as_map(), self@.mempool));
        }
        let vin = sum_input_values_exec(&self.utxos, &tx.inputs);
        let vout = crate::transaction::sum_output_values(&tx.outputs);
        if vin < vout {
            return Err(BtcError::InvalidTransaction);
        }
        let mut mark_keys: Vec<hash::Hash> = Vec::new();
        let mut mk: usize = 0;
        while mk < ni
            invariant
                mk <= ni,
                ni == tx.inputs@.len(),
                keys == input_keys(tx@.inputs),
                mark_keys@.len() == mk,
                forall|l: int| 0 <= l < mk ==> #[trigger] mark_keys@[l].as_nat() == keys[l],
            decreases ni - mk,
        {
            proof {
                assert(tx@.inputs[mk as int] == tx.inputs@[mk as int]@);
            }
            mark_keys.push(tx.inputs[mk].prev_tx_output_hash);
            mk = mk + 1;
        }
        proof {
            assert(hash_nats(mark_keys@) =~= keys);
        }
        self.set_marks_exec(&mark_keys, true);
        let ghost u3 = self.utxos.as_map();
        let ghost mp2 = self@.mempool;
        let mut sorted: Vec<MempoolEntry> = Vec::new();
        let nm = self.mempool.len();
        let mut si: usize = 0;
        proof {
            assert(mp2.take(0) =~= Seq::<MempoolEntryV>::empty());
            assert(sorted@.map_values(|x: MempoolEntry| x@) =~= sort_by_fee(u3, mp2.take(0)));
        }
        while si < nm
            invariant
                si <= nm,
                nm == self.mempool@.len(),
                mp2 == self@.mempool,
                u3 == self.utxos.as_map(),
                old(self).wf(),
                self.utxos.wf(),
                self.blocks == old(self).blocks,
                self.target == old(self).target,
                sorted@.map_values(|x: MempoolEntry| x@) == sort_by_fee(
                    u3,
                    mp2.take(si as int),
                ),
            decreases nm - si,
        {
            let entry = self.mempool[si].clone();
            insert_entry_by_fee(&self.utxos, &mut sorted, entry);
            proof {
                assert(mp2.take(si + 1).drop_last() =~= mp2.take(si as int));
                assert(mp2.take(si + 1).last() == mp2[si as int]);
                assert(mp2[si as int] == self.mempool@[si as int]@);
            }
            si = si + 1;
        }
        proof {
            assert(mp2.take(nm as int) =~= mp2);
        }
        let entry = MempoolEntry { time: now, tx };
        proof {
            assert(mp2.push(entry@).drop_last() =~= mp2);
            assert(mp2.push(entry@).last() == entry@);
        }
        insert_entry_by_fee(&self.utxos, &mut sorted, entry);
        self.mempool = sorted;
        Ok(())
    }
}

impl BlockChain {
    /// Evict every mempool entry older than the age cap and unmark the
    /// UTXOs its inputs held.
    pub fn cleanup_mempool(&mut self, now: u64)
        requires
            old(self).wf(),
        ensures
            final (self)@.mempool == mempool_after_cleanup(old(self)@.mempool, now),
            final (self).utxos.as_map() == set_marks(
                old(self).utxos.as_map(),
                expired_keys(old(self)@.mempool, now),
                false,
            ),
            final (self)@.blocks == old(self)@.blocks,
            final (self)@.target == old(self)@.target,
            final (self).wf(),
    {
        let ghost mp0 = self@.mempool;
        let mut kept: Vec<MempoolEntry> = Vec::new();
        let mut unmark: Vec<hash::Hash> = Vec::new();
        let nm = self.mempool.len();
        let mut i: usize = 0;
        proof {
            assert(mp0.take(0) =~= Seq::<MempoolEntryV>::empty());
            assert(kept@.map_values(|x: MempoolEntry| x@) =~= mempool_after_cleanup(
                mp0.take(0),
                now,
            ));
            assert(hash_nats(unmark@) =~= expired_keys(mp0.take(0), now));
        }
        while i < nm
            invariant
                i <= nm,
                nm == self.mempool@.len(),
                mp0 == self@.mempool,
                kept@.map_values(|x: MempoolEntry| x@) == mempool_after_cleanup(
                    mp0.take(i as int),
                    now,
                ),
                hash_nats(unmark@) == expired_keys(mp0.take(i as int), now),
            decreases nm - i,
        {
            let e = &self.mempool[i];
            let ghost pre_kept = kept@.map_values(|x: MempoolEntry| x@);
            let ghost pre_unmark = hash_nats(unmark@);
            proof {
                assert(mp0.take(i + 1).drop_last() =~= mp0.take(i as int));
                assert(mp0.take(i + 1).last() == mp0[i as int]);
                assert(mp0[i as int] == self.mempool@[i as int]@);
            }
            if (now as u128) > (e.time as u128) + (crate::MAX_MEMPOOL_TRANSACTION_AGE as u128) {
                let ghost vkeys = input_keys(mp0[i as int].tx.inputs);
                let nv = e.tx.inputs.len();
                let mut vi: usize = 0;
                proof {
                    assert(vkeys.take(0) =~= Seq::<nat>::empty());
                    assert(hash_nats(unmark@) =~= pre_unmark + vkeys.take(0));
                }
                while vi < nv
                    invariant
                        vi <= nv,
                        i < self.mempool@.len(),
                        e == self.mempool@[i as int],
                        nv == e.tx.inputs@.len(),
                        vkeys == input_keys(self.mempool@[i as int]@.tx.inputs),
                        hash_nats(unmark@) == pre_unmark + vkeys.take(vi as int),
                    decreases nv - vi,
                {
                    proof {
                        assert(self.mempool@[i as int]@.tx.inputs[vi as int]
                            == e.tx.inputs@[vi as int]@);
                        assert(vkeys.take(vi + 1).drop_last() =~= vkeys.take(vi as int));
                        assert(vkeys.take(vi + 1).last() == vkeys[vi as int]);
                    }
                    let ghost pre_u = unmark@;
                    unmark.push(e.tx.inputs[vi].prev_tx_output_hash);
                    proof {
                        assert(hash_nats(unmark@) =~= hash_nats(pre_u).push(
                            vkeys[vi as int],
                        ));
                        assert(hash_nats(unmark@) =~= pre_unmark + vkeys.take(vi + 1));
                    }
                    vi = vi + 1;
                }
                proof {
                    assert(vkeys.take(nv as int) =~= vkeys);
                    assert(!entry_fresh(mp0[i as int], now));
                }
            } else {
                kept.push(e.clone());
                proof {
                    assert(kept@.map_values(|x: MempoolEntry| x@) =~= pre_kept.push(
                        mp0[i as int],
                    ));
                    assert(entry_fresh(mp0[i as int], now));
                }
            }
            i = i + 1;
        }
        proof {
            assert(mp0.take(nm as int) =~= mp0);
        }
        self.mempool = kept;
        self.set_marks_exec(&unmark, false);
    }
}

impl Clone for BlockChain {
    /// A clone denotes the same ledger.
    fn clone(&self) -> (r: Self)
        ensures
            r@ == self@,
    {
        let r = BlockChain {
            utxos: self.utxos.clone(),
            target: self.target,
            blocks: self.blocks.clone(),
            mempool: self.mempool.clone(),
        };
        proof {
            assert forall|i: int| 0 <= i < self.blocks@.len() implies r.blocks@[i]@
                == self.blocks@[i]@ by {}
            assert forall|i: int| 0 <= i < self.mempool@.len() implies r.mempool@[i]@
                == self.mempool@[i]@ by {}
            assert(r@.blocks =~= self@.blocks);
            assert(r@.mempool =~= self@.mempool);
        }
        r
    }
}

impl Default for BlockChain {
    /// The default ledger is the empty one.
    fn default() -> (r: BlockChain)
        ensures
            r@.blocks.len() == 0,
            r@.mempool.len() == 0,
            r@.utxos.len() == 0,
            r@.target == min_target_nat(),
            r.wf(),
    {
        BlockChain::new()
    }
}

impl BlockChain {
    /// Serialize the ledger for a snapshot: UTXO set, target and blocks;
    /// the mempool is not persisted.
    pub fn save(&self) -> (r: Vec<u8>)
        ensures
            r@ == crate::codec::enc_chain(self@.utxos, self@.target, self@.blocks),
    {
        let mut out: Vec<u8> = Vec::new();
        crate::codec::write_head(&mut out, 4, 3);
        crate::codec::write_entries(&mut out, &self.utxos.entries);
        crate::codec::write_u256(&mut out, &self.target);
        crate::codec::write_block_seq(&mut out, &self.blocks);
        proof {
            assert(out@ =~= crate::codec::enc_chain(self@.utxos, self@.target, self@.blocks));
        }
        out
    }

    /// Parse a snapshot back into a ledger with an empty mempool;
    /// `InvalidData` when the bytes do not parse.
    pub fn load(bytes: &Vec<u8>) -> (r: Result<BlockChain, BtcError>)
        ensures
            match r {
                Ok(c) => crate::codec::dec_chain(bytes@, 0) matches Some(p) && p.0.0
                    == c@.utxos && p.0.1 == c@.target && p.0.2 == c@.blocks
                    && c@.mempool.len() == 0,
                Err(e) => crate::codec::dec_chain(bytes@, 0) is None && e
                    == BtcError::InvalidData,
            },
    {
        let (n, j) = match crate::codec::read_arr(bytes, 0) {
            Some(p) => p,
            None => {
                return Err(BtcError::InvalidData);
            },
        };
        if n != 3 {
            return Err(BtcError::InvalidData);
        }
        let (nu, j2) = match crate::codec::read_arr(bytes, j) {
            Some(p) => p,
            None => {
                return Err(BtcError::InvalidData);
            },
        };
        let (entries, j3) = match crate::codec::read_entry_list(bytes, j2, nu) {
            Some(p) => p,
            None => {
                return Err(BtcError::InvalidData);
            },
        };
        let (target, j4) = match crate::codec::read_b256(bytes, j3) {
            Some(p) => p,
            None => {
                return Err(BtcError::InvalidData);
            },
        };
        let (nb, j5) = match crate::codec::read_arr(bytes, j4) {
            Some(p) => p,
            None => {
                return Err(BtcError::InvalidData);
            },
        };
        let (blocks, j6) = match crate::codec::read_block_seq(bytes, j5, nb) {
            Some(p) => p,
            None => {
                return Err(BtcError::InvalidData);
            },
        };
        let c = BlockChain {
            utxos: crate::utxo::UtxoMap { entries },
            target,
            blocks,
            mempool: Vec::new(),
        };
        proof {
            assert(c@.mempool =~= Seq::<MempoolEntryV>::empty());
        }
        Ok(c)
    }
}

/// The snapshot round trip: loading a saved ledger restores the UTXO
/// set, the target and the blocks exactly; only the mempool, which is
/// not persisted, is lost.
pub proof fn lemma_snapshot_round_trip(c: ChainV)
    requires
        forall|l: int| 0 <= l < c.utxos.len() ==> crate::codec::entry_vwf(#[trigger] c.utxos[l]),
        forall|l: int|
            0 <= l < c.blocks.len() ==> crate::codec::block_vwf(#[trigger] c.blocks[l]),
        c.utxos.len() < 0x1_0000_0000_0000_0000nat,
        c.blocks.len() < 0x1_0000_0000_0000_0000nat,
        c.target < crate::u256::pow256(),
    ensures
        crate::codec::dec_chain(crate::codec::enc_chain(c.utxos, c.target, c.blocks), 0)
            == Some(
            (
                (c.utxos, c.target, c.blocks),
                crate::codec::enc_chain(c.utxos, c.target, c.blocks).len() as int,
            ),
        ),
{
    let s = crate::codec::enc_chain(c.utxos, c.target, c.blocks);
    assert(s.subrange(0, s.len() as int) =~= s);
    crate::codec::lemma_dec_enc_chain(c.utxos, c.target, c.blocks, s, 0);
}

} // verus!
