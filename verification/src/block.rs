//! Blocks and block headers.

use crate::bytes::bytes_of;
use crate::codec::{output_hash, tx_hash};
use crate::crypto::ecdsa_verifies;
use crate::hash;
use crate::transaction::{
    sum_output_values, sum_outputs, InputV, OutputV, Transaction, TransactionInput,
    TransactionOutput, TxV,
};
use crate::u256::U256;
use crate::utxo::UtxoMap;
use crate::BtcError;
use vstd::prelude::*;

verus! {

/// A block header: what is hashed for proof of work.
#[derive(Debug, Clone, Copy, PartialEq, Eq)]
pub struct BlockHeader {
    /// Seconds since the epoch.
    pub timestamp: u64,
    pub nonce: u64,
    /// The hash of the previous block's header; all-zero for genesis.
    pub prev_block_hash: hash::Hash,
    /// The Merkle root over the block's transactions.
    pub merkle_root: hash::Hash,
    /// The proof-of-work target this header claims to meet.
    pub target: U256,
}

/// The mathematical shape of a header.
pub struct HeaderV {
    pub timestamp: u64,
    pub nonce: u64,
    pub prev_block_hash: nat,
    pub merkle_root: nat,
    pub target: nat,
}

impl View for BlockHeader {
    type V = HeaderV;

    open spec fn view(&self) -> HeaderV {
        HeaderV {
            timestamp: self.timestamp,
            nonce: self.nonce,
            prev_block_hash: self.prev_block_hash.as_nat(),
            merkle_root: self.merkle_root.as_nat(),
            target: self.target.as_nat(),
        }
    }
}

impl BlockHeader {
    /// Assemble a header from its fields.
    pub fn new(timestamp: u64, nonce: u64, prev_block_hash: hash::Hash, merkle_root: hash::Hash, target: U256)
        -> (r: BlockHeader)
        ensures
            r@ == (HeaderV {
                timestamp,
                nonce,
                prev_block_hash: prev_block_hash.as_nat(),
                merkle_root: merkle_root.as_nat(),
                target: target.as_nat(),
            }),
    {
        BlockHeader { timestamp, nonce, prev_block_hash, merkle_root, target }
    }

    /// The hash of this header: SHA-256 over its canonical encoding.
    pub fn hash(&self) -> (r: hash::Hash)
        ensures
            r.as_nat() == crate::codec::header_hash(self@),
    {
        let mut bytes: Vec<u8> = Vec::new();
        crate::codec::write_header(&mut bytes, self);
        proof {
            assert(bytes@ =~= crate::codec::enc_header(self@));
        }
        hash::Hash::of_bytes(&bytes)
    }
}

/// A block: a header over an ordered list of transactions, the first of
/// which is the coinbase.
#[derive(Debug, PartialEq, Eq)]
pub struct Block {
    pub header: BlockHeader,
    pub transactions: Vec<Transaction>,
}

/// The mathematical shape of a block.
pub struct BlockV {
    pub header: HeaderV,
    pub transactions: Seq<TxV>,
}

impl View for Block {
    type V = BlockV;

    open spec fn view(&self) -> BlockV {
        BlockV {
            header: self.header@,
            transactions: self.transactions@.map_values(|t: Transaction| t@),
        }
    }
}

impl Clone for Block {
    /// A clone denotes the same block.
    fn clone(&self) -> (r: Self)
        ensures
            r@ == self@,
    {
        let r = Block { header: self.header, transactions: self.transactions.clone() };
        proof {
            assert forall|i: int| 0 <= i < self.transactions@.len() implies r.transactions@[i]@
                == self.transactions@[i]@ by {}
            assert(r@.transactions =~= self@.transactions);
        }
        r
    }
}

impl Block {
    /// Bundle a header with its transactions.
    pub fn new(header: BlockHeader, transactions: Vec<Transaction>) -> (r: Block)
        ensures
            r@.header == header@,
            r@.transactions == transactions@.map_values(|t: Transaction| t@),
    {
        Block { header, transactions }
    }

    /// The hash that chains blocks together: the hash of the header.
    pub fn hash(&self) -> (r: hash::Hash)
        ensures
            r.as_nat() == crate::codec::header_hash(self.header@),
    {
        self.header.hash()
    }
}

/// The set of values a list of hashes holds.
pub open spec fn hash_set(s: Seq<hash::Hash>) -> Set<nat> {
    Set::new(|n: nat| exists|i: int| 0 <= i < s.len() && s[i].as_nat() == n)
}

/// Appending a hash inserts its value.
pub proof fn lemma_hash_set_push(s: Seq<hash::Hash>, h: hash::Hash)
    ensures
        hash_set(s.push(h)) == hash_set(s).insert(h.as_nat()),
{
    let t = s.push(h);
    assert forall|n: nat| hash_set(t).contains(n) implies hash_set(s).insert(
        h.as_nat(),
    ).contains(n) by {
        let i = choose|i: int| 0 <= i < t.len() && t[i].as_nat() == n;
        if i < s.len() {
            assert(s[i].as_nat() == n);
        }
    }
    assert forall|n: nat| hash_set(s).insert(h.as_nat()).contains(n) implies hash_set(
        t,
    ).contains(n) by {
        if n == h.as_nat() {
            assert(t[s.len() as int].as_nat() == n);
        } else {
            let i = choose|i: int| 0 <= i < s.len() && s[i].as_nat() == n;
            assert(t[i].as_nat() == n);
        }
    }
    assert(hash_set(t) =~= hash_set(s).insert(h.as_nat()));
}

/// Whether a hash value occurs in a list.
pub(crate) fn hash_in(list: &Vec<hash::Hash>, k: &hash::Hash) -> (r: bool)
    ensures
        r == hash_set(list@).contains(k.as_nat()),
{
    let n = list.len();
    let mut i: usize = 0;
    while i < n
        invariant
            i <= n,
            n == list@.len(),
            forall|j: int| 0 <= j < i ==> list@[j].as_nat() != k.as_nat(),
        decreases n - i,
    {
        if list[i].hash_eq(k) {
            return true;
        }
        i = i + 1;
    }
    false
}

/// Add a value to the accumulated sum inside an `Ok` result.
pub open spec fn add_sum(r: Result<(Set<nat>, nat), BtcError>, d: nat) -> Result<
    (Set<nat>, nat),
    BtcError,
> {
    match r {
        Ok(p) => Ok((p.0, (d + p.1) as nat)),
        Err(e) => Err(e),
    }
}

/// Add input and output totals inside an `Ok` result.
pub open spec fn add_sums(r: Result<(nat, nat), BtcError>, a: nat, b: nat) -> Result<
    (nat, nat),
    BtcError,
> {
    match r {
        Ok(p) => Ok(((a + p.0) as nat, (b + p.1) as nat)),
        Err(e) => Err(e),
    }
}

/// Check a transaction's inputs, in order, against the UTXO set and the
/// keys already spent in this block: each referenced UTXO must exist, be
/// fresh within the block, and the signature over it must verify under
/// its public key. On success: the enlarged spent-key set and the total
/// value of the inputs.
pub open spec fn check_inputs(
    u: Map<nat, (bool, OutputV)>,
    seen: Set<nat>,
    inputs: Seq<InputV>,
) -> Result<(Set<nat>, nat), BtcError>
    decreases inputs.len(),
{
    if inputs.len() == 0 {
        Ok((seen, 0))
    } else {
        let i0 = inputs.first();
        let k = i0.prev_tx_output_hash;
        if !u.dom().contains(k) {
            Err(BtcError::InvalidTransaction)
        } else if seen.contains(k) {
            Err(BtcError::InvalidTransaction)
        } else if !ecdsa_verifies(i0.signature, bytes_of(k, 32), u[k].1.pubkey) {
            Err(BtcError::InvalidSignature)
        } else {
            match check_inputs(u, seen.insert(k), inputs.drop_first()) {
                Ok(p) => Ok((p.0, (u[k].1.value + p.1) as nat)),
                Err(e) => Err(e),
            }
        }
    }
}

/// Check the non-coinbase transactions, in order: inputs as in
/// [`check_inputs`], and each transaction's input value must cover its
/// output value. The spent-key set accumulates across the whole block.
pub open spec fn check_txs(
    u: Map<nat, (bool, OutputV)>,
    seen: Set<nat>,
    txs: Seq<TxV>,
) -> Result<(), BtcError>
    decreases txs.len(),
{
    if txs.len() == 0 {
        Ok(())
    } else {
        match check_inputs(u, seen, txs.first().inputs) {
            Err(e) => Err(e),
            Ok(p) => {
                if p.1 < sum_outputs(txs.first().outputs) {
                    Err(BtcError::InvalidTransaction)
                } else {
                    check_txs(u, p.0, txs.drop_first())
                }
            },
        }
    }
}

/// The fee computation's view of a transaction's inputs: existence and
/// freshness as in [`check_inputs`], without the signature check.
pub open spec fn fees_inputs(
    u: Map<nat, (bool, OutputV)>,
    seen: Set<nat>,
    inputs: Seq<InputV>,
) -> Result<(Set<nat>, nat), BtcError>
    decreases inputs.len(),
{
    if inputs.len() == 0 {
        Ok((seen, 0))
    } else {
        let k = inputs.first().prev_tx_output_hash;
        if !u.dom().contains(k) {
            Err(BtcError::InvalidTransaction)
        } else if seen.contains(k) {
            Err(BtcError::InvalidTransaction)
        } else {
            match fees_inputs(u, seen.insert(k), inputs.drop_first()) {
                Ok(p) => Ok((p.0, (u[k].1.value + p.1) as nat)),
                Err(e) => Err(e),
            }
        }
    }
}

/// The fee computation's view of a transaction's outputs: no two outputs
/// in the block may hash alike. On success: the enlarged set of output
/// hashes and the total output value.
pub open spec fn fees_outputs(seen: Set<nat>, outputs: Seq<OutputV>) -> Result<
    (Set<nat>, nat),
    BtcError,
>
    decreases outputs.len(),
{
    if outputs.len() == 0 {
        Ok((seen, 0))
    } else {
        let k = output_hash(outputs.first());
        if seen.contains(k) {
            Err(BtcError::InvalidTransaction)
        } else {
            match fees_outputs(seen.insert(k), outputs.drop_first()) {
                Ok(p) => Ok((p.0, (outputs.first().value + p.1) as nat)),
                Err(e) => Err(e),
            }
        }
    }
}

/// Walk the non-coinbase transactions accumulating total input and
/// output value for the fee computation.
pub open spec fn fees_txs(
    u: Map<nat, (bool, OutputV)>,
    seen_in: Set<nat>,
    seen_out: Set<nat>,
    txs: Seq<TxV>,
) -> Result<(nat, nat), BtcError>
    decreases txs.len(),
{
    if txs.len() == 0 {
        Ok((0, 0))
    } else {
        match fees_inputs(u, seen_in, txs.first().inputs) {
            Err(e) => Err(e),
            Ok(pi) => match fees_outputs(seen_out, txs.first().outputs) {
                Err(e) => Err(e),
                Ok(po) => match fees_txs(u, pi.0, po.0, txs.drop_first()) {
                    Err(e) => Err(e),
                    Ok(rest) => Ok(((pi.1 + rest.0) as nat, (po.1 + rest.1) as nat)),
                },
            },
        }
    }
}

/// A block's transactions without the coinbase.
pub open spec fn non_coinbase(txs: Seq<TxV>) -> Seq<TxV> {
    if txs.len() == 0 {
        txs
    } else {
        txs.drop_first()
    }
}

/// The miner's fee: total input value minus total output value over the
/// non-coinbase transactions, each UTXO and each output hash counted
/// once. Fails when a referenced UTXO is missing or spent twice, when
/// two outputs hash alike, or when the fee is negative or exceeds `u64`.
pub open spec fn miner_fees_spec(u: Map<nat, (bool, OutputV)>, txs: Seq<TxV>) -> Result<
    nat,
    BtcError,
> {
    match fees_txs(u, Set::empty(), Set::empty(), non_coinbase(txs)) {
        Err(e) => Err(e),
        Ok(p) => {
            if p.0 >= p.1 && p.0 - p.1 <= u64::MAX {
                Ok((p.0 - p.1) as nat)
            } else {
                Err(BtcError::InvalidTransaction)
            }
        },
    }
}

/// The coinbase rule: no inputs, at least one output, and the outputs'
/// total equal to block reward plus fees.
pub open spec fn check_coinbase(b: BlockV, height: u64, u: Map<nat, (bool, OutputV)>) -> Result<
    (),
    BtcError,
>
    recommends
        b.transactions.len() > 0,
{
    let cb = b.transactions[0];
    if cb.inputs.len() != 0 {
        Err(BtcError::InvalidTransaction)
    } else if cb.outputs.len() == 0 {
        Err(BtcError::InvalidTransaction)
    } else {
        match miner_fees_spec(u, b.transactions) {
            Err(e) => Err(e),
            Ok(fees) => {
                if sum_outputs(cb.outputs) != crate::blockchain::block_reward_spec(height)
                    + fees {
                    Err(BtcError::InvalidTransaction)
                } else {
                    Ok(())
                }
            },
        }
    }
}

/// All transaction checks of a block, in the order they are made: a
/// non-empty list, the coinbase rule, then each non-coinbase transaction.
pub open spec fn check_block_txs(b: BlockV, height: u64, u: Map<nat, (bool, OutputV)>) -> Result<
    (),
    BtcError,
> {
    if b.transactions.len() == 0 {
        Err(BtcError::InvalidTransaction)
    } else {
        match check_coinbase(b, height, u) {
            Err(e) => Err(e),
            Ok(()) => check_txs(u, Set::empty(), non_coinbase(b.transactions)),
        }
    }
}

/// Scan a transaction's inputs as [`check_inputs`] prescribes, extending
/// the list of keys spent so far and totalling input value.
#[verifier::rlimit(50)]
fn scan_inputs_checked(u: &UtxoMap, seen: &mut Vec<hash::Hash>, inputs: &Vec<TransactionInput>)
    -> (r: Result<u128, BtcError>)
    requires
        u.wf(),
    ensures
        match r {
            Ok(v) => check_inputs(
                u.as_map(),
                hash_set(old(seen)@),
                inputs@.map_values(|i: TransactionInput| i@),
            ) == Ok::<_, BtcError>((hash_set(final (seen)@), v as nat)) && v as nat
                <= inputs@.len() * 0xffff_ffff_ffff_ffffnat && final (seen)@.len() == old(
                seen,
            )@.len() + inputs@.len(),
            Err(e) => check_inputs(
                u.as_map(),
                hash_set(old(seen)@),
                inputs@.map_values(|i: TransactionInput| i@),
            ) == Err::<(Set<nat>, nat), _>(e),
        },
{
    let ghost m = inputs@.map_values(|i: TransactionInput| i@);
    let ghost set0 = hash_set(old(seen)@);
    let n = inputs.len();
    let mut acc: u128 = 0;
    let mut i: usize = 0;
    proof {
        assert(m.skip(0) =~= m);
    }
    while i < n
        invariant
            u.wf(),
            i <= n,
            n == inputs@.len(),
            m == inputs@.map_values(|x: TransactionInput| x@),
            set0 == hash_set(old(seen)@),
            seen@.len() == old(seen)@.len() + i,
            acc as nat <= i * 0xffff_ffff_ffff_ffffnat,
            check_inputs(u.as_map(), set0, m) == add_sum(
                check_inputs(u.as_map(), hash_set(seen@), m.skip(i as int)),
                acc as nat,
            ),
        decreases n - i,
    {
        let ghost rest = m.skip(i as int);
        proof {
            assert(rest.first() == m[i as int]);
            assert(m[i as int] == inputs@[i as int]@);
            assert(rest.drop_first() =~= m.skip(i + 1));
        }
        let inp = &inputs[i];
        let k = &inp.prev_tx_output_hash;
        proof {
            assert(rest.len() > 0);
            assert(rest.first().prev_tx_output_hash == k.as_nat());
        }
        let got = u.get(k);
        match got {
            None => {
                proof {
                    assert(check_inputs(u.as_map(), hash_set(seen@), rest) == Err::<
                        (Set<nat>, nat),
                        BtcError,
                    >(BtcError::InvalidTransaction));
                }
                return Err(BtcError::InvalidTransaction);
            },
            Some(p) => {
                if hash_in(seen, k) {
                    proof {
                        assert(check_inputs(u.as_map(), hash_set(seen@), rest) == Err::<
                            (Set<nat>, nat),
                            BtcError,
                        >(BtcError::InvalidTransaction));
                    }
                    return Err(BtcError::InvalidTransaction);
                }
                if !inp.signature.verify(k, &p.1.pubkey) {
                    proof {
                        assert(p.1.pubkey@ == u.as_map()[k.as_nat()].1.pubkey);
                        assert(!ecdsa_verifies(
                            rest.first().signature,
                            bytes_of(rest.first().prev_tx_output_hash, 32),
                            u.as_map()[rest.first().prev_tx_output_hash].1.pubkey,
                        ));
                        assert(check_inputs(u.as_map(), hash_set(seen@), rest) == Err::<
                            (Set<nat>, nat),
                            BtcError,
                        >(BtcError::InvalidSignature));
                    }
                    return Err(BtcError::InvalidSignature);
                }
                let ghost pre_seen = seen@;
                seen.push(inp.prev_tx_output_hash);
                proof {
                    lemma_hash_set_push(pre_seen, inp.prev_tx_output_hash);
                    assert(acc + p.1.value <= (i + 1) * 0xffff_ffff_ffff_ffffnat)
                        by (nonlinear_arith)
                        requires
                            acc as nat <= i * 0xffff_ffff_ffff_ffffnat,
                            p.1.value <= 0xffff_ffff_ffff_ffffnat,
                    ;
                    assert((i + 1) * 0xffff_ffff_ffff_ffffnat <= 0x1_0000_0000_0000_0000nat
                        * 0xffff_ffff_ffff_ffffnat) by (nonlinear_arith)
                        requires
                            i + 1 <= 0x1_0000_0000_0000_0000nat,
                    ;
                }
                acc = acc + p.1.value as u128;
                i = i + 1;
            },
        }
    }
    proof {
        assert(m.skip(n as int).len() == 0);
        assert(check_inputs(u.as_map(), hash_set(seen@), m.skip(n as int)) == Ok::<
            _,
            BtcError,
        >((hash_set(seen@), 0nat)));
    }
    Ok(acc)
}

/// Scan a transaction's inputs as [`fees_inputs`] prescribes.
#[verifier::rlimit(50)]
fn scan_inputs_fees(u: &UtxoMap, seen: &mut Vec<hash::Hash>, inputs: &Vec<TransactionInput>)
    -> (r: Result<u128, BtcError>)
    requires
        u.wf(),
    ensures
        match r {
            Ok(v) => fees_inputs(
                u.as_map(),
                hash_set(old(seen)@),
                inputs@.map_values(|i: TransactionInput| i@),
            ) == Ok::<_, BtcError>((hash_set(final (seen)@), v as nat)) && v as nat
                <= inputs@.len() * 0xffff_ffff_ffff_ffffnat && final (seen)@.len() == old(
                seen,
            )@.len() + inputs@.len(),
            Err(e) => fees_inputs(
                u.as_map(),
                hash_set(old(seen)@),
                inputs@.map_values(|i: TransactionInput| i@),
            ) == Err::<(Set<nat>, nat), _>(e),
        },
{
    let ghost m = inputs@.map_values(|i: TransactionInput| i@);
    let ghost set0 = hash_set(old(seen)@);
    let n = inputs.len();
    let mut acc: u128 = 0;
    let mut i: usize = 0;
    proof {
        assert(m.skip(0) =~= m);
    }
    while i < n
        invariant
            u.wf(),
            i <= n,
            n == inputs@.len(),
            m == inputs@.map_values(|x: TransactionInput| x@),
            set0 == hash_set(old(seen)@),
            seen@.len() == old(seen)@.len() + i,
            acc as nat <= i * 0xffff_ffff_ffff_ffffnat,
            fees_inputs(u.as_map(), set0, m) == add_sum(
                fees_inputs(u.as_map(), hash_set(seen@), m.skip(i as int)),
                acc as nat,
            ),
        decreases n - i,
    {
        let ghost rest = m.skip(i as int);
        proof {
            assert(rest.first() == m[i as int]);
            assert(m[i as int] == inputs@[i as int]@);
            assert(rest.drop_first() =~= m.skip(i + 1));
        }
        let inp = &inputs[i];
        let k = &inp.prev_tx_output_hash;
        let got = u.get(k);
        match got {
            None => {
                return Err(BtcError::InvalidTransaction);
            },
            Some(p) => {
                if hash_in(seen, k) {
                    return Err(BtcError::InvalidTransaction);
                }
                let ghost pre_seen = seen@;
                seen.push(inp.prev_tx_output_hash);
                proof {
                    lemma_hash_set_push(pre_seen, inp.prev_tx_output_hash);
                    assert(acc + p.1.value <= (i + 1) * 0xffff_ffff_ffff_ffffnat)
                        by (nonlinear_arith)
                        requires
                            acc as nat <= i * 0xffff_ffff_ffff_ffffnat,
                            p.1.value <= 0xffff_ffff_ffff_ffffnat,
                    ;
                    assert((i + 1) * 0xffff_ffff_ffff_ffffnat <= 0x1_0000_0000_0000_0000nat
                        * 0xffff_ffff_ffff_ffffnat) by (nonlinear_arith)
                        requires
                            i + 1 <= 0x1_0000_0000_0000_0000nat,
                    ;
                }
                acc = acc + p.1.value as u128;
                i = i + 1;
            },
        }
    }
    proof {
        assert(m.skip(n as int).len() == 0);
        assert(fees_inputs(u.as_map(), hash_set(seen@), m.skip(n as int)) == Ok::<
            _,
            BtcError,
        >((hash_set(seen@), 0nat)));
    }
    Ok(acc)
}

/// Scan a transaction's outputs as [`fees_outputs`] prescribes.
#[verifier::rlimit(50)]
fn scan_outputs_fees(seen: &mut Vec<hash::Hash>, outputs: &Vec<TransactionOutput>) -> (r: Result<
    u128,
    BtcError,
>)
    ensures
        match r {
            Ok(v) => fees_outputs(
                hash_set(old(seen)@),
                outputs@.map_values(|o: TransactionOutput| o@),
            ) == Ok::<_, BtcError>((hash_set(final (seen)@), v as nat)) && v as nat
                <= outputs@.len() * 0xffff_ffff_ffff_ffffnat && final (seen)@.len() == old(
                seen,
            )@.len() + outputs@.len(),
            Err(e) => fees_outputs(
                hash_set(old(seen)@),
                outputs@.map_values(|o: TransactionOutput| o@),
            ) == Err::<(Set<nat>, nat), _>(e),
        },
{
    let ghost m = outputs@.map_values(|o: TransactionOutput| o@);
    let ghost set0 = hash_set(old(seen)@);
    let n = outputs.len();
    let mut acc: u128 = 0;
    let mut i: usize = 0;
    proof {
        assert(m.skip(0) =~= m);
    }
    while i < n
        invariant
            i <= n,
            n == outputs@.len(),
            m == outputs@.map_values(|x: TransactionOutput| x@),
            set0 == hash_set(old(seen)@),
            seen@.len() == old(seen)@.len() + i,
            acc as nat <= i * 0xffff_ffff_ffff_ffffnat,
            fees_outputs(set0, m) == add_sum(
                fees_outputs(hash_set(seen@), m.skip(i as int)),
                acc as nat,
            ),
        decreases n - i,
    {
        let ghost rest = m.skip(i as int);
        proof {
            assert(rest.first() == m[i as int]);
            assert(m[i as int] == outputs@[i as int]@);
            assert(rest.drop_first() =~= m.skip(i + 1));
        }
        let oh = outputs[i].hash();
        if hash_in(seen, &oh) {
            return Err(BtcError::InvalidTransaction);
        }
        let ghost pre_seen = seen@;
        seen.push(oh);
        proof {
            lemma_hash_set_push(pre_seen, oh);
            assert(acc + outputs@[i as int]@.value <= (i + 1) * 0xffff_ffff_ffff_ffffnat)
                by (nonlinear_arith)
                requires
                    acc as nat <= i * 0xffff_ffff_ffff_ffffnat,
                    outputs@[i as int]@.value <= 0xffff_ffff_ffff_ffffnat,
            ;
            assert((i + 1) * 0xffff_ffff_ffff_ffffnat <= 0x1_0000_0000_0000_0000nat
                * 0xffff_ffff_ffff_ffffnat) by (nonlinear_arith)
                requires
                    i + 1 <= 0x1_0000_0000_0000_0000nat,
            ;
        }
        acc = acc + outputs[i].value as u128;
        i = i + 1;
    }
    proof {
        assert(m.skip(n as int).len() == 0);
        assert(fees_outputs(hash_set(seen@), m.skip(n as int)) == Ok::<_, BtcError>(
            (hash_set(seen@), 0nat),
        ));
    }
    Ok(acc)
}

impl Block {
    /// Check every transaction of this block against a UTXO set, as a
    /// candidate at the given height: non-empty list, the coinbase rule,
    /// then, for each further transaction, input existence, no double
    /// spend within the block, valid signatures, and input value
    /// covering output value. Returns the first failure.
    pub fn verify_transactions(&self, predicted_block_height: u64, utxos: &UtxoMap) -> (r: Result<
        (),
        BtcError,
    >)
        requires
            utxos.wf(),
        ensures
            r == check_block_txs(self@, predicted_block_height, utxos.as_map()),
    {
        let ghost txviews = self@.transactions;
        if self.transactions.len() == 0 {
            return Err(BtcError::InvalidTransaction);
        }
        match self.verify_coinbase_transaction(predicted_block_height, utxos) {
            Err(e) => {
                return Err(e);
            },
            Ok(()) => {},
        }
        let ghost rest = non_coinbase(txviews);
        let mut seen: Vec<hash::Hash> = Vec::new();
        let n = self.transactions.len();
        let mut ti: usize = 1;
        proof {
            assert(hash_set(seen@) =~= Set::<nat>::empty());
            assert(rest.skip(0) =~= txviews.skip(1));
            assert(txviews.skip(ti as int) =~= rest);
        }
        while ti < n
            invariant
                utxos.wf(),
                1 <= ti <= n,
                n == self.transactions@.len(),
                txviews == self@.transactions,
                rest == non_coinbase(txviews),
                self@.transactions.len() > 0,
                check_coinbase(self@, predicted_block_height, utxos.as_map()) == Ok::<
                    (),
                    BtcError,
                >(()),
                check_txs(utxos.as_map(), Set::empty(), rest) == check_txs(
                    utxos.as_map(),
                    hash_set(seen@),
                    txviews.skip(ti as int),
                ),
            decreases n - ti,
        {
            let ghost tail = txviews.skip(ti as int);
            proof {
                assert(tail.first() == txviews[ti as int]);
                assert(txviews[ti as int] == self.transactions@[ti as int]@);
                assert(tail.drop_first() =~= txviews.skip(ti + 1));
            }
            let t = &self.transactions[ti];
            let vi = match scan_inputs_checked(utxos, &mut seen, &t.inputs) {
                Ok(v) => v,
                Err(e) => {
                    return Err(e);
                },
            };
            let vo = sum_output_values(&t.outputs);
            if vi < vo {
                return Err(BtcError::InvalidTransaction);
            }
            ti = ti + 1;
        }
        proof {
            assert(txviews.skip(n as int).len() == 0);
        }
        Ok(())
    }

    /// Check the coinbase rule for this block as a candidate at the
    /// given height: the first transaction has no inputs and at least
    /// one output, and its outputs total the block reward plus the
    /// miner's fees.
    pub fn verify_coinbase_transaction(&self, predicted_block_height: u64, utxos: &UtxoMap) -> (r:
        Result<(), BtcError>)
        requires
            utxos.wf(),
            self.transactions@.len() > 0,
        ensures
            r == check_coinbase(self@, predicted_block_height, utxos.as_map()),
    {
        let cb = &self.transactions[0];
        if cb.inputs.len() != 0 {
            return Err(BtcError::InvalidTransaction);
        }
        if cb.outputs.len() == 0 {
            return Err(BtcError::InvalidTransaction);
        }
        let fees = match self.calculate_miner_fees(utxos) {
            Ok(f) => f,
            Err(e) => {
                return Err(e);
            },
        };
        let reward = crate::blockchain::reward_for_halvings(
            predicted_block_height / crate::HALVING_INTERVAL,
        );
        let total = sum_output_values(&cb.outputs);
        if total != reward as u128 + fees as u128 {
            return Err(BtcError::InvalidTransaction);
        }
        Ok(())
    }

    /// Total the miner's fees over the non-coinbase transactions: input
    /// value minus output value, every referenced UTXO present and spent
    /// once, no two outputs hashing alike, and the result fitting `u64`.
    pub fn calculate_miner_fees(&self, utxos: &UtxoMap) -> (r: Result<u64, BtcError>)
        requires
            utxos.wf(),
        ensures
            ({
                let s = miner_fees_spec(utxos.as_map(), self@.transactions);
                match r {
                    Ok(f) => s == Ok::<nat, BtcError>(f as nat),
                    Err(e) => s == Err::<nat, BtcError>(e),
                }
            }),
    {
        let ghost txviews = self@.transactions;
        let ghost rest = non_coinbase(txviews);
        let mut seen_in: Vec<hash::Hash> = Vec::new();
        let mut seen_out: Vec<hash::Hash> = Vec::new();
        let mut vi: u128 = 0;
        let mut vo: u128 = 0;
        let n = self.transactions.len();
        let mut ti: usize = 1;
        proof {
            assert(hash_set(seen_in@) =~= Set::<nat>::empty());
            assert(hash_set(seen_out@) =~= Set::<nat>::empty());
            if n > 0 {
                assert(txviews.skip(1) =~= rest);
            }
        }
        if n == 0 {
            proof {
                assert(rest.len() == 0);
            }
            return Ok(0);
        }
        while ti < n
            invariant
                utxos.wf(),
                1 <= ti <= n,
                n == self.transactions@.len(),
                txviews == self@.transactions,
                rest == non_coinbase(txviews),
                vi as nat <= seen_in@.len() * 0xffff_ffff_ffff_ffffnat,
                vo as nat <= seen_out@.len() * 0xffff_ffff_ffff_ffffnat,
                fees_txs(utxos.as_map(), Set::empty(), Set::empty(), rest) == add_sums(
                    fees_txs(
                        utxos.as_map(),
                        hash_set(seen_in@),
                        hash_set(seen_out@),
                        txviews.skip(ti as int),
                    ),
                    vi as nat,
                    vo as nat,
                ),
            decreases n - ti,
        {
            let ghost tail = txviews.skip(ti as int);
            proof {
                assert(tail.first() == txviews[ti as int]);
                assert(txviews[ti as int] == self.transactions@[ti as int]@);
                assert(tail.drop_first() =~= txviews.skip(ti + 1));
            }
            let t = &self.transactions[ti];
            let ghost pre_in_len = seen_in@.len();
            let ghost pre_out_len = seen_out@.len();
            let dvi = match scan_inputs_fees(utxos, &mut seen_in, &t.inputs) {
                Ok(v) => v,
                Err(e) => {
                    return Err(e);
                },
            };
            let dvo = match scan_outputs_fees(&mut seen_out, &t.outputs) {
                Ok(v) => v,
                Err(e) => {
                    return Err(e);
                },
            };
            let sl_in = seen_in.len();
            let sl_out = seen_out.len();
            proof {
                assert(vi + dvi <= (pre_in_len + t.inputs@.len()) * 0xffff_ffff_ffff_ffffnat)
                    by (nonlinear_arith)
                    requires
                        vi as nat <= pre_in_len * 0xffff_ffff_ffff_ffffnat,
                        dvi as nat <= t.inputs@.len() * 0xffff_ffff_ffff_ffffnat,
                ;
                assert(sl_in as nat * 0xffff_ffff_ffff_ffffnat <= 0x1_0000_0000_0000_0000nat
                    * 0xffff_ffff_ffff_ffffnat) by (nonlinear_arith)
                    requires
                        sl_in as nat <= 0x1_0000_0000_0000_0000nat,
                ;
                assert(vo + dvo <= (pre_out_len + t.outputs@.len()) * 0xffff_ffff_ffff_ffffnat)
                    by (nonlinear_arith)
                    requires
                        vo as nat <= pre_out_len * 0xffff_ffff_ffff_ffffnat,
                        dvo as nat <= t.outputs@.len() * 0xffff_ffff_ffff_ffffnat,
                ;
                assert(sl_out as nat * 0xffff_ffff_ffff_ffffnat <= 0x1_0000_0000_0000_0000nat
                    * 0xffff_ffff_ffff_ffffnat) by (nonlinear_arith)
                    requires
                        sl_out as nat <= 0x1_0000_0000_0000_0000nat,
                ;
            }
            vi = vi + dvi;
            vo = vo + dvo;
            ti = ti + 1;
        }
        proof {
            assert(txviews.skip(n as int).len() == 0);
            assert(fees_txs(
                utxos.as_map(),
                hash_set(seen_in@),
                hash_set(seen_out@),
                txviews.skip(n as int),
            ) == Ok::<_, BtcError>((0nat, 0nat)));
        }
        if vi >= vo && vi - vo <= 0xffff_ffff_ffff_ffffu128 {
            Ok((vi - vo) as u64)
        } else {
            Err(BtcError::InvalidTransaction)
        }
    }
}

impl BlockHeader {
    /// Grind nonces for at most `steps` tries, restarting from a fresh
    /// timestamp when the nonce space wraps; true exactly when the
    /// header meets its own target on return.
    pub fn mine(&mut self, steps: usize) -> (r: bool)
        ensures
            r == (crate::codec::header_hash(final (self)@) <= final (self)@.target),
            final (self).prev_block_hash == old(self).prev_block_hash,
            final (self).merkle_root == old(self).merkle_root,
            final (self).target == old(self).target,
    {
        let h = self.hash();
        if h.matches_target(self.target) {
            return true;
        }
        let mut k: usize = 0;
        while k < steps
            invariant
                self.prev_block_hash == old(self).prev_block_hash,
                self.merkle_root == old(self).merkle_root,
                self.target == old(self).target,
                !(crate::codec::header_hash(self@) <= self@.target),
            decreases steps - k,
        {
            match self.nonce.checked_add(1) {
                Some(next) => {
                    self.nonce = next;
                },
                None => {
                    self.nonce = 0;
                    self.timestamp = crate::time::now_seconds();
                },
            }
            let h = self.hash();
            if h.matches_target(self.target) {
                return true;
            }
            k = k + 1;
        }
        false
    }
}

} // verus!
