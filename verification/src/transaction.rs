//! Transactions: value transfers between public-key-identified outputs.

use crate::crypto::{PublicKey, Signature};
use crate::hash;
use vstd::prelude::*;

verus! {

/// A value-bearing output: an amount in satoshis, paid to a public key.
/// The `unique_id` makes two outputs of equal value and recipient hash
/// differently.
#[derive(Debug, PartialEq, Eq)]
pub struct TransactionOutput {
    pub value: u64,
    pub unique_id: u128,
    pub pubkey: PublicKey,
}

/// The mathematical shape of an output.
pub struct OutputV {
    pub value: u64,
    pub unique_id: u128,
    pub pubkey: Seq<u8>,
}

impl View for TransactionOutput {
    type V = OutputV;

    open spec fn view(&self) -> OutputV {
        OutputV { value: self.value, unique_id: self.unique_id, pubkey: self.pubkey@ }
    }
}

/// A spend of a previous output, named by the hash of the transaction
/// that produced it, authorized by a signature over that hash.
#[derive(Debug, PartialEq, Eq)]
pub struct TransactionInput {
    pub prev_tx_output_hash: hash::Hash,
    pub signature: Signature,
}

/// The mathematical shape of an input.
pub struct InputV {
    pub prev_tx_output_hash: nat,
    pub signature: Seq<u8>,
}

impl View for TransactionInput {
    type V = InputV;

    open spec fn view(&self) -> InputV {
        InputV {
            prev_tx_output_hash: self.prev_tx_output_hash.as_nat(),
            signature: self.signature@,
        }
    }
}

/// A transaction: inputs consumed, outputs created. A coinbase
/// transaction has no inputs and at least one output.
#[derive(Debug, PartialEq, Eq)]
pub struct Transaction {
    pub inputs: Vec<TransactionInput>,
    pub outputs: Vec<TransactionOutput>,
}

/// The mathematical shape of a transaction.
pub struct TxV {
    pub inputs: Seq<InputV>,
    pub outputs: Seq<OutputV>,
}

impl View for Transaction {
    type V = TxV;

    open spec fn view(&self) -> TxV {
        TxV {
            inputs: self.inputs@.map_values(|i: TransactionInput| i@),
            outputs: self.outputs@.map_values(|o: TransactionOutput| o@),
        }
    }
}

impl Clone for TransactionOutput {
    /// A clone denotes the same output.
    fn clone(&self) -> (r: Self)
        ensures
            r@ == self@,
    {
        TransactionOutput {
            value: self.value,
            unique_id: self.unique_id,
            pubkey: self.pubkey.clone(),
        }
    }
}

impl Clone for TransactionInput {
    /// A clone denotes the same input.
    fn clone(&self) -> (r: Self)
        ensures
            r@ == self@,
    {
        TransactionInput {
            prev_tx_output_hash: self.prev_tx_output_hash,
            signature: self.signature.clone(),
        }
    }
}

impl Clone for Transaction {
    /// A clone denotes the same transaction.
    fn clone(&self) -> (r: Self)
        ensures
            r@ == self@,
    {
        let r = Transaction { inputs: self.inputs.clone(), outputs: self.outputs.clone() };
        proof {
            assert forall|i: int| 0 <= i < self.inputs@.len() implies r.inputs@[i]@
                == self.inputs@[i]@ by {}
            assert forall|i: int| 0 <= i < self.outputs@.len() implies r.outputs@[i]@
                == self.outputs@[i]@ by {}
            assert(r@.inputs =~= self@.inputs);
            assert(r@.outputs =~= self@.outputs);
        }
        r
    }
}

impl Transaction {
    /// Bundle inputs and outputs into a transaction.
    pub fn new(inputs: Vec<TransactionInput>, outputs: Vec<TransactionOutput>) -> (r:
        Transaction)
        ensures
            r@.inputs == inputs@.map_values(|i: TransactionInput| i@),
            r@.outputs == outputs@.map_values(|o: TransactionOutput| o@),
    {
        Transaction { inputs, outputs }
    }

    /// The hash of this transaction: SHA-256 over its canonical encoding.
    pub fn hash(&self) -> (r: hash::Hash)
        ensures
            r.as_nat() == crate::codec::tx_hash(self@),
    {
        let mut bytes: Vec<u8> = Vec::new();
        crate::codec::write_tx(&mut bytes, self);
        proof {
            assert(bytes@ =~= crate::codec::enc_tx(self@));
        }
        hash::Hash::of_bytes(&bytes)
    }
}

impl TransactionOutput {
    /// The hash of this output: SHA-256 over its canonical encoding.
    pub fn hash(&self) -> (r: hash::Hash)
        ensures
            r.as_nat() == crate::codec::output_hash(self@),
    {
        let mut bytes: Vec<u8> = Vec::new();
        crate::codec::write_output(&mut bytes, self);
        proof {
            assert(bytes@ =~= crate::codec::enc_output(self@));
        }
        hash::Hash::of_bytes(&bytes)
    }
}

/// The total value of a list of outputs.
pub open spec fn sum_outputs(s: Seq<OutputV>) -> nat
    decreases s.len(),
{
    if s.len() == 0 {
        0
    } else {
        sum_outputs(s.drop_last()) + s.last().value as nat
    }
}

/// The keys (previous-output hashes) a list of inputs references.
pub open spec fn input_keys(s: Seq<InputV>) -> Seq<nat> {
    s.map_values(|i: InputV| i.prev_tx_output_hash)
}

/// Total the values of a list of outputs; a 128-bit accumulator cannot
/// overflow on fewer than `2^64`64-bit values.
pub fn sum_output_values(v: &Vec<TransactionOutput>) -> (r: u128)
    ensures
        r as nat == sum_outputs(v@.map_values(|o: TransactionOutput| o@)),
        r as nat <= v@.len() * 0xffff_ffff_ffff_ffffnat,
{
    let ghost m = v@.map_values(|o: TransactionOutput| o@);
    let n = v.len();
    let mut acc: u128 = 0;
    let mut i: usize = 0;
    while i < n
        invariant
            i <= n,
            n == v@.len(),
            m == v@.map_values(|o: TransactionOutput| o@),
            acc as nat == sum_outputs(m.take(i as int)),
            acc as nat <= i * 0xffff_ffff_ffff_ffffnat,
        decreases n - i,
    {
        proof {
            assert(acc + v@[i as int]@.value <= (i + 1) * 0xffff_ffff_ffff_ffffnat)
                by (nonlinear_arith)
                requires
                    acc as nat <= i * 0xffff_ffff_ffff_ffffnat,
                    v@[i as int]@.value <= 0xffff_ffff_ffff_ffffnat,
            ;
            assert((i + 1) * 0xffff_ffff_ffff_ffffnat
                <= 0x1_0000_0000_0000_0000nat * 0xffff_ffff_ffff_ffffnat) by (nonlinear_arith)
                requires
                    i + 1 <= 0x1_0000_0000_0000_0000nat,
            ;
            assert(m.take(i + 1).drop_last() =~= m.take(i as int));
            assert(m.take(i + 1).last() == m[i as int]);
        }
        acc = acc + v[i].value as u128;
        i = i + 1;
    }
    proof {
        assert(m.take(n as int) =~= m);
    }
    acc
}

} // verus!
