//! The canonical CBOR encoding of the ledger's entities.
//!
//! Every value is written in definite-length CBOR with minimal-width
//! heads: structs as arrays of their fields in declaration order, hashes,
//! keys and signatures as byte strings, counts and amounts as unsigned
//! integers. The spec functions here define the encoding mathematically;
//! the `write_*` functions produce exactly those bytes, and the `read_*`
//! functions invert them.

use crate::block::{Block, BlockHeader, BlockV, HeaderV};
use crate::bytes::{
    be_val, bytes_of, lemma_be_val_bound, lemma_be_val_bytes_of, lemma_bytes_of_len,
    lemma_pow256n_16, lemma_pow256n_8, pow256n, push_be16, push_be2, push_be32, push_be4,
    push_be8, read_be16, read_be2, read_be32, read_be4, read_be8,
};
use crate::hash;
use crate::hash::hash_bytes;
use crate::transaction::{InputV, OutputV, Transaction, TransactionInput, TransactionOutput, TxV};
use crate::u256::U256;
use crate::utxo::UtxoEntryV;
use vstd::prelude::*;

verus! {

/// A CBOR head: the major type in the high three bits, then the argument
/// in its shortest form.
pub open spec fn enc_head(major: u8, n: nat) -> Seq<u8> {
    if n < 24 {
        seq![(major * 32 + n) as u8]
    } else if n < 0x100 {
        seq![(major * 32 + 24) as u8] + bytes_of(n, 1)
    } else if n < 0x1_0000 {
        seq![(major * 32 + 25) as u8] + bytes_of(n, 2)
    } else if n < 0x1_0000_0000 {
        seq![(major * 32 + 26) as u8] + bytes_of(n, 4)
    } else {
        seq![(major * 32 + 27) as u8] + bytes_of(n, 8)
    }
}

/// An unsigned integer.
pub open spec fn enc_uint(n: nat) -> Seq<u8> {
    enc_head(0, n)
}

/// A byte string: its length, then its bytes.
pub open spec fn enc_bstr(b: Seq<u8>) -> Seq<u8> {
    enc_head(2, b.len()) + b
}

/// A boolean.
pub open spec fn enc_bool(b: bool) -> Seq<u8> {
    if b {
        seq![0xf5u8]
    } else {
        seq![0xf4u8]
    }
}

/// An output: `[value, unique_id, pubkey]`.
pub open spec fn enc_output(o: OutputV) -> Seq<u8> {
    enc_head(4, 3) + enc_uint(o.value as nat) + enc_bstr(bytes_of(o.unique_id as nat, 16))
        + enc_bstr(o.pubkey)
}

/// An input: `[prev_tx_output_hash, signature]`.
pub open spec fn enc_input(i: InputV) -> Seq<u8> {
    enc_head(4, 2) + enc_bstr(bytes_of(i.prev_tx_output_hash, 32)) + enc_bstr(i.signature)
}

/// The concatenated encodings of a list of inputs.
pub open spec fn enc_inputs(s: Seq<InputV>) -> Seq<u8>
    decreases s.len(),
{
    if s.len() == 0 {
        Seq::empty()
    } else {
        enc_inputs(s.drop_last()) + enc_input(s.last())
    }
}

/// The concatenated encodings of a list of outputs.
pub open spec fn enc_outputs(s: Seq<OutputV>) -> Seq<u8>
    decreases s.len(),
{
    if s.len() == 0 {
        Seq::empty()
    } else {
        enc_outputs(s.drop_last()) + enc_output(s.last())
    }
}

/// A transaction: `[inputs, outputs]`, each an array.
pub open spec fn enc_tx(t: TxV) -> Seq<u8> {
    enc_head(4, 2) + enc_head(4, t.inputs.len()) + enc_inputs(t.inputs) + enc_head(
        4,
        t.outputs.len(),
    ) + enc_outputs(t.outputs)
}

/// The concatenated encodings of a list of transactions.
pub open spec fn enc_txs(s: Seq<TxV>) -> Seq<u8>
    decreases s.len(),
{
    if s.len() == 0 {
        Seq::empty()
    } else {
        enc_txs(s.drop_last()) + enc_tx(s.last())
    }
}

/// A header: `[timestamp, nonce, prev_block_hash, merkle_root, target]`.
pub open spec fn enc_header(h: HeaderV) -> Seq<u8> {
    enc_head(4, 5) + enc_uint(h.timestamp as nat) + enc_uint(h.nonce as nat) + enc_bstr(
        bytes_of(h.prev_block_hash, 32),
    ) + enc_bstr(bytes_of(h.merkle_root, 32)) + enc_bstr(bytes_of(h.target, 32))
}

/// A block: `[header, transactions]`.
pub open spec fn enc_block(b: BlockV) -> Seq<u8> {
    enc_head(4, 2) + enc_header(b.header) + enc_head(4, b.transactions.len()) + enc_txs(
        b.transactions,
    )
}

/// The hash of a transaction: SHA-256 over its canonical encoding.
pub open spec fn tx_hash(t: TxV) -> nat {
    hash_bytes(enc_tx(t))
}

/// The hash of an output: SHA-256 over its canonical encoding.
pub open spec fn output_hash(o: OutputV) -> nat {
    hash_bytes(enc_output(o))
}

/// The hash of a header: SHA-256 over its canonical encoding. This is
/// what proof of work grinds on and what `prev_block_hash` links to.
pub open spec fn header_hash(h: HeaderV) -> nat {
    hash_bytes(enc_header(h))
}

/// Write a CBOR head.
pub fn write_head(out: &mut Vec<u8>, major: u8, n: u64)
    requires
        major < 8,
    ensures
        final (out)@ == old(out)@ + enc_head(major, n as nat),
{
    let ghost base = out@;
    if n < 24 {
        out.push(major * 32 + n as u8);
        proof {
            assert(out@ =~= base + enc_head(major, n as nat));
        }
    } else if n < 0x100 {
        out.push(major * 32 + 24);
        out.push(n as u8);
        proof {
            assert(bytes_of(n as nat / 256, 0) =~= Seq::<u8>::empty());
            assert(bytes_of(n as nat, 1) =~= Seq::<u8>::empty().push((n as nat % 256) as u8));
            assert(out@ =~= base + enc_head(major, n as nat));
        }
    } else if n < 0x1_0000 {
        out.push(major * 32 + 25);
        push_be2(out, n);
        proof {
            assert(out@ =~= base + enc_head(major, n as nat));
        }
    } else if n < 0x1_0000_0000 {
        out.push(major * 32 + 26);
        push_be4(out, n);
        proof {
            assert(out@ =~= base + enc_head(major, n as nat));
        }
    } else {
        out.push(major * 32 + 27);
        push_be8(out, n);
        proof {
            assert(out@ =~= base + enc_head(major, n as nat));
        }
    }
}

/// Write an unsigned integer.
pub fn write_uint(out: &mut Vec<u8>, n: u64)
    ensures
        final (out)@ == old(out)@ + enc_uint(n as nat),
{
    write_head(out, 0, n);
}

/// Write a byte string.
pub fn write_bstr(out: &mut Vec<u8>, b: &Vec<u8>)
    ensures
        final (out)@ == old(out)@ + enc_bstr(b@),
{
    let ghost base = out@;
    write_head(out, 2, b.len() as u64);
    out.extend_from_slice(b.as_slice());
    proof {
        assert(out@ =~= base + enc_bstr(b@));
    }
}

/// Write a boolean.
pub fn write_bool(out: &mut Vec<u8>, b: bool)
    ensures
        final (out)@ == old(out)@ + enc_bool(b),
{
    let ghost base = out@;
    if b {
        out.push(0xf5);
    } else {
        out.push(0xf4);
    }
    proof {
        assert(out@ =~= base + enc_bool(b));
    }
}

/// Write a hash as a 32-byte string.
pub fn write_hash(out: &mut Vec<u8>, h: &hash::Hash)
    ensures
        final (out)@ == old(out)@ + enc_bstr(bytes_of(h.as_nat(), 32)),
{
    let ghost base = out@;
    write_head(out, 2, 32);
    push_be32(out, &h.value);
    proof {
        lemma_bytes_of_len(h.as_nat(), 32);
        assert(out@ =~= base + enc_bstr(bytes_of(h.as_nat(), 32)));
    }
}

/// Write a 256-bit integer as a 32-byte string.
pub fn write_u256(out: &mut Vec<u8>, v: &U256)
    ensures
        final (out)@ == old(out)@ + enc_bstr(bytes_of(v.as_nat(), 32)),
{
    let ghost base = out@;
    write_head(out, 2, 32);
    push_be32(out, v);
    proof {
        lemma_bytes_of_len(v.as_nat(), 32);
        assert(out@ =~= base + enc_bstr(bytes_of(v.as_nat(), 32)));
    }
}

/// Write an output.
pub fn write_output(out: &mut Vec<u8>, o: &TransactionOutput)
    ensures
        final (out)@ == old(out)@ + enc_output(o@),
{
    let ghost base = out@;
    write_head(out, 4, 3);
    write_uint(out, o.value);
    write_head(out, 2, 16);
    push_be16(out, o.unique_id);
    write_bstr(out, &o.pubkey.bytes);
    proof {
        lemma_bytes_of_len(o.unique_id as nat, 16);
        assert(out@ =~= base + enc_output(o@));
    }
}

/// Write an input.
pub fn write_input(out: &mut Vec<u8>, i: &TransactionInput)
    ensures
        final (out)@ == old(out)@ + enc_input(i@),
{
    let ghost base = out@;
    write_head(out, 4, 2);
    write_hash(out, &i.prev_tx_output_hash);
    write_bstr(out, &i.signature.bytes);
    proof {
        assert(out@ =~= base + enc_input(i@));
    }
}

/// Write a list of inputs as an array.
pub fn write_inputs(out: &mut Vec<u8>, v: &Vec<TransactionInput>)
    ensures
        final (out)@ == old(out)@ + enc_head(4, v@.len()) + enc_inputs(
            v@.map_values(|i: TransactionInput| i@),
        ),
{
    let ghost base = out@;
    let ghost m = v@.map_values(|i: TransactionInput| i@);
    write_head(out, 4, v.len() as u64);
    let n = v.len();
    let mut i: usize = 0;
    while i < n
        invariant
            i <= n,
            n == v@.len(),
            m == v@.map_values(|x: TransactionInput| x@),
            out@ == base + enc_head(4, n as nat) + enc_inputs(m.take(i as int)),
        decreases n - i,
    {
        write_input(out, &v[i]);
        proof {
            assert(m.take(i + 1).drop_last() =~= m.take(i as int));
            assert(m.take(i + 1).last() == v@[i as int]@);
            assert(out@ =~= base + enc_head(4, n as nat) + enc_inputs(m.take(i + 1)));
        }
        i = i + 1;
    }
    proof {
        assert(m.take(n as int) =~= m);
    }
}

/// Write a list of outputs as an array.
pub fn write_outputs(out: &mut Vec<u8>, v: &Vec<TransactionOutput>)
    ensures
        final (out)@ == old(out)@ + enc_head(4, v@.len()) + enc_outputs(
            v@.map_values(|o: TransactionOutput| o@),
        ),
{
    let ghost base = out@;
    let ghost m = v@.map_values(|o: TransactionOutput| o@);
    write_head(out, 4, v.len() as u64);
    let n = v.len();
    let mut i: usize = 0;
    while i < n
        invariant
            i <= n,
            n == v@.len(),
            m == v@.map_values(|x: TransactionOutput| x@),
            out@ == base + enc_head(4, n as nat) + enc_outputs(m.take(i as int)),
        decreases n - i,
    {
        write_output(out, &v[i]);
        proof {
            assert(m.take(i + 1).drop_last() =~= m.take(i as int));
            assert(m.take(i + 1).last() == v@[i as int]@);
            assert(out@ =~= base + enc_head(4, n as nat) + enc_outputs(m.take(i + 1)));
        }
        i = i + 1;
    }
    proof {
        assert(m.take(n as int) =~= m);
    }
}

/// Write a transaction.
pub fn write_tx(out: &mut Vec<u8>, t: &Transaction)
    ensures
        final (out)@ == old(out)@ + enc_tx(t@),
{
    let ghost base = out@;
    write_head(out, 4, 2);
    write_inputs(out, &t.inputs);
    write_outputs(out, &t.outputs);
    proof {
        assert(out@ =~= base + enc_tx(t@));
    }
}

/// Write a list of transactions as an array.
pub fn write_txs(out: &mut Vec<u8>, v: &Vec<Transaction>)
    ensures
        final (out)@ == old(out)@ + enc_head(4, v@.len()) + enc_txs(
            v@.map_values(|t: Transaction| t@),
        ),
{
    let ghost base = out@;
    let ghost m = v@.map_values(|t: Transaction| t@);
    write_head(out, 4, v.len() as u64);
    let n = v.len();
    let mut i: usize = 0;
    while i < n
        invariant
            i <= n,
            n == v@.len(),
            m == v@.map_values(|x: Transaction| x@),
            out@ == base + enc_head(4, n as nat) + enc_txs(m.take(i as int)),
        decreases n - i,
    {
        write_tx(out, &v[i]);
        proof {
            assert(m.take(i + 1).drop_last() =~= m.take(i as int));
            assert(m.take(i + 1).last() == v@[i as int]@);
            assert(out@ =~= base + enc_head(4, n as nat) + enc_txs(m.take(i + 1)));
        }
        i = i + 1;
    }
    proof {
        assert(m.take(n as int) =~= m);
    }
}

/// Write a header.
pub fn write_header(out: &mut Vec<u8>, h: &BlockHeader)
    ensures
        final (out)@ == old(out)@ + enc_header(h@),
{
    let ghost base = out@;
    write_head(out, 4, 5);
    write_uint(out, h.timestamp);
    write_uint(out, h.nonce);
    write_hash(out, &h.prev_block_hash);
    write_hash(out, &h.merkle_root);
    write_u256(out, &h.target);
    proof {
        assert(out@ =~= base + enc_header(h@));
    }
}

/// Write a block.
pub fn write_block(out: &mut Vec<u8>, b: &Block)
    ensures
        final (out)@ == old(out)@ + enc_block(b@),
{
    let ghost base = out@;
    write_head(out, 4, 2);
    write_header(out, &b.header);
    write_txs(out, &b.transactions);
    proof {
        assert(out@ =~= base + enc_block(b@));
    }
}

/// Parse a CBOR head at a position: the major type, the argument, and
/// the position after.
pub open spec fn dec_head(s: Seq<u8>, i: int) -> Option<(u8, nat, int)> {
    if 0 <= i < s.len() {
        let major = s[i] / 32;
        let ai = s[i] % 32;
        if ai < 24 {
            Some((major, ai as nat, i + 1))
        } else if ai == 24 && i + 2 <= s.len() {
            Some((major, be_val(s.subrange(i + 1, i + 2)), i + 2))
        } else if ai == 25 && i + 3 <= s.len() {
            Some((major, be_val(s.subrange(i + 1, i + 3)), i + 3))
        } else if ai == 26 && i + 5 <= s.len() {
            Some((major, be_val(s.subrange(i + 1, i + 5)), i + 5))
        } else if ai == 27 && i + 9 <= s.len() {
            Some((major, be_val(s.subrange(i + 1, i + 9)), i + 9))
        } else {
            None
        }
    } else {
        None
    }
}

/// Parsing an encoded head yields what was encoded.
pub proof fn lemma_dec_enc_head(major: u8, n: nat, s: Seq<u8>, i: int)
    requires
        major < 8,
        n < 0x1_0000_0000_0000_0000nat,
        0 <= i,
        i + enc_head(major, n).len() <= s.len(),
        s.subrange(i, i + enc_head(major, n).len()) == enc_head(major, n),
    ensures
        dec_head(s, i) == Some((major, n, i + enc_head(major, n).len())),
{
    let e = enc_head(major, n);
    assert(s[i] == e[0]);
    if n < 24 {
        assert(e[0] == major * 32 + n);
        assert(s[i] / 32 == major && s[i] % 32 == n);
    } else if n < 0x100 {
        lemma_bytes_of_len(n, 1);
        assert(e[0] == major * 32 + 24);
        assert(s[i] / 32 == major && s[i] % 32 == 24);
        lemma_subrange_split(s, i, seq![(major * 32 + 24) as u8], bytes_of(n, 1));
        assert(s.subrange(i + 1, i + 2) == bytes_of(n, 1));
        lemma_pow256n_small();
        lemma_be_val_bytes_of(n, 1);
    } else if n < 0x1_0000 {
        lemma_bytes_of_len(n, 2);
        assert(e[0] == major * 32 + 25);
        assert(s[i] / 32 == major && s[i] % 32 == 25);
        lemma_subrange_split(s, i, seq![(major * 32 + 25) as u8], bytes_of(n, 2));
        assert(s.subrange(i + 1, i + 3) == bytes_of(n, 2));
        lemma_pow256n_small();
        lemma_be_val_bytes_of(n, 2);
    } else if n < 0x1_0000_0000 {
        lemma_bytes_of_len(n, 4);
        assert(e[0] == major * 32 + 26);
        assert(s[i] / 32 == major && s[i] % 32 == 26);
        lemma_subrange_split(s, i, seq![(major * 32 + 26) as u8], bytes_of(n, 4));
        assert(s.subrange(i + 1, i + 5) == bytes_of(n, 4));
        lemma_pow256n_small();
        lemma_be_val_bytes_of(n, 4);
    } else {
        lemma_bytes_of_len(n, 8);
        assert(e[0] == major * 32 + 27);
        assert(s[i] / 32 == major && s[i] % 32 == 27);
        lemma_subrange_split(s, i, seq![(major * 32 + 27) as u8], bytes_of(n, 8));
        assert(s.subrange(i + 1, i + 9) == bytes_of(n, 8));
        lemma_pow256n_8();
        lemma_be_val_bytes_of(n, 8);
    }
}

/// A concatenation under a subrange splits into its parts.
pub proof fn lemma_subrange_split(s: Seq<u8>, i: int, a: Seq<u8>, b: Seq<u8>)
    requires
        0 <= i,
        i + a.len() + b.len() <= s.len(),
        s.subrange(i, i + a.len() + b.len()) == a + b,
    ensures
        s.subrange(i, i + a.len()) == a,
        s.subrange(i + a.len(), i + a.len() + b.len()) == b,
{
    let w = s.subrange(i, i + a.len() + b.len());
    assert forall|k: int| 0 <= k < a.len() implies s.subrange(i, i + a.len() as int)[k] == a[k]
        by {
        assert(w[k] == (a + b)[k]);
    }
    assert(s.subrange(i, i + a.len()) =~= a);
    assert forall|k: int|
        0 <= k < b.len() implies s.subrange(
        i + a.len(),
        i + a.len() + b.len(),
    )[k] == b[k] by {
        assert(w[a.len() + k] == (a + b)[a.len() + k]);
    }
    assert(s.subrange(i + a.len(), i + a.len() + b.len()) =~= b);
}

/// Parse a byte string: a head of major type two, then that many bytes.
pub open spec fn dec_bstr(s: Seq<u8>, i: int) -> Option<(Seq<u8>, int)> {
    match dec_head(s, i) {
        Some((major, n, j)) => {
            if major == 2 && j + n <= s.len() {
                Some((s.subrange(j, j + n), j + n))
            } else {
                None
            }
        },
        None => None,
    }
}

/// Parsing an encoded byte string yields what was encoded.
pub proof fn lemma_dec_enc_bstr(b: Seq<u8>, s: Seq<u8>, i: int)
    requires
        b.len() < 0x1_0000_0000_0000_0000nat,
        0 <= i,
        i + enc_bstr(b).len() <= s.len(),
        s.subrange(i, i + enc_bstr(b).len()) == enc_bstr(b),
    ensures
        dec_bstr(s, i) == Some((b, i + enc_bstr(b).len())),
{
    let h = enc_head(2, b.len());
    lemma_subrange_split(s, i, h, b);
    lemma_dec_enc_head(2, b.len(), s, i);
}

/// Parse an unsigned integer: a head of major type zero.
pub open spec fn dec_uint(s: Seq<u8>, i: int) -> Option<(nat, int)> {
    match dec_head(s, i) {
        Some((major, n, j)) => {
            if major == 0 {
                Some((n, j))
            } else {
                None
            }
        },
        None => None,
    }
}

/// Parsing an encoded unsigned integer yields what was encoded.
pub proof fn lemma_dec_enc_uint(n: nat, s: Seq<u8>, i: int)
    requires
        n < 0x1_0000_0000_0000_0000nat,
        0 <= i,
        i + enc_uint(n).len() <= s.len(),
        s.subrange(i, i + enc_uint(n).len()) == enc_uint(n),
    ensures
        dec_uint(s, i) == Some((n, i + enc_uint(n).len())),
{
    lemma_dec_enc_head(0, n, s, i);
}

/// Parse an array head: major type four, carrying the element count.
pub open spec fn dec_arr(s: Seq<u8>, i: int) -> Option<(nat, int)> {
    match dec_head(s, i) {
        Some((major, n, j)) => {
            if major == 4 {
                Some((n, j))
            } else {
                None
            }
        },
        None => None,
    }
}

/// Parsing an encoded array head yields what was encoded.
pub proof fn lemma_dec_enc_arr(n: nat, s: Seq<u8>, i: int)
    requires
        n < 0x1_0000_0000_0000_0000nat,
        0 <= i,
        i + enc_head(4, n).len() <= s.len(),
        s.subrange(i, i + enc_head(4, n).len()) == enc_head(4, n),
    ensures
        dec_arr(s, i) == Some((n, i + enc_head(4, n).len())),
{
    lemma_dec_enc_head(4, n, s, i);
}

/// Parse a boolean.
pub open spec fn dec_bool(s: Seq<u8>, i: int) -> Option<(bool, int)> {
    if 0 <= i < s.len() {
        if s[i] == 0xf5 {
            Some((true, i + 1))
        } else if s[i] == 0xf4 {
            Some((false, i + 1))
        } else {
            None
        }
    } else {
        None
    }
}

/// Parsing an encoded boolean yields what was encoded.
pub proof fn lemma_dec_enc_bool(b: bool, s: Seq<u8>, i: int)
    requires
        0 <= i,
        i + 1 <= s.len(),
        s.subrange(i, i + 1) == enc_bool(b),
    ensures
        dec_bool(s, i) == Some((b, i + 1)),
{
    assert(s[i] == enc_bool(b)[0]);
}

/// Parse a 32-byte string as a 256-bit value.
pub open spec fn dec_b256(s: Seq<u8>, i: int) -> Option<(nat, int)> {
    match dec_bstr(s, i) {
        Some((b, j)) => {
            if b.len() == 32 {
                Some((be_val(b), j))
            } else {
                None
            }
        },
        None => None,
    }
}

/// Parsing an encoded 256-bit value yields it back.
pub proof fn lemma_dec_enc_b256(n: nat, s: Seq<u8>, i: int)
    requires
        n < crate::u256::pow256(),
        0 <= i,
        i + enc_bstr(bytes_of(n, 32)).len() <= s.len(),
        s.subrange(i, i + enc_bstr(bytes_of(n, 32)).len()) == enc_bstr(bytes_of(n, 32)),
    ensures
        dec_b256(s, i) == Some((n, i + enc_bstr(bytes_of(n, 32)).len())),
{
    lemma_bytes_of_len(n, 32);
    lemma_dec_enc_bstr(bytes_of(n, 32), s, i);
    lemma_pow256n_32();
    lemma_be_val_bytes_of(n, 32);
}

/// The small powers of 256 the head widths use.
pub proof fn lemma_pow256n_small()
    ensures
        pow256n(1) == 256,
        pow256n(2) == 0x1_0000,
        pow256n(4) == 0x1_0000_0000,
{
    reveal_with_fuel(pow256n, 5);
}

/// `256^32` is `2^256`.
pub proof fn lemma_pow256n_32()
    ensures
        pow256n(32) == crate::u256::pow256(),
{
    reveal_with_fuel(pow256n, 33);
}

/// Parse a 16-byte string as a 128-bit value.
pub open spec fn dec_b128(s: Seq<u8>, i: int) -> Option<(nat, int)> {
    match dec_bstr(s, i) {
        Some((b, j)) => {
            if b.len() == 16 {
                Some((be_val(b), j))
            } else {
                None
            }
        },
        None => None,
    }
}

/// Parsing an encoded 128-bit value yields it back.
pub proof fn lemma_dec_enc_b128(n: u128, s: Seq<u8>, i: int)
    requires
        0 <= i,
        i + enc_bstr(bytes_of(n as nat, 16)).len() <= s.len(),
        s.subrange(i, i + enc_bstr(bytes_of(n as nat, 16)).len()) == enc_bstr(
            bytes_of(n as nat, 16),
        ),
    ensures
        dec_b128(s, i) == Some((n as nat, i + enc_bstr(bytes_of(n as nat, 16)).len())),
{
    lemma_bytes_of_len(n as nat, 16);
    lemma_dec_enc_bstr(bytes_of(n as nat, 16), s, i);
    lemma_pow256n_16();
    lemma_be_val_bytes_of(n as nat, 16);
}

/// An output's shape admits encoding: its key fits a length field.
pub open spec fn output_vwf(o: OutputV) -> bool {
    o.pubkey.len() < 0x1_0000_0000_0000_0000nat
}

/// An input's shape admits encoding.
pub open spec fn input_vwf(i: InputV) -> bool {
    &&& i.prev_tx_output_hash < crate::u256::pow256()
    &&& i.signature.len() < 0x1_0000_0000_0000_0000nat
}

/// A transaction's shape admits encoding.
pub open spec fn tx_vwf(t: TxV) -> bool {
    &&& t.inputs.len() < 0x1_0000_0000_0000_0000nat
    &&& t.outputs.len() < 0x1_0000_0000_0000_0000nat
    &&& forall|l: int| 0 <= l < t.inputs.len() ==> input_vwf(#[trigger] t.inputs[l])
    &&& forall|l: int| 0 <= l < t.outputs.len() ==> output_vwf(#[trigger] t.outputs[l])
}

/// A header's shape admits encoding.
pub open spec fn header_vwf(h: HeaderV) -> bool {
    &&& h.prev_block_hash < crate::u256::pow256()
    &&& h.merkle_root < crate::u256::pow256()
    &&& h.target < crate::u256::pow256()
}

/// A block's shape admits encoding.
pub open spec fn block_vwf(b: BlockV) -> bool {
    &&& header_vwf(b.header)
    &&& b.transactions.len() < 0x1_0000_0000_0000_0000nat
    &&& forall|l: int| 0 <= l < b.transactions.len() ==> tx_vwf(#[trigger] b.transactions[l])
}

/// Parse an output.
pub open spec fn dec_output(s: Seq<u8>, i: int) -> Option<(OutputV, int)> {
    match dec_arr(s, i) {
        Some((n, j)) => {
            if n == 3 {
                match dec_uint(s, j) {
                    Some((v, j2)) => {
                        match dec_b128(s, j2) {
                            Some((uid, j3)) => {
                                match dec_bstr(s, j3) {
                                    Some((pk, j4)) => Some(
                                        (
                                            OutputV {
                                                value: v as u64,
                                                unique_id: uid as u128,
                                                pubkey: pk,
                                            },
                                            j4,
                                        ),
                                    ),
                                    None => None,
                                }
                            },
                            None => None,
                        }
                    },
                    None => None,
                }
            } else {
                None
            }
        },
        None => None,
    }
}

/// Parsing an encoded output yields it back.
pub proof fn lemma_dec_enc_output(o: OutputV, s: Seq<u8>, i: int)
    requires
        output_vwf(o),
        0 <= i,
        i + enc_output(o).len() <= s.len(),
        s.subrange(i, i + enc_output(o).len()) == enc_output(o),
    ensures
        dec_output(s, i) == Some((o, i + enc_output(o).len())),
{
    let a = enc_head(4, 3);
    let b = enc_uint(o.value as nat);
    let c = enc_bstr(bytes_of(o.unique_id as nat, 16));
    let d = enc_bstr(o.pubkey);
    assert(enc_output(o) =~= a + (b + (c + d)));
    lemma_subrange_split(s, i, a, b + (c + d));
    lemma_dec_enc_arr(3, s, i);
    lemma_subrange_split(s, i + a.len(), b, c + d);
    lemma_dec_enc_uint(o.value as nat, s, i + a.len());
    lemma_subrange_split(s, i + a.len() + b.len(), c, d);
    lemma_bytes_of_len(o.unique_id as nat, 16);
    lemma_dec_enc_b128(o.unique_id, s, i + a.len() + b.len());
    lemma_dec_enc_bstr(o.pubkey, s, i + a.len() + b.len() + c.len());
}

/// Parse an input.
pub open spec fn dec_input(s: Seq<u8>, i: int) -> Option<(InputV, int)> {
    match dec_arr(s, i) {
        Some((n, j)) => {
            if n == 2 {
                match dec_b256(s, j) {
                    Some((prev, j2)) => {
                        match dec_bstr(s, j2) {
                            Some((sig, j3)) => Some(
                                (InputV { prev_tx_output_hash: prev, signature: sig }, j3),
                            ),
                            None => None,
                        }
                    },
                    None => None,
                }
            } else {
                None
            }
        },
        None => None,
    }
}

/// Parsing an encoded input yields it back.
pub proof fn lemma_dec_enc_input(inp: InputV, s: Seq<u8>, i: int)
    requires
        input_vwf(inp),
        0 <= i,
        i + enc_input(inp).len() <= s.len(),
        s.subrange(i, i + enc_input(inp).len()) == enc_input(inp),
    ensures
        dec_input(s, i) == Some((inp, i + enc_input(inp).len())),
{
    let a = enc_head(4, 2);
    let b = enc_bstr(bytes_of(inp.prev_tx_output_hash, 32));
    let c = enc_bstr(inp.signature);
    assert(enc_input(inp) =~= a + (b + c));
    lemma_subrange_split(s, i, a, b + c);
    lemma_dec_enc_arr(2, s, i);
    lemma_subrange_split(s, i + a.len(), b, c);
    lemma_bytes_of_len(inp.prev_tx_output_hash, 32);
    lemma_dec_enc_b256(inp.prev_tx_output_hash, s, i + a.len());
    lemma_dec_enc_bstr(inp.signature, s, i + a.len() + b.len());
}

/// Parse `n` consecutive elements.
pub open spec fn dec_output_list(s: Seq<u8>, i: int, n: nat) -> Option<(Seq<OutputV>, int)>
    decreases n,
{
    if n == 0 {
        Some((Seq::empty(), i))
    } else {
        match dec_output(s, i) {
            Some((o, j)) => {
                match dec_output_list(s, j, (n - 1) as nat) {
                    Some((rest, j2)) => Some((seq![o] + rest, j2)),
                    None => None,
                }
            },
            None => None,
        }
    }
}

/// A non-empty concatenated encoding starts with its first element.
pub proof fn lemma_enc_output_list_first(v: Seq<OutputV>)
    requires
        v.len() > 0,
    ensures
        enc_outputs(v) == enc_output(v.first()) + enc_outputs(v.drop_first()),
    decreases v.len(),
{
    if v.len() == 1 {
        assert(v.drop_last() =~= Seq::<OutputV>::empty());
        assert(v.drop_first() =~= Seq::<OutputV>::empty());
        assert(enc_outputs(v) =~= enc_output(v.first()) + enc_outputs(v.drop_first()));
    } else {
        let dl = v.drop_last();
        lemma_enc_output_list_first(dl);
        assert(dl.first() == v.first());
        assert(v.drop_first().drop_last() =~= dl.drop_first());
        assert(v.drop_first().last() == v.last());
        assert(enc_outputs(v.drop_first()) == enc_outputs(dl.drop_first()) + enc_output(v.last()));
        assert(enc_outputs(v) =~= enc_output(v.first()) + enc_outputs(v.drop_first()));
    }
}

/// Parsing a concatenation of encoded elements yields them back.
#[verifier::rlimit(100)]
pub proof fn lemma_dec_enc_output_list(v: Seq<OutputV>, s: Seq<u8>, i: int)
    requires
        forall|l: int| 0 <= l < v.len() ==> output_vwf(#[trigger] v[l]),
        0 <= i,
        i + enc_outputs(v).len() <= s.len(),
        s.subrange(i, i + enc_outputs(v).len()) == enc_outputs(v),
    ensures
        dec_output_list(s, i, v.len()) == Some((v, i + enc_outputs(v).len())),
    decreases v.len(),
{
    if v.len() == 0 {
    } else {
        lemma_enc_output_list_first(v);
        let a = enc_output(v.first());
        let b = enc_outputs(v.drop_first());
        lemma_subrange_split(s, i, a, b);
        lemma_dec_enc_output(v.first(), s, i);
        assert(forall|l: int|
            0 <= l < v.drop_first().len() ==> output_vwf(#[trigger] v.drop_first()[l])) by {
            assert(forall|l: int|
                0 <= l < v.drop_first().len() ==> v.drop_first()[l] == v[l + 1]);
        }
        lemma_dec_enc_output_list(v.drop_first(), s, i + a.len());
        assert(seq![v.first()] + v.drop_first() =~= v);
    }
}

/// Parse `n` consecutive elements.
pub open spec fn dec_input_list(s: Seq<u8>, i: int, n: nat) -> Option<(Seq<InputV>, int)>
    decreases n,
{
    if n == 0 {
        Some((Seq::empty(), i))
    } else {
        match dec_input(s, i) {
            Some((o, j)) => {
                match dec_input_list(s, j, (n - 1) as nat) {
                    Some((rest, j2)) => Some((seq![o] + rest, j2)),
                    None => None,
                }
            },
            None => None,
        }
    }
}

/// A non-empty concatenated encoding starts with its first element.
pub proof fn lemma_enc_input_list_first(v: Seq<InputV>)
    requires
        v.len() > 0,
    ensures
        enc_inputs(v) == enc_input(v.first()) + enc_inputs(v.drop_first()),
    decreases v.len(),
{
    if v.len() == 1 {
        assert(v.drop_last() =~= Seq::<InputV>::empty());
        assert(v.drop_first() =~= Seq::<InputV>::empty());
        assert(enc_inputs(v) =~= enc_input(v.first()) + enc_inputs(v.drop_first()));
    } else {
        let dl = v.drop_last();
        lemma_enc_input_list_first(dl);
        assert(dl.first() == v.first());
        assert(v.drop_first().drop_last() =~= dl.drop_first());
        assert(v.drop_first().last() == v.last());
        assert(enc_inputs(v.drop_first()) == enc_inputs(dl.drop_first()) + enc_input(v.last()));
        assert(enc_inputs(v) =~= enc_input(v.first()) + enc_inputs(v.drop_first()));
    }
}

/// Parsing a concatenation of encoded elements yields them back.
#[verifier::rlimit(100)]
pub proof fn lemma_dec_enc_input_list(v: Seq<InputV>, s: Seq<u8>, i: int)
    requires
        forall|l: int| 0 <= l < v.len() ==> input_vwf(#[trigger] v[l]),
        0 <= i,
        i + enc_inputs(v).len() <= s.len(),
        s.subrange(i, i + enc_inputs(v).len()) == enc_inputs(v),
    ensures
        dec_input_list(s, i, v.len()) == Some((v, i + enc_inputs(v).len())),
    decreases v.len(),
{
    if v.len() == 0 {
    } else {
        lemma_enc_input_list_first(v);
        let a = enc_input(v.first());
        let b = enc_inputs(v.drop_first());
        lemma_subrange_split(s, i, a, b);
        lemma_dec_enc_input(v.first(), s, i);
        assert(forall|l: int|
            0 <= l < v.drop_first().len() ==> input_vwf(#[trigger] v.drop_first()[l])) by {
            assert(forall|l: int|
                0 <= l < v.drop_first().len() ==> v.drop_first()[l] == v[l + 1]);
        }
        lemma_dec_enc_input_list(v.drop_first(), s, i + a.len());
        assert(seq![v.first()] + v.drop_first() =~= v);
    }
}

/// Parse a transaction.
pub open spec fn dec_tx(s: Seq<u8>, i: int) -> Option<(TxV, int)> {
    match dec_arr(s, i) {
        Some((n, j)) => {
            if n == 2 {
                match dec_arr(s, j) {
                    Some((ni, j2)) => {
                        match dec_input_list(s, j2, ni) {
                            Some((ins, j3)) => {
                                match dec_arr(s, j3) {
                                    Some((no, j4)) => {
                                        match dec_output_list(s, j4, no) {
                                            Some((outs, j5)) => Some(
                                                (TxV { inputs: ins, outputs: outs }, j5),
                                            ),
                                            None => None,
                                        }
                                    },
                                    None => None,
                                }
                            },
                            None => None,
                        }
                    },
                    None => None,
                }
            } else {
                None
            }
        },
        None => None,
    }
}

/// Parsing an encoded transaction yields it back.
#[verifier::rlimit(100)]
pub proof fn lemma_dec_enc_tx(t: TxV, s: Seq<u8>, i: int)
    requires
        tx_vwf(t),
        0 <= i,
        i + enc_tx(t).len() <= s.len(),
        s.subrange(i, i + enc_tx(t).len()) == enc_tx(t),
    ensures
        dec_tx(s, i) == Some((t, i + enc_tx(t).len())),
{
    let a = enc_head(4, 2);
    let b = enc_head(4, t.inputs.len());
    let c = enc_inputs(t.inputs);
    let d = enc_head(4, t.outputs.len());
    let e = enc_outputs(t.outputs);
    assert(enc_tx(t) =~= a + (b + (c + (d + e))));
    lemma_subrange_split(s, i, a, b + (c + (d + e)));
    lemma_dec_enc_arr(2, s, i);
    lemma_subrange_split(s, i + a.len(), b, c + (d + e));
    lemma_dec_enc_arr(t.inputs.len(), s, i + a.len());
    lemma_subrange_split(s, i + a.len() + b.len(), c, d + e);
    lemma_dec_enc_input_list(t.inputs, s, i + a.len() + b.len());
    lemma_subrange_split(s, i + a.len() + b.len() + c.len(), d, e);
    lemma_dec_enc_arr(t.outputs.len(), s, i + a.len() + b.len() + c.len());
    lemma_dec_enc_output_list(t.outputs, s, i + a.len() + b.len() + c.len() + d.len());
    assert(TxV { inputs: t.inputs, outputs: t.outputs } == t);
}

/// Parse `n` consecutive elements.
pub open spec fn dec_tx_list(s: Seq<u8>, i: int, n: nat) -> Option<(Seq<TxV>, int)>
    decreases n,
{
    if n == 0 {
        Some((Seq::empty(), i))
    } else {
        match dec_tx(s, i) {
            Some((o, j)) => {
                match dec_tx_list(s, j, (n - 1) as nat) {
                    Some((rest, j2)) => Some((seq![o] + rest, j2)),
                    None => None,
                }
            },
            None => None,
        }
    }
}

/// A non-empty concatenated encoding starts with its first element.
pub proof fn lemma_enc_tx_list_first(v: Seq<TxV>)
    requires
        v.len() > 0,
    ensures
        enc_txs(v) == enc_tx(v.first()) + enc_txs(v.drop_first()),
    decreases v.len(),
{
    if v.len() == 1 {
        assert(v.drop_last() =~= Seq::<TxV>::empty());
        assert(v.drop_first() =~= Seq::<TxV>::empty());
        assert(enc_txs(v) =~= enc_tx(v.first()) + enc_txs(v.drop_first()));
    } else {
        let dl = v.drop_last();
        lemma_enc_tx_list_first(dl);
        assert(dl.first() == v.first());
        assert(v.drop_first().drop_last() =~= dl.drop_first());
        assert(v.drop_first().last() == v.last());
        assert(enc_txs(v.drop_first()) == enc_txs(dl.drop_first()) + enc_tx(v.last()));
        assert(enc_txs(v) =~= enc_tx(v.first()) + enc_txs(v.drop_first()));
    }
}

/// Parsing a concatenation of encoded elements yields them back.
#[verifier::rlimit(100)]
pub proof fn lemma_dec_enc_tx_list(v: Seq<TxV>, s: Seq<u8>, i: int)
    requires
        forall|l: int| 0 <= l < v.len() ==> tx_vwf(#[trigger] v[l]),
        0 <= i,
        i + enc_txs(v).len() <= s.len(),
        s.subrange(i, i + enc_txs(v).len()) == enc_txs(v),
    ensures
        dec_tx_list(s, i, v.len()) == Some((v, i + enc_txs(v).len())),
    decreases v.len(),
{
    if v.len() == 0 {
    } else {
        lemma_enc_tx_list_first(v);
        let a = enc_tx(v.first());
        let b = enc_txs(v.drop_first());
        lemma_subrange_split(s, i, a, b);
        lemma_dec_enc_tx(v.first(), s, i);
        assert(forall|l: int|
            0 <= l < v.drop_first().len() ==> tx_vwf(#[trigger] v.drop_first()[l])) by {
            assert(forall|l: int|
                0 <= l < v.drop_first().len() ==> v.drop_first()[l] == v[l + 1]);
        }
        lemma_dec_enc_tx_list(v.drop_first(), s, i + a.len());
        assert(seq![v.first()] + v.drop_first() =~= v);
    }
}

/// Parse a header.
pub open spec fn dec_header(s: Seq<u8>, i: int) -> Option<(HeaderV, int)> {
    match dec_arr(s, i) {
        Some((n, j)) => {
            if n == 5 {
                match dec_uint(s, j) {
                    Some((ts, j2)) => {
                        match dec_uint(s, j2) {
                            Some((nonce, j3)) => {
                                match dec_b256(s, j3) {
                                    Some((prev, j4)) => {
                                        match dec_b256(s, j4) {
                                            Some((merkle, j5)) => {
                                                match dec_b256(s, j5) {
                                                    Some((target, j6)) => Some(
                                                        (
                                                            HeaderV {
                                                                timestamp: ts as u64,
                                                                nonce: nonce as u64,
                                                                prev_block_hash: prev,
                                                                merkle_root: merkle,
                                                                target: target,
                                                            },
                                                            j6,
                                                        ),
                                                    ),
                                                    None => None,
                                                }
                                            },
                                            None => None,
                                        }
                                    },
                                    None => None,
                                }
                            },
                            None => None,
                        }
                    },
                    None => None,
                }
            } else {
                None
            }
        },
        None => None,
    }
}

/// Parsing an encoded header yields it back.
#[verifier::rlimit(100)]
pub proof fn lemma_dec_enc_header(h: HeaderV, s: Seq<u8>, i: int)
    requires
        header_vwf(h),
        0 <= i,
        i + enc_header(h).len() <= s.len(),
        s.subrange(i, i + enc_header(h).len()) == enc_header(h),
    ensures
        dec_header(s, i) == Some((h, i + enc_header(h).len())),
{
    let a = enc_head(4, 5);
    let b = enc_uint(h.timestamp as nat);
    let c = enc_uint(h.nonce as nat);
    let d = enc_bstr(bytes_of(h.prev_block_hash, 32));
    let e = enc_bstr(bytes_of(h.merkle_root, 32));
    let f = enc_bstr(bytes_of(h.target, 32));
    assert(enc_header(h) =~= a + (b + (c + (d + (e + f)))));
    lemma_subrange_split(s, i, a, b + (c + (d + (e + f))));
    lemma_dec_enc_arr(5, s, i);
    lemma_subrange_split(s, i + a.len(), b, c + (d + (e + f)));
    lemma_dec_enc_uint(h.timestamp as nat, s, i + a.len());
    lemma_subrange_split(s, i + a.len() + b.len(), c, d + (e + f));
    lemma_dec_enc_uint(h.nonce as nat, s, i + a.len() + b.len());
    lemma_bytes_of_len(h.prev_block_hash, 32);
    lemma_bytes_of_len(h.merkle_root, 32);
    lemma_bytes_of_len(h.target, 32);
    lemma_subrange_split(s, i + a.len() + b.len() + c.len(), d, e + f);
    lemma_dec_enc_b256(h.prev_block_hash, s, i + a.len() + b.len() + c.len());
    lemma_subrange_split(s, i + a.len() + b.len() + c.len() + d.len(), e, f);
    lemma_dec_enc_b256(h.merkle_root, s, i + a.len() + b.len() + c.len() + d.len());
    lemma_dec_enc_b256(h.target, s, i + a.len() + b.len() + c.len() + d.len() + e.len());
    assert(HeaderV {
        timestamp: h.timestamp,
        nonce: h.nonce,
        prev_block_hash: h.prev_block_hash,
        merkle_root: h.merkle_root,
        target: h.target,
    } == h);
}

/// Parse a block.
#[verifier::opaque]
pub open spec fn dec_block(s: Seq<u8>, i: int) -> Option<(BlockV, int)> {
    match dec_arr(s, i) {
        Some((n, j)) => {
            if n == 2 {
                match dec_header(s, j) {
                    Some((h, j2)) => {
                        match dec_arr(s, j2) {
                            Some((nt, j3)) => {
                                match dec_tx_list(s, j3, nt) {
                                    Some((txs, j4)) => Some(
                                        (BlockV { header: h, transactions: txs }, j4),
                                    ),
                                    None => None,
                                }
                            },
                            None => None,
                        }
                    },
                    None => None,
                }
            } else {
                None
            }
        },
        None => None,
    }
}

/// Parsing an encoded block yields it back.
#[verifier::rlimit(100)]
pub proof fn lemma_dec_enc_block(b: BlockV, s: Seq<u8>, i: int)
    requires
        block_vwf(b),
        0 <= i,
        i + enc_block(b).len() <= s.len(),
        s.subrange(i, i + enc_block(b).len()) == enc_block(b),
    ensures
        dec_block(s, i) == Some((b, i + enc_block(b).len())),
{
    reveal(dec_block);
    let a = enc_head(4, 2);
    let hb = enc_header(b.header);
    let c = enc_head(4, b.transactions.len());
    let d = enc_txs(b.transactions);
    assert(enc_block(b) =~= a + (hb + (c + d)));
    lemma_subrange_split(s, i, a, hb + (c + d));
    lemma_dec_enc_arr(2, s, i);
    lemma_subrange_split(s, i + a.len(), hb, c + d);
    lemma_dec_enc_header(b.header, s, i + a.len());
    lemma_subrange_split(s, i + a.len() + hb.len(), c, d);
    lemma_dec_enc_arr(b.transactions.len(), s, i + a.len() + hb.len());
    lemma_dec_enc_tx_list(b.transactions, s, i + a.len() + hb.len() + c.len());
    assert(BlockV { header: b.header, transactions: b.transactions } == b);
}

/// Prefix the elements inside a parse result.
pub open spec fn prepend_list<T>(r: Option<(Seq<T>, int)>, pre: Seq<T>) -> Option<
    (Seq<T>, int),
> {
    match r {
        Some(p) => Some((pre + p.0, p.1)),
        None => None,
    }
}

/// Read a CBOR head.
pub(crate) fn read_head(bytes: &Vec<u8>, pos: usize) -> (r: Option<(u8, u64, usize)>)
    ensures
        match r {
            Some(p) => dec_head(bytes@, pos as int) == Some((p.0, p.1 as nat, p.2 as int))
                && pos < p.2 <= bytes@.len(),
            None => dec_head(bytes@, pos as int) is None,
        },
{
    let n = bytes.len();
    if pos >= n {
        return None;
    }
    let b = bytes[pos];
    let major = b / 32;
    let ai = b % 32;
    if ai < 24 {
        Some((major, ai as u64, pos + 1))
    } else if ai == 24 {
        if n - pos >= 2 {
            let v = bytes[pos + 1] as u64;
            proof {
                let t = bytes@.subrange(pos as int + 1, pos as int + 2);
                assert(t.len() == 1);
                assert(t.drop_last() =~= Seq::<u8>::empty());
                assert(be_val(Seq::<u8>::empty()) == 0);
                assert(t.last() == bytes@[pos as int + 1]);
                assert(be_val(t) == bytes@[pos as int + 1]);
            }
            Some((major, v, pos + 2))
        } else {
            None
        }
    } else if ai == 25 {
        if n - pos >= 3 {
            Some((major, read_be2(bytes, pos + 1), pos + 3))
        } else {
            None
        }
    } else if ai == 26 {
        if n - pos >= 5 {
            Some((major, read_be4(bytes, pos + 1), pos + 5))
        } else {
            None
        }
    } else if ai == 27 {
        if n - pos >= 9 {
            Some((major, read_be8(bytes, pos + 1), pos + 9))
        } else {
            None
        }
    } else {
        None
    }
}

/// Read an unsigned integer.
pub(crate) fn read_uint(bytes: &Vec<u8>, pos: usize) -> (r: Option<(u64, usize)>)
    ensures
        match r {
            Some(p) => dec_uint(bytes@, pos as int) == Some((p.0 as nat, p.1 as int)) && pos
                < p.1 <= bytes@.len(),
            None => dec_uint(bytes@, pos as int) is None,
        },
{
    match read_head(bytes, pos) {
        Some((major, v, np)) => {
            if major == 0 {
                Some((v, np))
            } else {
                None
            }
        },
        None => None,
    }
}

/// Read an array head.
pub(crate) fn read_arr(bytes: &Vec<u8>, pos: usize) -> (r: Option<(u64, usize)>)
    ensures
        match r {
            Some(p) => dec_arr(bytes@, pos as int) == Some((p.0 as nat, p.1 as int)) && pos
                < p.1 <= bytes@.len(),
            None => dec_arr(bytes@, pos as int) is None,
        },
{
    match read_head(bytes, pos) {
        Some((major, v, np)) => {
            if major == 4 {
                Some((v, np))
            } else {
                None
            }
        },
        None => None,
    }
}

/// Read a boolean.
pub(crate) fn read_bool(bytes: &Vec<u8>, pos: usize) -> (r: Option<(bool, usize)>)
    ensures
        match r {
            Some(p) => dec_bool(bytes@, pos as int) == Some((p.0, p.1 as int)) && pos < p.1
                <= bytes@.len(),
            None => dec_bool(bytes@, pos as int) is None,
        },
{
    let n = bytes.len();
    if pos >= n {
        return None;
    }
    let b = bytes[pos];
    if b == 0xf5 {
        Some((true, pos + 1))
    } else if b == 0xf4 {
        Some((false, pos + 1))
    } else {
        None
    }
}

/// Read a byte string.
pub(crate) fn read_bstr(bytes: &Vec<u8>, pos: usize) -> (r: Option<(Vec<u8>, usize)>)
    ensures
        match r {
            Some(p) => dec_bstr(bytes@, pos as int) == Some((p.0@, p.1 as int)) && pos < p.1
                <= bytes@.len(),
            None => dec_bstr(bytes@, pos as int) is None,
        },
{
    let n = bytes.len();
    match read_head(bytes, pos) {
        Some((major, v, np)) => {
            if major != 2 {
                return None;
            }
            if v > (n - np) as u64 {
                return None;
            }
            let count = v as usize;
            let mut out: Vec<u8> = Vec::new();
            let mut i: usize = 0;
            proof {
                assert(out@ =~= bytes@.subrange(np as int, np as int));
            }
            while i < count
                invariant
                    i <= count,
                    np + count <= bytes@.len(),
                    bytes@.len() <= usize::MAX,
                    out@ == bytes@.subrange(np as int, np as int + i),
                decreases count - i,
            {
                out.push(bytes[np + i]);
                proof {
                    assert(out@ =~= bytes@.subrange(np as int, np as int + i + 1));
                }
                i = i + 1;
            }
            Some((out, np + count))
        },
        None => None,
    }
}

/// Read a 32-byte string as a 256-bit value.
pub(crate) fn read_b256(bytes: &Vec<u8>, pos: usize) -> (r: Option<(U256, usize)>)
    ensures
        match r {
            Some(p) => dec_b256(bytes@, pos as int) == Some((p.0.as_nat(), p.1 as int))
                && pos < p.1 <= bytes@.len(),
            None => dec_b256(bytes@, pos as int) is None,
        },
{
    let n = bytes.len();
    match read_head(bytes, pos) {
        Some((major, v, np)) => {
            if major != 2 || v != 32 {
                proof {
                    if major == 2 && dec_bstr(bytes@, pos as int) is Some {
                        assert(dec_bstr(bytes@, pos as int)->Some_0.0.len() != 32);
                    }
                }
                return None;
            }
            if n - np < 32 {
                return None;
            }
            let u = read_be32(bytes, np);
            Some((u, np + 32))
        },
        None => None,
    }
}

/// Read a 16-byte string as a 128-bit value.
pub(crate) fn read_b128(bytes: &Vec<u8>, pos: usize) -> (r: Option<(u128, usize)>)
    ensures
        match r {
            Some(p) => dec_b128(bytes@, pos as int) == Some((p.0 as nat, p.1 as int)) && pos
                < p.1 <= bytes@.len(),
            None => dec_b128(bytes@, pos as int) is None,
        },
{
    let n = bytes.len();
    match read_head(bytes, pos) {
        Some((major, v, np)) => {
            if major != 2 || v != 16 {
                proof {
                    if major == 2 && dec_bstr(bytes@, pos as int) is Some {
                        assert(dec_bstr(bytes@, pos as int)->Some_0.0.len() != 16);
                    }
                }
                return None;
            }
            if n - np < 16 {
                return None;
            }
            let u = read_be16(bytes, np);
            Some((u, np + 16))
        },
        None => None,
    }
}

/// Read an output.
pub(crate) fn read_output(bytes: &Vec<u8>, pos: usize) -> (r: Option<(TransactionOutput, usize)>)
    ensures
        match r {
            Some(p) => dec_output(bytes@, pos as int) == Some((p.0@, p.1 as int)) && pos
                < p.1 <= bytes@.len(),
            None => dec_output(bytes@, pos as int) is None,
        },
{
    let (n, j) = match read_arr(bytes, pos) {
        Some(p) => p,
        None => {
            return None;
        },
    };
    if n != 3 {
        return None;
    }
    let (v, j2) = match read_uint(bytes, j) {
        Some(p) => p,
        None => {
            return None;
        },
    };
    let (uid, j3) = match read_b128(bytes, j2) {
        Some(p) => p,
        None => {
            return None;
        },
    };
    let (pk, j4) = match read_bstr(bytes, j3) {
        Some(p) => p,
        None => {
            return None;
        },
    };
    Some(
        (
            TransactionOutput {
                value: v,
                unique_id: uid,
                pubkey: crate::crypto::PublicKey { bytes: pk },
            },
            j4,
        ),
    )
}

/// Read an input.
pub(crate) fn read_input(bytes: &Vec<u8>, pos: usize) -> (r: Option<(TransactionInput, usize)>)
    ensures
        match r {
            Some(p) => dec_input(bytes@, pos as int) == Some((p.0@, p.1 as int)) && pos < p.1
                <= bytes@.len(),
            None => dec_input(bytes@, pos as int) is None,
        },
{
    let (n, j) = match read_arr(bytes, pos) {
        Some(p) => p,
        None => {
            return None;
        },
    };
    if n != 2 {
        return None;
    }
    let (prev, j2) = match read_b256(bytes, j) {
        Some(p) => p,
        None => {
            return None;
        },
    };
    let (sig, j3) = match read_bstr(bytes, j2) {
        Some(p) => p,
        None => {
            return None;
        },
    };
    Some(
        (
            TransactionInput {
                prev_tx_output_hash: hash::Hash { value: prev },
                signature: crate::crypto::Signature { bytes: sig },
            },
            j3,
        ),
    )
}

/// Read `n` consecutive elements.
pub(crate) fn read_output_list(bytes: &Vec<u8>, pos: usize, n: u64) -> (r: Option<(Vec<TransactionOutput>, usize)>)
    requires
        pos <= bytes@.len(),
    ensures
        match r {
            Some(p) => dec_output_list(bytes@, pos as int, n as nat) == Some(
                (p.0@.map_values(|o: TransactionOutput| o@), p.1 as int),
            ) && pos <= p.1 <= bytes@.len(),
            None => dec_output_list(bytes@, pos as int, n as nat) is None,
        },
{
    let mut acc: Vec<TransactionOutput> = Vec::new();
    let mut p = pos;
    let mut k: u64 = 0;
    proof {
        assert(acc@.map_values(|o: TransactionOutput| o@) =~= Seq::<OutputV>::empty());
    }
    while k < n
        invariant
            0 <= k <= n,
            pos <= p <= bytes@.len(),
            dec_output_list(bytes@, pos as int, n as nat) == prepend_list(
                dec_output_list(bytes@, p as int, (n - k) as nat),
                acc@.map_values(|o: TransactionOutput| o@),
            ),
        decreases n - k,
    {
        let ghost pre = acc@.map_values(|o: TransactionOutput| o@);
        match read_output(bytes, p) {
            Some(q) => {
                let (v, np) = q;
                acc.push(v);
                proof {
                    assert(acc@.map_values(|o: TransactionOutput| o@) =~= pre.push(v@));
                    assert(pre + (seq![v@] + dec_output_list(
                        bytes@,
                        np as int,
                        (n - k - 1) as nat,
                    )->Some_0.0) =~= pre.push(v@) + dec_output_list(
                        bytes@,
                        np as int,
                        (n - k - 1) as nat,
                    )->Some_0.0);
                }
                p = np;
            },
            None => {
                return None;
            },
        }
        k = k + 1;
    }
    Some((acc, p))
}

/// Read `n` consecutive elements.
pub(crate) fn read_input_list(bytes: &Vec<u8>, pos: usize, n: u64) -> (r: Option<(Vec<TransactionInput>, usize)>)
    requires
        pos <= bytes@.len(),
    ensures
        match r {
            Some(p) => dec_input_list(bytes@, pos as int, n as nat) == Some(
                (p.0@.map_values(|i: TransactionInput| i@), p.1 as int),
            ) && pos <= p.1 <= bytes@.len(),
            None => dec_input_list(bytes@, pos as int, n as nat) is None,
        },
{
    let mut acc: Vec<TransactionInput> = Vec::new();
    let mut p = pos;
    let mut k: u64 = 0;
    proof {
        assert(acc@.map_values(|i: TransactionInput| i@) =~= Seq::<InputV>::empty());
    }
    while k < n
        invariant
            0 <= k <= n,
            pos <= p <= bytes@.len(),
            dec_input_list(bytes@, pos as int, n as nat) == prepend_list(
                dec_input_list(bytes@, p as int, (n - k) as nat),
                acc@.map_values(|i: TransactionInput| i@),
            ),
        decreases n - k,
    {
        let ghost pre = acc@.map_values(|i: TransactionInput| i@);
        match read_input(bytes, p) {
            Some(q) => {
                let (v, np) = q;
                acc.push(v);
                proof {
                    assert(acc@.map_values(|i: TransactionInput| i@) =~= pre.push(v@));
                    assert(pre + (seq![v@] + dec_input_list(
                        bytes@,
                        np as int,
                        (n - k - 1) as nat,
                    )->Some_0.0) =~= pre.push(v@) + dec_input_list(
                        bytes@,
                        np as int,
                        (n - k - 1) as nat,
                    )->Some_0.0);
                }
                p = np;
            },
            None => {
                return None;
            },
        }
        k = k + 1;
    }
    Some((acc, p))
}

/// Read a transaction.
pub(crate) fn read_tx(bytes: &Vec<u8>, pos: usize) -> (r: Option<(Transaction, usize)>)
    ensures
        match r {
            Some(p) => dec_tx(bytes@, pos as int) == Some((p.0@, p.1 as int)) && pos < p.1
                <= bytes@.len(),
            None => dec_tx(bytes@, pos as int) is None,
        },
{
    let (n, j) = match read_arr(bytes, pos) {
        Some(p) => p,
        None => {
            return None;
        },
    };
    if n != 2 {
        return None;
    }
    let (ni, j2) = match read_arr(bytes, j) {
        Some(p) => p,
        None => {
            return None;
        },
    };
    let (ins, j3) = match read_input_list(bytes, j2, ni) {
        Some(p) => p,
        None => {
            return None;
        },
    };
    let (no, j4) = match read_arr(bytes, j3) {
        Some(p) => p,
        None => {
            return None;
        },
    };
    let (outs, j5) = match read_output_list(bytes, j4, no) {
        Some(p) => p,
        None => {
            return None;
        },
    };
    Some((Transaction { inputs: ins, outputs: outs }, j5))
}

/// Read `n` consecutive elements.
pub(crate) fn read_tx_list(bytes: &Vec<u8>, pos: usize, n: u64) -> (r: Option<(Vec<Transaction>, usize)>)
    requires
        pos <= bytes@.len(),
    ensures
        match r {
            Some(p) => dec_tx_list(bytes@, pos as int, n as nat) == Some(
                (p.0@.map_values(|t: Transaction| t@), p.1 as int),
            ) && pos <= p.1 <= bytes@.len(),
            None => dec_tx_list(bytes@, pos as int, n as nat) is None,
        },
{
    let mut acc: Vec<Transaction> = Vec::new();
    let mut p = pos;
    let mut k: u64 = 0;
    proof {
        assert(acc@.map_values(|t: Transaction| t@) =~= Seq::<TxV>::empty());
    }
    while k < n
        invariant
            0 <= k <= n,
            pos <= p <= bytes@.len(),
            dec_tx_list(bytes@, pos as int, n as nat) == prepend_list(
                dec_tx_list(bytes@, p as int, (n - k) as nat),
                acc@.map_values(|t: Transaction| t@),
            ),
        decreases n - k,
    {
        let ghost pre = acc@.map_values(|t: Transaction| t@);
        match read_tx(bytes, p) {
            Some(q) => {
                let (v, np) = q;
                acc.push(v);
                proof {
                    assert(acc@.map_values(|t: Transaction| t@) =~= pre.push(v@));
                    assert(pre + (seq![v@] + dec_tx_list(
                        bytes@,
                        np as int,
                        (n - k - 1) as nat,
                    )->Some_0.0) =~= pre.push(v@) + dec_tx_list(
                        bytes@,
                        np as int,
                        (n - k - 1) as nat,
                    )->Some_0.0);
                }
                p = np;
            },
            None => {
                return None;
            },
        }
        k = k + 1;
    }
    Some((acc, p))
}

/// Read a header.
fn read_header(bytes: &Vec<u8>, pos: usize) -> (r: Option<(BlockHeader, usize)>)
    ensures
        match r {
            Some(p) => dec_header(bytes@, pos as int) == Some((p.0@, p.1 as int)) && pos
                < p.1 <= bytes@.len(),
            None => dec_header(bytes@, pos as int) is None,
        },
{
    let (n, j) = match read_arr(bytes, pos) {
        Some(p) => p,
        None => {
            return None;
        },
    };
    if n != 5 {
        return None;
    }
    let (ts, j2) = match read_uint(bytes, j) {
        Some(p) => p,
        None => {
            return None;
        },
    };
    let (nonce, j3) = match read_uint(bytes, j2) {
        Some(p) => p,
        None => {
            return None;
        },
    };
    let (prev, j4) = match read_b256(bytes, j3) {
        Some(p) => p,
        None => {
            return None;
        },
    };
    let (merkle, j5) = match read_b256(bytes, j4) {
        Some(p) => p,
        None => {
            return None;
        },
    };
    let (target, j6) = match read_b256(bytes, j5) {
        Some(p) => p,
        None => {
            return None;
        },
    };
    Some(
        (
            BlockHeader {
                timestamp: ts,
                nonce,
                prev_block_hash: hash::Hash { value: prev },
                merkle_root: hash::Hash { value: merkle },
                target,
            },
            j6,
        ),
    )
}

/// Read a block.
pub(crate) fn read_block(bytes: &Vec<u8>, pos: usize) -> (r: Option<(Block, usize)>)
    ensures
        match r {
            Some(p) => dec_block(bytes@, pos as int) == Some((p.0@, p.1 as int)) && pos < p.1
                <= bytes@.len(),
            None => dec_block(bytes@, pos as int) is None,
        },
{
    proof {
        reveal(dec_block);
    }
    let (n, j) = match read_arr(bytes, pos) {
        Some(p) => p,
        None => {
            return None;
        },
    };
    if n != 2 {
        return None;
    }
    let (h, j2) = match read_header(bytes, j) {
        Some(p) => p,
        None => {
            return None;
        },
    };
    let (nt, j3) = match read_arr(bytes, j2) {
        Some(p) => p,
        None => {
            return None;
        },
    };
    let (txs, j4) = match read_tx_list(bytes, j3, nt) {
        Some(p) => p,
        None => {
            return None;
        },
    };
    Some((Block { header: h, transactions: txs }, j4))
}

/// A UTXO entry: `[key, marked, output]`.
pub open spec fn enc_entry(e: UtxoEntryV) -> Seq<u8> {
    enc_head(4, 3) + enc_bstr(bytes_of(e.key, 32)) + enc_bool(e.marked) + enc_output(e.output)
}

/// The concatenated encodings of a list of UTXO entries.
pub open spec fn enc_entries(s: Seq<UtxoEntryV>) -> Seq<u8>
    decreases s.len(),
{
    if s.len() == 0 {
        Seq::empty()
    } else {
        enc_entries(s.drop_last()) + enc_entry(s.last())
    }
}

/// The concatenated encodings of a list of blocks.
pub open spec fn enc_block_seq(s: Seq<BlockV>) -> Seq<u8>
    decreases s.len(),
{
    if s.len() == 0 {
        Seq::empty()
    } else {
        enc_block_seq(s.drop_last()) + enc_block(s.last())
    }
}

/// A ledger snapshot: `[utxos, target, blocks]` — the mempool is not
/// persisted.
pub open spec fn enc_chain(utxos: Seq<UtxoEntryV>, target: nat, blocks: Seq<BlockV>) -> Seq<
    u8,
> {
    enc_head(4, 3) + enc_head(4, utxos.len()) + enc_entries(utxos) + enc_bstr(
        bytes_of(target, 32),
    ) + enc_head(4, blocks.len()) + enc_block_seq(blocks)
}

/// A UTXO entry's shape admits encoding.
pub open spec fn entry_vwf(e: UtxoEntryV) -> bool {
    &&& e.key < crate::u256::pow256()
    &&& output_vwf(e.output)
}

/// Parse a UTXO entry.
pub open spec fn dec_entry(s: Seq<u8>, i: int) -> Option<(UtxoEntryV, int)> {
    match dec_arr(s, i) {
        Some((n, j)) => {
            if n == 3 {
                match dec_b256(s, j) {
                    Some((k, j2)) => {
                        match dec_bool(s, j2) {
                            Some((m, j3)) => {
                                match dec_output(s, j3) {
                                    Some((o, j4)) => Some(
                                        (UtxoEntryV { key: k, marked: m, output: o }, j4),
                                    ),
                                    None => None,
                                }
                            },
                            None => None,
                        }
                    },
                    None => None,
                }
            } else {
                None
            }
        },
        None => None,
    }
}

/// Parsing an encoded UTXO entry yields it back.
pub proof fn lemma_dec_enc_entry(e: UtxoEntryV, s: Seq<u8>, i: int)
    requires
        entry_vwf(e),
        0 <= i,
        i + enc_entry(e).len() <= s.len(),
        s.subrange(i, i + enc_entry(e).len()) == enc_entry(e),
    ensures
        dec_entry(s, i) == Some((e, i + enc_entry(e).len())),
{
    let a = enc_head(4, 3);
    let b = enc_bstr(bytes_of(e.key, 32));
    let c = enc_bool(e.marked);
    let d = enc_output(e.output);
    assert(enc_entry(e) =~= a + (b + (c + d)));
    lemma_subrange_split(s, i, a, b + (c + d));
    lemma_dec_enc_arr(3, s, i);
    lemma_subrange_split(s, i + a.len(), b, c + d);
    lemma_bytes_of_len(e.key, 32);
    lemma_dec_enc_b256(e.key, s, i + a.len());
    lemma_subrange_split(s, i + a.len() + b.len(), c, d);
    assert(s.subrange(
        i + a.len() + b.len(),
        i + a.len() + b.len() + 1,
    ) == enc_bool(e.marked));
    lemma_dec_enc_bool(e.marked, s, i + a.len() + b.len());
    lemma_dec_enc_output(e.output, s, i + a.len() + b.len() + c.len());
    assert(UtxoEntryV { key: e.key, marked: e.marked, output: e.output } == e);
}

/// Parse `n` consecutive UTXO entries.
pub open spec fn dec_entry_list(s: Seq<u8>, i: int, n: nat) -> Option<(Seq<UtxoEntryV>, int)>
    decreases n,
{
    if n == 0 {
        Some((Seq::empty(), i))
    } else {
        match dec_entry(s, i) {
            Some((o, j)) => {
                match dec_entry_list(s, j, (n - 1) as nat) {
                    Some((rest, j2)) => Some((seq![o] + rest, j2)),
                    None => None,
                }
            },
            None => None,
        }
    }
}

/// A non-empty concatenated encoding starts with its first entry.
pub proof fn lemma_enc_entries_first(v: Seq<UtxoEntryV>)
    requires
        v.len() > 0,
    ensures
        enc_entries(v) == enc_entry(v.first()) + enc_entries(v.drop_first()),
    decreases v.len(),
{
    if v.len() == 1 {
        assert(v.drop_last() =~= Seq::<UtxoEntryV>::empty());
        assert(v.drop_first() =~= Seq::<UtxoEntryV>::empty());
        assert(enc_entries(v) =~= enc_entry(v.first()) + enc_entries(v.drop_first()));
    } else {
        let dl = v.drop_last();
        lemma_enc_entries_first(dl);
        assert(dl.first() == v.first());
        assert(v.drop_first().drop_last() =~= dl.drop_first());
        assert(v.drop_first().last() == v.last());
        assert(enc_entries(v.drop_first()) == enc_entries(dl.drop_first()) + enc_entry(
            v.last(),
        ));
        assert(enc_entries(v) =~= enc_entry(v.first()) + enc_entries(v.drop_first()));
    }
}

/// Parsing a concatenation of encoded entries yields them back.
pub proof fn lemma_dec_enc_entry_list(v: Seq<UtxoEntryV>, s: Seq<u8>, i: int)
    requires
        forall|l: int| 0 <= l < v.len() ==> entry_vwf(#[trigger] v[l]),
        0 <= i,
        i + enc_entries(v).len() <= s.len(),
        s.subrange(i, i + enc_entries(v).len()) == enc_entries(v),
    ensures
        dec_entry_list(s, i, v.len()) == Some((v, i + enc_entries(v).len())),
    decreases v.len(),
{
    if v.len() == 0 {
    } else {
        lemma_enc_entries_first(v);
        let a = enc_entry(v.first());
        let b = enc_entries(v.drop_first());
        lemma_subrange_split(s, i, a, b);
        lemma_dec_enc_entry(v.first(), s, i);
        assert(forall|l: int|
            0 <= l < v.drop_first().len() ==> entry_vwf(#[trigger] v.drop_first()[l])) by {
            assert(forall|l: int|
                0 <= l < v.drop_first().len() ==> v.drop_first()[l] == v[l + 1]);
        }
        lemma_dec_enc_entry_list(v.drop_first(), s, i + a.len());
        assert(seq![v.first()] + v.drop_first() =~= v);
    }
}

/// Parse `n` consecutive blocks.
pub open spec fn dec_block_seq(s: Seq<u8>, i: int, n: nat) -> Option<(Seq<BlockV>, int)>
    decreases n,
{
    if n == 0 {
        Some((Seq::empty(), i))
    } else {
        match dec_block(s, i) {
            Some((o, j)) => {
                match dec_block_seq(s, j, (n - 1) as nat) {
                    Some((rest, j2)) => Some((seq![o] + rest, j2)),
                    None => None,
                }
            },
            None => None,
        }
    }
}

/// A non-empty concatenated encoding starts with its first block.
pub proof fn lemma_enc_block_seq_first(v: Seq<BlockV>)
    requires
        v.len() > 0,
    ensures
        enc_block_seq(v) == enc_block(v.first()) + enc_block_seq(v.drop_first()),
    decreases v.len(),
{
    if v.len() == 1 {
        assert(v.drop_last() =~= Seq::<BlockV>::empty());
        assert(v.drop_first() =~= Seq::<BlockV>::empty());
        assert(enc_block_seq(v) =~= enc_block(v.first()) + enc_block_seq(v.drop_first()));
    } else {
        let dl = v.drop_last();
        lemma_enc_block_seq_first(dl);
        assert(dl.first() == v.first());
        assert(v.drop_first().drop_last() =~= dl.drop_first());
        assert(v.drop_first().last() == v.last());
        assert(enc_block_seq(v.drop_first()) == enc_block_seq(dl.drop_first()) + enc_block(
            v.last(),
        ));
        assert(enc_block_seq(v) =~= enc_block(v.first()) + enc_block_seq(v.drop_first()));
    }
}

/// Parsing a concatenation of encoded blocks yields them back.
#[verifier::rlimit(100)]
pub proof fn lemma_dec_enc_block_seq(v: Seq<BlockV>, s: Seq<u8>, i: int)
    requires
        forall|l: int| 0 <= l < v.len() ==> block_vwf(#[trigger] v[l]),
        0 <= i,
        i + enc_block_seq(v).len() <= s.len(),
        s.subrange(i, i + enc_block_seq(v).len()) == enc_block_seq(v),
    ensures
        dec_block_seq(s, i, v.len()) == Some((v, i + enc_block_seq(v).len())),
    decreases v.len(),
{
    if v.len() == 0 {
    } else {
        lemma_enc_block_seq_first(v);
        let a = enc_block(v.first());
        let b = enc_block_seq(v.drop_first());
        lemma_subrange_split(s, i, a, b);
        lemma_dec_enc_block(v.first(), s, i);
        assert(forall|l: int|
            0 <= l < v.drop_first().len() ==> block_vwf(#[trigger] v.drop_first()[l])) by {
            assert(forall|l: int|
                0 <= l < v.drop_first().len() ==> v.drop_first()[l] == v[l + 1]);
        }
        lemma_dec_enc_block_seq(v.drop_first(), s, i + a.len());
        assert(seq![v.first()] + v.drop_first() =~= v);
    }
}

/// Parse a ledger snapshot.
pub open spec fn dec_chain(s: Seq<u8>, i: int) -> Option<
    ((Seq<UtxoEntryV>, nat, Seq<BlockV>), int),
> {
    match dec_arr(s, i) {
        Some((n, j)) => {
            if n == 3 {
                match dec_arr(s, j) {
                    Some((nu, j2)) => {
                        match dec_entry_list(s, j2, nu) {
                            Some((us, j3)) => {
                                match dec_b256(s, j3) {
                                    Some((t, j4)) => {
                                        match dec_arr(s, j4) {
                                            Some((nb, j5)) => {
                                                match dec_block_seq(s, j5, nb) {
                                                    Some((bs, j6)) => Some(((us, t, bs), j6)),
                                                    None => None,
                                                }
                                            },
                                            None => None,
                                        }
                                    },
                                    None => None,
                                }
                            },
                            None => None,
                        }
                    },
                    None => None,
                }
            } else {
                None
            }
        },
        None => None,
    }
}

/// Parsing an encoded snapshot yields it back: the round-trip law of the
/// snapshot format — everything but the mempool survives save and load.
#[verifier::rlimit(100)]
pub proof fn lemma_dec_enc_chain(
    utxos: Seq<UtxoEntryV>,
    target: nat,
    blocks: Seq<BlockV>,
    s: Seq<u8>,
    i: int,
)
    requires
        forall|l: int| 0 <= l < utxos.len() ==> entry_vwf(#[trigger] utxos[l]),
        forall|l: int| 0 <= l < blocks.len() ==> block_vwf(#[trigger] blocks[l]),
        utxos.len() < 0x1_0000_0000_0000_0000nat,
        blocks.len() < 0x1_0000_0000_0000_0000nat,
        target < crate::u256::pow256(),
        0 <= i,
        i + enc_chain(utxos, target, blocks).len() <= s.len(),
        s.subrange(i, i + enc_chain(utxos, target, blocks).len()) == enc_chain(
            utxos,
            target,
            blocks,
        ),
    ensures
        dec_chain(s, i) == Some(
            ((utxos, target, blocks), i + enc_chain(utxos, target, blocks).len()),
        ),
{
    let a = enc_head(4, 3);
    let b = enc_head(4, utxos.len());
    let c = enc_entries(utxos);
    let d = enc_bstr(bytes_of(target, 32));
    let e = enc_head(4, blocks.len());
    let f = enc_block_seq(blocks);
    assert(enc_chain(utxos, target, blocks) =~= a + (b + (c + (d + (e + f)))));
    lemma_subrange_split(s, i, a, b + (c + (d + (e + f))));
    lemma_dec_enc_arr(3, s, i);
    lemma_subrange_split(s, i + a.len(), b, c + (d + (e + f)));
    lemma_dec_enc_arr(utxos.len(), s, i + a.len());
    lemma_subrange_split(s, i + a.len() + b.len(), c, d + (e + f));
    lemma_dec_enc_entry_list(utxos, s, i + a.len() + b.len());
    lemma_bytes_of_len(target, 32);
    lemma_subrange_split(s, i + a.len() + b.len() + c.len(), d, e + f);
    lemma_dec_enc_b256(target, s, i + a.len() + b.len() + c.len());
    lemma_subrange_split(s, i + a.len() + b.len() + c.len() + d.len(), e, f);
    lemma_dec_enc_arr(blocks.len(), s, i + a.len() + b.len() + c.len() + d.len());
    lemma_dec_enc_block_seq(blocks, s, i + a.len() + b.len() + c.len() + d.len() + e.len());
}

/// Write a UTXO entry.
fn write_entry(out: &mut Vec<u8>, e: &crate::utxo::UtxoEntry)
    ensures
        final (out)@ == old(out)@ + enc_entry(e@),
{
    let ghost base = out@;
    write_head(out, 4, 3);
    write_hash(out, &e.key);
    write_bool(out, e.marked);
    write_output(out, &e.output);
    proof {
        assert(out@ =~= base + enc_entry(e@));
    }
}

/// Read a UTXO entry.
fn read_entry(bytes: &Vec<u8>, pos: usize) -> (r: Option<(crate::utxo::UtxoEntry, usize)>)
    ensures
        match r {
            Some(p) => dec_entry(bytes@, pos as int) == Some((p.0@, p.1 as int)) && pos < p.1
                <= bytes@.len(),
            None => dec_entry(bytes@, pos as int) is None,
        },
{
    let (n, j) = match read_arr(bytes, pos) {
        Some(p) => p,
        None => {
            return None;
        },
    };
    if n != 3 {
        return None;
    }
    let (k, j2) = match read_b256(bytes, j) {
        Some(p) => p,
        None => {
            return None;
        },
    };
    let (m, j3) = match read_bool(bytes, j2) {
        Some(p) => p,
        None => {
            return None;
        },
    };
    let (o, j4) = match read_output(bytes, j3) {
        Some(p) => p,
        None => {
            return None;
        },
    };
    Some((crate::utxo::UtxoEntry { key: hash::Hash { value: k }, marked: m, output: o }, j4))
}

/// Read `n` consecutive UTXO entries.
pub(crate) fn read_entry_list(bytes: &Vec<u8>, pos: usize, n: u64) -> (r: Option<
    (Vec<crate::utxo::UtxoEntry>, usize),
>)
    requires
        pos <= bytes@.len(),
    ensures
        match r {
            Some(p) => dec_entry_list(bytes@, pos as int, n as nat) == Some(
                (p.0@.map_values(|e: crate::utxo::UtxoEntry| e@), p.1 as int),
            ) && pos <= p.1 <= bytes@.len(),
            None => dec_entry_list(bytes@, pos as int, n as nat) is None,
        },
{
    let mut acc: Vec<crate::utxo::UtxoEntry> = Vec::new();
    let mut p = pos;
    let mut k: u64 = 0;
    proof {
        assert(acc@.map_values(|e: crate::utxo::UtxoEntry| e@) =~= Seq::<
            crate::utxo::UtxoEntryV,
        >::empty());
    }
    while k < n
        invariant
            0 <= k <= n,
            pos <= p <= bytes@.len(),
            dec_entry_list(bytes@, pos as int, n as nat) == prepend_list(
                dec_entry_list(bytes@, p as int, (n - k) as nat),
                acc@.map_values(|e: crate::utxo::UtxoEntry| e@),
            ),
        decreases n - k,
    {
        let ghost pre = acc@.map_values(|e: crate::utxo::UtxoEntry| e@);
        match read_entry(bytes, p) {
            Some(q) => {
                let (v, np) = q;
                let ghost vv = v@;
                acc.push(v);
                proof {
                    assert(acc@.map_values(|e: crate::utxo::UtxoEntry| e@) =~= pre.push(vv));
                    assert(pre + (seq![vv] + dec_entry_list(
                        bytes@,
                        np as int,
                        (n - k - 1) as nat,
                    )->Some_0.0) =~= pre.push(vv) + dec_entry_list(
                        bytes@,
                        np as int,
                        (n - k - 1) as nat,
                    )->Some_0.0);
                }
                p = np;
            },
            None => {
                return None;
            },
        }
        k = k + 1;
    }
    Some((acc, p))
}

/// Read `n` consecutive blocks.
#[verifier::rlimit(100)]
pub(crate) fn read_block_seq(bytes: &Vec<u8>, pos: usize, n: u64) -> (r: Option<
    (Vec<Block>, usize),
>)
    requires
        pos <= bytes@.len(),
    ensures
        match r {
            Some(p) => dec_block_seq(bytes@, pos as int, n as nat) == Some(
                (p.0@.map_values(|b: Block| b@), p.1 as int),
            ) && pos <= p.1 <= bytes@.len(),
            None => dec_block_seq(bytes@, pos as int, n as nat) is None,
        },
{
    let mut acc: Vec<Block> = Vec::new();
    let mut p = pos;
    let mut k: u64 = 0;
    proof {
        assert(acc@.map_values(|b: Block| b@) =~= Seq::<BlockV>::empty());
    }
    while k < n
        invariant
            0 <= k <= n,
            pos <= p <= bytes@.len(),
            dec_block_seq(bytes@, pos as int, n as nat) == prepend_list(
                dec_block_seq(bytes@, p as int, (n - k) as nat),
                acc@.map_values(|b: Block| b@),
            ),
        decreases n - k,
    {
        let ghost pre = acc@.map_values(|b: Block| b@);
        match read_block(bytes, p) {
            Some(q) => {
                let (v, np) = q;
                let ghost vv = v@;
                acc.push(v);
                proof {
                    assert(acc@.map_values(|b: Block| b@) =~= pre.push(vv));
                    assert(pre + (seq![vv] + dec_block_seq(
                        bytes@,
                        np as int,
                        (n - k - 1) as nat,
                    )->Some_0.0) =~= pre.push(vv) + dec_block_seq(
                        bytes@,
                        np as int,
                        (n - k - 1) as nat,
                    )->Some_0.0);
                }
                p = np;
            },
            None => {
                return None;
            },
        }
        k = k + 1;
    }
    Some((acc, p))
}

/// Write a list of UTXO entries as an array.
pub(crate) fn write_entries(out: &mut Vec<u8>, v: &Vec<crate::utxo::UtxoEntry>)
    ensures
        final (out)@ == old(out)@ + enc_head(4, v@.len()) + enc_entries(
            v@.map_values(|e: crate::utxo::UtxoEntry| e@),
        ),
{
    let ghost base = out@;
    let ghost m = v@.map_values(|e: crate::utxo::UtxoEntry| e@);
    write_head(out, 4, v.len() as u64);
    let n = v.len();
    let mut i: usize = 0;
    while i < n
        invariant
            i <= n,
            n == v@.len(),
            m == v@.map_values(|e: crate::utxo::UtxoEntry| e@),
            out@ == base + enc_head(4, n as nat) + enc_entries(m.take(i as int)),
        decreases n - i,
    {
        write_entry(out, &v[i]);
        proof {
            assert(m.take(i + 1).drop_last() =~= m.take(i as int));
            assert(m.take(i + 1).last() == m[i as int]);
            assert(m[i as int] == v@[i as int]@);
            assert(out@ =~= base + enc_head(4, n as nat) + enc_entries(m.take(i + 1)));
        }
        i = i + 1;
    }
    proof {
        assert(m.take(n as int) =~= m);
    }
}

/// Write a list of blocks as an array.
pub(crate) fn write_block_seq(out: &mut Vec<u8>, v: &Vec<Block>)
    ensures
        final (out)@ == old(out)@ + enc_head(4, v@.len()) + enc_block_seq(
            v@.map_values(|b: Block| b@),
        ),
{
    let ghost base = out@;
    let ghost m = v@.map_values(|b: Block| b@);
    write_head(out, 4, v.len() as u64);
    let n = v.len();
    let mut i: usize = 0;
    while i < n
        invariant
            i <= n,
            n == v@.len(),
            m == v@.map_values(|b: Block| b@),
            out@ == base + enc_head(4, n as nat) + enc_block_seq(m.take(i as int)),
        decreases n - i,
    {
        write_block(out, &v[i]);
        proof {
            assert(m.take(i + 1).drop_last() =~= m.take(i as int));
            assert(m.take(i + 1).last() == m[i as int]);
            assert(m[i as int] == v@[i as int]@);
            assert(out@ =~= base + enc_head(4, n as nat) + enc_block_seq(m.take(i + 1)));
        }
        i = i + 1;
    }
    proof {
        assert(m.take(n as int) =~= m);
    }
}

/// Canonical encodings are injective: two transactions with the same
/// encoding are the same transaction.
pub proof fn lemma_enc_tx_injective(x: TxV, y: TxV)
    requires
        tx_vwf(x),
        tx_vwf(y),
        enc_tx(x) == enc_tx(y),
    ensures
        x == y,
{
    let s = enc_tx(x);
    assert(s.subrange(0, s.len() as int) =~= s);
    lemma_dec_enc_tx(x, s, 0);
    lemma_dec_enc_tx(y, s, 0);
}

/// Transactions hash over their canonical encodings: equal encodings
/// give equal hashes. With [`lemma_enc_tx_injective`], equal hashes of
/// distinct transactions would be a SHA-256 collision; that the digest
/// never collides is the cryptographic assumption, not stated here.
pub proof fn lemma_tx_hash_of_encoding(x: TxV, y: TxV)
    requires
        enc_tx(x) == enc_tx(y),
    ensures
        tx_hash(x) == tx_hash(y),
{
}

/// Canonical encodings of headers are injective too.
pub proof fn lemma_enc_header_injective(x: HeaderV, y: HeaderV)
    requires
        header_vwf(x),
        header_vwf(y),
        enc_header(x) == enc_header(y),
    ensures
        x == y,
{
    let s = enc_header(x);
    assert(s.subrange(0, s.len() as int) =~= s);
    lemma_dec_enc_header(x, s, 0);
    lemma_dec_enc_header(y, s, 0);
}

/// Headers hash over their canonical encodings: equal encodings give
/// equal hashes.
pub proof fn lemma_header_hash_of_encoding(x: HeaderV, y: HeaderV)
    requires
        enc_header(x) == enc_header(y),
    ensures
        header_hash(x) == header_hash(y),
{
}

} // verus!
