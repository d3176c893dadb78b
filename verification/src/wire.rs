//! The wire protocol: a tagged message union, framed as an eight-byte
//! big-endian length followed by the CBOR bytes of `[tag, payload]`.
//!
//! Tags count the variants in declaration order; `DiscoverNodes`, the
//! only variant without a payload, is a one-element array. Node
//! addresses travel as byte strings (the UTF-8 bytes of `host:port`).

use crate::block::{Block, BlockV};
use crate::bytes::bytes_of;
use crate::codec::{
    block_vwf, dec_arr, dec_block, dec_bool, dec_bstr, dec_head, dec_output, dec_tx, dec_uint,
    enc_bool, enc_bstr, enc_block, enc_head, enc_output, enc_tx, enc_uint, lemma_dec_enc_arr,
    lemma_dec_enc_block, lemma_dec_enc_bool, lemma_dec_enc_bstr, lemma_dec_enc_head,
    lemma_dec_enc_output, lemma_dec_enc_tx, lemma_dec_enc_uint, lemma_subrange_split, output_vwf,
    prepend_list, tx_vwf,
};
use crate::crypto::PublicKey;
use crate::transaction::{OutputV, Transaction, TransactionOutput, TxV};
use vstd::prelude::*;

verus! {

/// One protocol message.
#[derive(Debug, PartialEq, Eq)]
pub enum Message {
    /// Wallet asks for the outputs a key owns.
    FetchUTXOs(PublicKey),
    /// Reply: outputs with their mempool marks.
    UTXOs(Vec<(TransactionOutput, bool)>),
    /// Wallet submits a transaction.
    SubmitTransaction(Transaction),
    /// Nodes gossip a transaction.
    NewTransaction(Transaction),
    /// Miner asks for a block template paying a key.
    FetchTemplate(PublicKey),
    /// Reply: an unmined template.
    Template(Block),
    /// Miner asks whether a template still builds on the tip.
    ValidateTemplate(Block),
    /// Reply to `ValidateTemplate`.
    TemplateValidity(bool),
    /// Miner submits a mined block.
    SubmitTemplate(Block),
    /// Peer asks for known peers.
    DiscoverNodes,
    /// Reply: peer addresses, as the UTF-8 bytes of `host:port`.
    NodeList(Vec<Vec<u8>>),
    /// Bootstrap: how much longer is your chain than my `height`?
    AskDifference(u32),
    /// Reply to `AskDifference`.
    Difference(i32),
    /// Bootstrap: the block at a height.
    FetchBlock(u64),
    /// A block, by gossip or in reply to `FetchBlock`.
    NewBlock(Block),
}

/// The mathematical shape of a message.
pub enum MessageV {
    FetchUTXOs(Seq<u8>),
    UTXOs(Seq<(OutputV, bool)>),
    SubmitTransaction(TxV),
    NewTransaction(TxV),
    FetchTemplate(Seq<u8>),
    Template(BlockV),
    ValidateTemplate(BlockV),
    TemplateValidity(bool),
    SubmitTemplate(BlockV),
    DiscoverNodes,
    NodeList(Seq<Seq<u8>>),
    AskDifference(u32),
    Difference(i32),
    FetchBlock(u64),
    NewBlock(BlockV),
}

impl View for Message {
    type V = MessageV;

    open spec fn view(&self) -> MessageV {
        match self {
            Message::FetchUTXOs(k) => MessageV::FetchUTXOs(k@),
            Message::UTXOs(v) => MessageV::UTXOs(
                v@.map_values(|p: (TransactionOutput, bool)| (p.0@, p.1)),
            ),
            Message::SubmitTransaction(t) => MessageV::SubmitTransaction(t@),
            Message::NewTransaction(t) => MessageV::NewTransaction(t@),
            Message::FetchTemplate(k) => MessageV::FetchTemplate(k@),
            Message::Template(b) => MessageV::Template(b@),
            Message::ValidateTemplate(b) => MessageV::ValidateTemplate(b@),
            Message::TemplateValidity(v) => MessageV::TemplateValidity(*v),
            Message::SubmitTemplate(b) => MessageV::SubmitTemplate(b@),
            Message::DiscoverNodes => MessageV::DiscoverNodes,
            Message::NodeList(v) => MessageV::NodeList(v@.map_values(|a: Vec<u8>| a@)),
            Message::AskDifference(h) => MessageV::AskDifference(*h),
            Message::Difference(d) => MessageV::Difference(*d),
            Message::FetchBlock(h) => MessageV::FetchBlock(*h),
            Message::NewBlock(b) => MessageV::NewBlock(b@),
        }
    }
}

/// An `(output, marked)` pair: a two-element array.
pub open spec fn enc_pair(p: (OutputV, bool)) -> Seq<u8> {
    enc_head(4, 2) + enc_output(p.0) + enc_bool(p.1)
}

/// The concatenated encodings of a list of pairs.
pub open spec fn enc_pairs(s: Seq<(OutputV, bool)>) -> Seq<u8>
    decreases s.len(),
{
    if s.len() == 0 {
        Seq::empty()
    } else {
        enc_pairs(s.drop_last()) + enc_pair(s.last())
    }
}

/// The concatenated encodings of a list of addresses.
pub open spec fn enc_addrs(s: Seq<Seq<u8>>) -> Seq<u8>
    decreases s.len(),
{
    if s.len() == 0 {
        Seq::empty()
    } else {
        enc_addrs(s.drop_last()) + enc_bstr(s.last())
    }
}

/// A signed 32-bit integer: CBOR major type zero or one.
pub open spec fn enc_i32(n: i32) -> Seq<u8> {
    if n >= 0 {
        enc_head(0, n as nat)
    } else {
        enc_head(1, (-1 - n) as nat)
    }
}

/// A message's tag: its position in the declaration order.
pub open spec fn msg_tag(m: MessageV) -> nat {
    match m {
        MessageV::FetchUTXOs(_) => 0,
        MessageV::UTXOs(_) => 1,
        MessageV::SubmitTransaction(_) => 2,
        MessageV::NewTransaction(_) => 3,
        MessageV::FetchTemplate(_) => 4,
        MessageV::Template(_) => 5,
        MessageV::ValidateTemplate(_) => 6,
        MessageV::TemplateValidity(_) => 7,
        MessageV::SubmitTemplate(_) => 8,
        MessageV::DiscoverNodes => 9,
        MessageV::NodeList(_) => 10,
        MessageV::AskDifference(_) => 11,
        MessageV::Difference(_) => 12,
        MessageV::FetchBlock(_) => 13,
        MessageV::NewBlock(_) => 14,
    }
}

/// A message's payload bytes.
pub open spec fn enc_payload(m: MessageV) -> Seq<u8> {
    match m {
        MessageV::FetchUTXOs(k) => enc_bstr(k),
        MessageV::UTXOs(v) => enc_head(4, v.len()) + enc_pairs(v),
        MessageV::SubmitTransaction(t) => enc_tx(t),
        MessageV::NewTransaction(t) => enc_tx(t),
        MessageV::FetchTemplate(k) => enc_bstr(k),
        MessageV::Template(b) => enc_block(b),
        MessageV::ValidateTemplate(b) => enc_block(b),
        MessageV::TemplateValidity(v) => enc_bool(v),
        MessageV::SubmitTemplate(b) => enc_block(b),
        MessageV::DiscoverNodes => Seq::empty(),
        MessageV::NodeList(v) => enc_head(4, v.len()) + enc_addrs(v),
        MessageV::AskDifference(h) => enc_uint(h as nat),
        MessageV::Difference(d) => enc_i32(d),
        MessageV::FetchBlock(h) => enc_uint(h as nat),
        MessageV::NewBlock(b) => enc_block(b),
    }
}

/// The encoding of a message: `[tag]` or `[tag, payload]`.
pub open spec fn enc_msg(m: MessageV) -> Seq<u8> {
    if m is DiscoverNodes {
        enc_head(4, 1) + enc_uint(msg_tag(m))
    } else {
        enc_head(4, 2) + enc_uint(msg_tag(m)) + enc_payload(m)
    }
}

/// A message's shape admits encoding: byte strings and lists fit their
/// length fields, and hashes fit 256 bits.
pub open spec fn msg_vwf(m: MessageV) -> bool {
    match m {
        MessageV::FetchUTXOs(k) => k.len() < 0x1_0000_0000_0000_0000nat,
        MessageV::UTXOs(v) => v.len() < 0x1_0000_0000_0000_0000nat && forall|l: int|
            0 <= l < v.len() ==> output_vwf((#[trigger] v[l]).0),
        MessageV::SubmitTransaction(t) => tx_vwf(t),
        MessageV::NewTransaction(t) => tx_vwf(t),
        MessageV::FetchTemplate(k) => k.len() < 0x1_0000_0000_0000_0000nat,
        MessageV::Template(b) => block_vwf(b),
        MessageV::ValidateTemplate(b) => block_vwf(b),
        MessageV::TemplateValidity(_) => true,
        MessageV::SubmitTemplate(b) => block_vwf(b),
        MessageV::DiscoverNodes => true,
        MessageV::NodeList(v) => v.len() < 0x1_0000_0000_0000_0000nat && forall|l: int|
            0 <= l < v.len() ==> (#[trigger] v[l]).len() < 0x1_0000_0000_0000_0000nat,
        MessageV::AskDifference(_) => true,
        MessageV::Difference(_) => true,
        MessageV::FetchBlock(_) => true,
        MessageV::NewBlock(b) => block_vwf(b),
    }
}

/// Parse an `(output, marked)` pair.
pub open spec fn dec_pair(s: Seq<u8>, i: int) -> Option<((OutputV, bool), int)> {
    match dec_arr(s, i) {
        Some((n, j)) => {
            if n == 2 {
                match dec_output(s, j) {
                    Some((o, j2)) => {
                        match dec_bool(s, j2) {
                            Some((b, j3)) => Some(((o, b), j3)),
                            None => None,
                        }
                    },
                    None => None,
                }
            } else {
                None
            }
        },
        None => None,
    }
}

/// Parsing an encoded pair yields it back.
pub proof fn lemma_dec_enc_pair(p: (OutputV, bool), s: Seq<u8>, i: int)
    requires
        output_vwf(p.0),
        0 <= i,
        i + enc_pair(p).len() <= s.len(),
        s.subrange(i, i + enc_pair(p).len()) == enc_pair(p),
    ensures
        dec_pair(s, i) == Some((p, i + enc_pair(p).len())),
{
    let a = enc_head(4, 2);
    let b = enc_output(p.0);
    let c = enc_bool(p.1);
    assert(enc_pair(p) =~= a + (b + c));
    lemma_subrange_split(s, i, a, b + c);
    lemma_dec_enc_arr(2, s, i);
    lemma_subrange_split(s, i + a.len(), b, c);
    lemma_dec_enc_output(p.0, s, i + a.len());
    assert(s.subrange(i + a.len() + b.len(), i + a.len() + b.len() + 1) == enc_bool(p.1));
    lemma_dec_enc_bool(p.1, s, i + a.len() + b.len());
    assert((p.0, p.1) == p);
}

/// Parse `n` consecutive pairs.
pub open spec fn dec_pair_list(s: Seq<u8>, i: int, n: nat) -> Option<(Seq<(OutputV, bool)>, int)>
    decreases n,
{
    if n == 0 {
        Some((Seq::empty(), i))
    } else {
        match dec_pair(s, i) {
            Some((o, j)) => {
                match dec_pair_list(s, j, (n - 1) as nat) {
                    Some((rest, j2)) => Some((seq![o] + rest, j2)),
                    None => None,
                }
            },
            None => None,
        }
    }
}

/// A non-empty concatenated encoding starts with its first pair.
pub proof fn lemma_enc_pairs_first(v: Seq<(OutputV, bool)>)
    requires
        v.len() > 0,
    ensures
        enc_pairs(v) == enc_pair(v.first()) + enc_pairs(v.drop_first()),
    decreases v.len(),
{
    if v.len() == 1 {
        assert(v.drop_last() =~= Seq::<(OutputV, bool)>::empty());
        assert(v.drop_first() =~= Seq::<(OutputV, bool)>::empty());
        assert(enc_pairs(v) =~= enc_pair(v.first()) + enc_pairs(v.drop_first()));
    } else {
        let dl = v.drop_last();
        lemma_enc_pairs_first(dl);
        assert(dl.first() == v.first());
        assert(v.drop_first().drop_last() =~= dl.drop_first());
        assert(v.drop_first().last() == v.last());
        assert(enc_pairs(v.drop_first()) == enc_pairs(dl.drop_first()) + enc_pair(v.last()));
        assert(enc_pairs(v) =~= enc_pair(v.first()) + enc_pairs(v.drop_first()));
    }
}

/// Parsing a concatenation of encoded pairs yields them back.
pub proof fn lemma_dec_enc_pair_list(v: Seq<(OutputV, bool)>, s: Seq<u8>, i: int)
    requires
        forall|l: int| 0 <= l < v.len() ==> output_vwf((#[trigger] v[l]).0),
        0 <= i,
        i + enc_pairs(v).len() <= s.len(),
        s.subrange(i, i + enc_pairs(v).len()) == enc_pairs(v),
    ensures
        dec_pair_list(s, i, v.len()) == Some((v, i + enc_pairs(v).len())),
    decreases v.len(),
{
    if v.len() == 0 {
    } else {
        lemma_enc_pairs_first(v);
        let a = enc_pair(v.first());
        let b = enc_pairs(v.drop_first());
        lemma_subrange_split(s, i, a, b);
        lemma_dec_enc_pair(v.first(), s, i);
        assert(forall|l: int|
            0 <= l < v.drop_first().len() ==> output_vwf((#[trigger] v.drop_first()[l]).0)) by {
            assert(forall|l: int| 0 <= l < v.drop_first().len() ==> v.drop_first()[l] == v[l + 1]);
        }
        lemma_dec_enc_pair_list(v.drop_first(), s, i + a.len());
        assert(seq![v.first()] + v.drop_first() =~= v);
    }
}

/// Parse `n` consecutive addresses.
pub open spec fn dec_addr_list(s: Seq<u8>, i: int, n: nat) -> Option<(Seq<Seq<u8>>, int)>
    decreases n,
{
    if n == 0 {
        Some((Seq::empty(), i))
    } else {
        match dec_bstr(s, i) {
            Some((o, j)) => {
                match dec_addr_list(s, j, (n - 1) as nat) {
                    Some((rest, j2)) => Some((seq![o] + rest, j2)),
                    None => None,
                }
            },
            None => None,
        }
    }
}

/// A non-empty concatenated encoding starts with its first address.
pub proof fn lemma_enc_addrs_first(v: Seq<Seq<u8>>)
    requires
        v.len() > 0,
    ensures
        enc_addrs(v) == enc_bstr(v.first()) + enc_addrs(v.drop_first()),
    decreases v.len(),
{
    if v.len() == 1 {
        assert(v.drop_last() =~= Seq::<Seq<u8>>::empty());
        assert(v.drop_first() =~= Seq::<Seq<u8>>::empty());
        assert(enc_addrs(v) =~= enc_bstr(v.first()) + enc_addrs(v.drop_first()));
    } else {
        let dl = v.drop_last();
        lemma_enc_addrs_first(dl);
        assert(dl.first() == v.first());
        assert(v.drop_first().drop_last() =~= dl.drop_first());
        assert(v.drop_first().last() == v.last());
        assert(enc_addrs(v.drop_first()) == enc_addrs(dl.drop_first()) + enc_bstr(v.last()));
        assert(enc_addrs(v) =~= enc_bstr(v.first()) + enc_addrs(v.drop_first()));
    }
}

/// Parsing a concatenation of encoded addresses yields them back.
pub proof fn lemma_dec_enc_addr_list(v: Seq<Seq<u8>>, s: Seq<u8>, i: int)
    requires
        forall|l: int| 0 <= l < v.len() ==> (#[trigger] v[l]).len() < 0x1_0000_0000_0000_0000nat,
        0 <= i,
        i + enc_addrs(v).len() <= s.len(),
        s.subrange(i, i + enc_addrs(v).len()) == enc_addrs(v),
    ensures
        dec_addr_list(s, i, v.len()) == Some((v, i + enc_addrs(v).len())),
    decreases v.len(),
{
    if v.len() == 0 {
    } else {
        lemma_enc_addrs_first(v);
        let a = enc_bstr(v.first());
        let b = enc_addrs(v.drop_first());
        lemma_subrange_split(s, i, a, b);
        lemma_dec_enc_bstr(v.first(), s, i);
        assert(forall|l: int|
            0 <= l < v.drop_first().len() ==> (#[trigger] v.drop_first()[l]).len()
                < 0x1_0000_0000_0000_0000nat) by {
            assert(forall|l: int| 0 <= l < v.drop_first().len() ==> v.drop_first()[l] == v[l + 1]);
        }
        lemma_dec_enc_addr_list(v.drop_first(), s, i + a.len());
        assert(seq![v.first()] + v.drop_first() =~= v);
    }
}

/// Parse a signed 32-bit integer.
pub open spec fn dec_i32(s: Seq<u8>, i: int) -> Option<(i32, int)> {
    match dec_head(s, i) {
        Some((major, n, j)) => {
            if major == 0 && n <= 0x7fff_ffff {
                Some((n as i32, j))
            } else if major == 1 && n <= 0x7fff_ffff {
                Some(((-1 - n) as i32, j))
            } else {
                None
            }
        },
        None => None,
    }
}

/// Parsing an encoded signed integer yields it back.
pub proof fn lemma_dec_enc_i32(n: i32, s: Seq<u8>, i: int)
    requires
        0 <= i,
        i + enc_i32(n).len() <= s.len(),
        s.subrange(i, i + enc_i32(n).len()) == enc_i32(n),
    ensures
        dec_i32(s, i) == Some((n, i + enc_i32(n).len())),
{
    if n >= 0 {
        lemma_dec_enc_head(0, n as nat, s, i);
    } else {
        lemma_dec_enc_head(1, (-1 - n) as nat, s, i);
    }
}

/// Parse a message: a tagged array.
pub open spec fn dec_msg(s: Seq<u8>, i: int) -> Option<(MessageV, int)> {
    match dec_arr(s, i) {
        Some((arity, j)) => {
            match dec_uint(s, j) {
                Some((tag, j2)) => {
                    if tag == 9 {
                        if arity == 1 {
                            Some((MessageV::DiscoverNodes, j2))
                        } else {
                            None
                        }
                    } else if arity != 2 {
                        None
                    } else if tag == 0 {
                        match dec_bstr(s, j2) {
                            Some((k, j3)) => Some((MessageV::FetchUTXOs(k), j3)),
                            None => None,
                        }
                    } else if tag == 1 {
                        match dec_arr(s, j2) {
                            Some((n, j3)) => {
                                match dec_pair_list(s, j3, n) {
                                    Some((v, j4)) => Some((MessageV::UTXOs(v), j4)),
                                    None => None,
                                }
                            },
                            None => None,
                        }
                    } else if tag == 2 {
                        match dec_tx(s, j2) {
                            Some((t, j3)) => Some((MessageV::SubmitTransaction(t), j3)),
                            None => None,
                        }
                    } else if tag == 3 {
                        match dec_tx(s, j2) {
                            Some((t, j3)) => Some((MessageV::NewTransaction(t), j3)),
                            None => None,
                        }
                    } else if tag == 4 {
                        match dec_bstr(s, j2) {
                            Some((k, j3)) => Some((MessageV::FetchTemplate(k), j3)),
                            None => None,
                        }
                    } else if tag == 5 {
                        match dec_block(s, j2) {
                            Some((b, j3)) => Some((MessageV::Template(b), j3)),
                            None => None,
                        }
                    } else if tag == 6 {
                        match dec_block(s, j2) {
                            Some((b, j3)) => Some((MessageV::ValidateTemplate(b), j3)),
                            None => None,
                        }
                    } else if tag == 7 {
                        match dec_bool(s, j2) {
                            Some((v, j3)) => Some((MessageV::TemplateValidity(v), j3)),
                            None => None,
                        }
                    } else if tag == 8 {
                        match dec_block(s, j2) {
                            Some((b, j3)) => Some((MessageV::SubmitTemplate(b), j3)),
                            None => None,
                        }
                    } else if tag == 10 {
                        match dec_arr(s, j2) {
                            Some((n, j3)) => {
                                match dec_addr_list(s, j3, n) {
                                    Some((v, j4)) => Some((MessageV::NodeList(v), j4)),
                                    None => None,
                                }
                            },
                            None => None,
                        }
                    } else if tag == 11 {
                        match dec_uint(s, j2) {
                            Some((h, j3)) => {
                                if h <= 0xffff_ffff {
                                    Some((MessageV::AskDifference(h as u32), j3))
                                } else {
                                    None
                                }
                            },
                            None => None,
                        }
                    } else if tag == 12 {
                        match dec_i32(s, j2) {
                            Some((d, j3)) => Some((MessageV::Difference(d), j3)),
                            None => None,
                        }
                    } else if tag == 13 {
                        match dec_uint(s, j2) {
                            Some((h, j3)) => Some((MessageV::FetchBlock(h as u64), j3)),
                            None => None,
                        }
                    } else if tag == 14 {
                        match dec_block(s, j2) {
                            Some((b, j3)) => Some((MessageV::NewBlock(b), j3)),
                            None => None,
                        }
                    } else {
                        None
                    }
                },
                None => None,
            }
        },
        None => None,
    }
}

/// Parsing an encoded message yields it back.
#[verifier::rlimit(100)]
pub proof fn lemma_dec_enc_msg(m: MessageV, s: Seq<u8>, i: int)
    requires
        msg_vwf(m),
        0 <= i,
        i + enc_msg(m).len() <= s.len(),
        s.subrange(i, i + enc_msg(m).len()) == enc_msg(m),
    ensures
        dec_msg(s, i) == Some((m, i + enc_msg(m).len())),
{
    let tag = msg_tag(m);
    if m is DiscoverNodes {
        let a = enc_head(4, 1);
        let b = enc_uint(tag);
        assert(enc_msg(m) =~= a + b);
        lemma_subrange_split(s, i, a, b);
        lemma_dec_enc_arr(1, s, i);
        lemma_dec_enc_uint(tag, s, i + a.len());
    } else {
        let a = enc_head(4, 2);
        let b = enc_uint(tag);
        let c = enc_payload(m);
        assert(enc_msg(m) =~= a + (b + c));
        lemma_subrange_split(s, i, a, b + c);
        lemma_dec_enc_arr(2, s, i);
        lemma_subrange_split(s, i + a.len(), b, c);
        lemma_dec_enc_uint(tag, s, i + a.len());
        let jp = i + a.len() + b.len();
        match m {
            MessageV::FetchUTXOs(k) => {
                lemma_dec_enc_bstr(k, s, jp);
            },
            MessageV::UTXOs(v) => {
                let h = enc_head(4, v.len());
                let e = enc_pairs(v);
                assert(c =~= h + e);
                lemma_subrange_split(s, jp, h, e);
                lemma_dec_enc_arr(v.len(), s, jp);
                lemma_dec_enc_pair_list(v, s, jp + h.len());
            },
            MessageV::SubmitTransaction(t) => {
                lemma_dec_enc_tx(t, s, jp);
            },
            MessageV::NewTransaction(t) => {
                lemma_dec_enc_tx(t, s, jp);
            },
            MessageV::FetchTemplate(k) => {
                lemma_dec_enc_bstr(k, s, jp);
            },
            MessageV::Template(b2) => {
                lemma_dec_enc_block(b2, s, jp);
            },
            MessageV::ValidateTemplate(b2) => {
                lemma_dec_enc_block(b2, s, jp);
            },
            MessageV::TemplateValidity(v) => {
                assert(s.subrange(jp, jp + 1) == enc_bool(v));
                lemma_dec_enc_bool(v, s, jp);
            },
            MessageV::SubmitTemplate(b2) => {
                lemma_dec_enc_block(b2, s, jp);
            },
            MessageV::DiscoverNodes => {},
            MessageV::NodeList(v) => {
                let h = enc_head(4, v.len());
                let e = enc_addrs(v);
                assert(c =~= h + e);
                lemma_subrange_split(s, jp, h, e);
                lemma_dec_enc_arr(v.len(), s, jp);
                lemma_dec_enc_addr_list(v, s, jp + h.len());
            },
            MessageV::AskDifference(h) => {
                lemma_dec_enc_uint(h as nat, s, jp);
            },
            MessageV::Difference(d) => {
                lemma_dec_enc_i32(d, s, jp);
            },
            MessageV::FetchBlock(h) => {
                lemma_dec_enc_uint(h as nat, s, jp);
            },
            MessageV::NewBlock(b2) => {
                lemma_dec_enc_block(b2, s, jp);
            },
        }
    }
}

/// The round-trip law of the wire format: decoding an encoded message
/// yields the message back, consuming every byte.
pub proof fn lemma_message_round_trip(m: MessageV)
    requires
        msg_vwf(m),
    ensures
        dec_msg(enc_msg(m), 0) == Some((m, enc_msg(m).len() as int)),
{
    let s = enc_msg(m);
    assert(s.subrange(0, s.len() as int) =~= s);
    lemma_dec_enc_msg(m, s, 0);
}

/// Write an `(output, marked)` pair.
fn write_pair(out: &mut Vec<u8>, p: &(TransactionOutput, bool))
    ensures
        final (out)@ == old(out)@ + enc_pair((p.0@, p.1)),
{
    let ghost base = out@;
    crate::codec::write_head(out, 4, 2);
    crate::codec::write_output(out, &p.0);
    crate::codec::write_bool(out, p.1);
    proof {
        assert(out@ =~= base + enc_pair((p.0@, p.1)));
    }
}

/// Write a list of pairs as an array.
fn write_pairs(out: &mut Vec<u8>, v: &Vec<(TransactionOutput, bool)>)
    ensures
        final (out)@ == old(out)@ + enc_head(4, v@.len()) + enc_pairs(
            v@.map_values(|p: (TransactionOutput, bool)| (p.0@, p.1)),
        ),
{
    let ghost base = out@;
    let ghost m = v@.map_values(|p: (TransactionOutput, bool)| (p.0@, p.1));
    crate::codec::write_head(out, 4, v.len() as u64);
    let n = v.len();
    let mut i: usize = 0;
    while i < n
        invariant
            i <= n,
            n == v@.len(),
            m == v@.map_values(|p: (TransactionOutput, bool)| (p.0@, p.1)),
            out@ == base + enc_head(4, n as nat) + enc_pairs(m.take(i as int)),
        decreases n - i,
    {
        write_pair(out, &v[i]);
        proof {
            assert(m.take(i + 1).drop_last() =~= m.take(i as int));
            assert(m.take(i + 1).last() == m[i as int]);
            assert(m[i as int] == (v@[i as int].0@, v@[i as int].1));
            assert(out@ =~= base + enc_head(4, n as nat) + enc_pairs(m.take(i + 1)));
        }
        i = i + 1;
    }
    proof {
        assert(m.take(n as int) =~= m);
    }
}

/// Write a list of addresses as an array.
fn write_addrs(out: &mut Vec<u8>, v: &Vec<Vec<u8>>)
    ensures
        final (out)@ == old(out)@ + enc_head(4, v@.len()) + enc_addrs(
            v@.map_values(|a: Vec<u8>| a@),
        ),
{
    let ghost base = out@;
    let ghost m = v@.map_values(|a: Vec<u8>| a@);
    crate::codec::write_head(out, 4, v.len() as u64);
    let n = v.len();
    let mut i: usize = 0;
    while i < n
        invariant
            i <= n,
            n == v@.len(),
            m == v@.map_values(|a: Vec<u8>| a@),
            out@ == base + enc_head(4, n as nat) + enc_addrs(m.take(i as int)),
        decreases n - i,
    {
        crate::codec::write_bstr(out, &v[i]);
        proof {
            assert(m.take(i + 1).drop_last() =~= m.take(i as int));
            assert(m.take(i + 1).last() == m[i as int]);
            assert(m[i as int] == v@[i as int]@);
            assert(out@ =~= base + enc_head(4, n as nat) + enc_addrs(m.take(i + 1)));
        }
        i = i + 1;
    }
    proof {
        assert(m.take(n as int) =~= m);
    }
}

/// Write a signed 32-bit integer.
fn write_i32(out: &mut Vec<u8>, n: i32)
    ensures
        final (out)@ == old(out)@ + enc_i32(n),
{
    if n >= 0 {
        crate::codec::write_head(out, 0, n as u64);
    } else {
        let mag: u64 = (-1 - n as i64) as u64;
        crate::codec::write_head(out, 1, mag);
    }
}

impl Message {
    /// The canonical CBOR bytes of this message.
    pub fn encode(&self) -> (r: Vec<u8>)
        ensures
            r@ == enc_msg(self@),
    {
        let mut out: Vec<u8> = Vec::new();
        match self {
            Message::DiscoverNodes => {
                crate::codec::write_head(&mut out, 4, 1);
                crate::codec::write_uint(&mut out, 9);
            },
            Message::FetchUTXOs(k) => {
                crate::codec::write_head(&mut out, 4, 2);
                crate::codec::write_uint(&mut out, 0);
                crate::codec::write_bstr(&mut out, &k.bytes);
            },
            Message::UTXOs(v) => {
                crate::codec::write_head(&mut out, 4, 2);
                crate::codec::write_uint(&mut out, 1);
                write_pairs(&mut out, v);
            },
            Message::SubmitTransaction(t) => {
                crate::codec::write_head(&mut out, 4, 2);
                crate::codec::write_uint(&mut out, 2);
                crate::codec::write_tx(&mut out, t);
            },
            Message::NewTransaction(t) => {
                crate::codec::write_head(&mut out, 4, 2);
                crate::codec::write_uint(&mut out, 3);
                crate::codec::write_tx(&mut out, t);
            },
            Message::FetchTemplate(k) => {
                crate::codec::write_head(&mut out, 4, 2);
                crate::codec::write_uint(&mut out, 4);
                crate::codec::write_bstr(&mut out, &k.bytes);
            },
            Message::Template(b) => {
                crate::codec::write_head(&mut out, 4, 2);
                crate::codec::write_uint(&mut out, 5);
                crate::codec::write_block(&mut out, b);
            },
            Message::ValidateTemplate(b) => {
                crate::codec::write_head(&mut out, 4, 2);
                crate::codec::write_uint(&mut out, 6);
                crate::codec::write_block(&mut out, b);
            },
            Message::TemplateValidity(v) => {
                crate::codec::write_head(&mut out, 4, 2);
                crate::codec::write_uint(&mut out, 7);
                crate::codec::write_bool(&mut out, *v);
            },
            Message::SubmitTemplate(b) => {
                crate::codec::write_head(&mut out, 4, 2);
                crate::codec::write_uint(&mut out, 8);
                crate::codec::write_block(&mut out, b);
            },
            Message::NodeList(v) => {
                crate::codec::write_head(&mut out, 4, 2);
                crate::codec::write_uint(&mut out, 10);
                write_addrs(&mut out, v);
            },
            Message::AskDifference(h) => {
                crate::codec::write_head(&mut out, 4, 2);
                crate::codec::write_uint(&mut out, 11);
                crate::codec::write_uint(&mut out, *h as u64);
            },
            Message::Difference(d) => {
                crate::codec::write_head(&mut out, 4, 2);
                crate::codec::write_uint(&mut out, 12);
                write_i32(&mut out, *d);
            },
            Message::FetchBlock(h) => {
                crate::codec::write_head(&mut out, 4, 2);
                crate::codec::write_uint(&mut out, 13);
                crate::codec::write_uint(&mut out, *h);
            },
            Message::NewBlock(b) => {
                crate::codec::write_head(&mut out, 4, 2);
                crate::codec::write_uint(&mut out, 14);
                crate::codec::write_block(&mut out, b);
            },
        }
        proof {
            assert(out@ =~= enc_msg(self@));
        }
        out
    }

    /// The message framed for a byte stream: its length as eight
    /// big-endian bytes, then its CBOR bytes.
    pub fn frame(&self) -> (r: Vec<u8>)
        ensures
            r@ == bytes_of(enc_msg(self@).len(), 8) + enc_msg(self@),
    {
        let payload = self.encode();
        let mut out: Vec<u8> = Vec::new();
        crate::bytes::push_be8(&mut out, payload.len() as u64);
        out.extend_from_slice(payload.as_slice());
        proof {
            assert(out@ =~= bytes_of(enc_msg(self@).len(), 8) + enc_msg(self@));
        }
        out
    }

    /// Parse a message from bytes; `InvalidData` when they do not parse.
    /// Trailing bytes after the message are ignored.
    pub fn decode(bytes: &Vec<u8>) -> (r: Result<Message, crate::BtcError>)
        ensures
            match r {
                Ok(m) => dec_msg(bytes@, 0) is Some && dec_msg(bytes@, 0)->Some_0.0 == m@,
                Err(e) => dec_msg(bytes@, 0) is None && e == crate::BtcError::InvalidData,
            },
    {
        match read_message(bytes, 0) {
            Some(p) => Ok(p.0),
            None => Err(crate::BtcError::InvalidData),
        }
    }
}

/// Read an `(output, marked)` pair.
fn read_pair(bytes: &Vec<u8>, pos: usize) -> (r: Option<((TransactionOutput, bool), usize)>)
    ensures
        match r {
            Some(p) => dec_pair(bytes@, pos as int) == Some((((p.0).0@, (p.0).1), p.1 as int))
                && pos <= p.1 <= bytes@.len(),
            None => dec_pair(bytes@, pos as int) is None,
        },
{
    let (n, j) = match crate::codec::read_arr(bytes, pos) {
        Some(p) => p,
        None => {
            return None;
        },
    };
    if n != 2 {
        return None;
    }
    let (o, j2) = match crate::codec::read_output(bytes, j) {
        Some(p) => p,
        None => {
            return None;
        },
    };
    let (b, j3) = match crate::codec::read_bool(bytes, j2) {
        Some(p) => p,
        None => {
            return None;
        },
    };
    Some(((o, b), j3))
}

/// Read `n` consecutive pairs.
fn read_pair_list(bytes: &Vec<u8>, pos: usize, n: u64) -> (r: Option<
    (Vec<(TransactionOutput, bool)>, usize),
>)
    requires
        pos <= bytes@.len(),
    ensures
        match r {
            Some(p) => dec_pair_list(bytes@, pos as int, n as nat) == Some(
                (p.0@.map_values(|q: (TransactionOutput, bool)| (q.0@, q.1)), p.1 as int),
            ) && pos <= p.1 <= bytes@.len(),
            None => dec_pair_list(bytes@, pos as int, n as nat) is None,
        },
{
    let mut acc: Vec<(TransactionOutput, bool)> = Vec::new();
    let mut p = pos;
    let mut k: u64 = 0;
    proof {
        assert(acc@.map_values(|q: (TransactionOutput, bool)| (q.0@, q.1)) =~= Seq::<
            (OutputV, bool),
        >::empty());
    }
    while k < n
        invariant
            0 <= k <= n,
            pos <= p <= bytes@.len(),
            dec_pair_list(bytes@, pos as int, n as nat) == prepend_list(
                dec_pair_list(bytes@, p as int, (n - k) as nat),
                acc@.map_values(|q: (TransactionOutput, bool)| (q.0@, q.1)),
            ),
        decreases n - k,
    {
        let ghost pre = acc@.map_values(|q: (TransactionOutput, bool)| (q.0@, q.1));
        match read_pair(bytes, p) {
            Some(q) => {
                let (v, np) = q;
                let ghost vv = (v.0@, v.1);
                acc.push(v);
                proof {
                    assert(acc@.map_values(|q2: (TransactionOutput, bool)| (q2.0@, q2.1))
                        =~= pre.push(vv));
                    assert(pre + (seq![vv] + dec_pair_list(
                        bytes@,
                        np as int,
                        (n - k - 1) as nat,
                    )->Some_0.0) =~= pre.push(vv) + dec_pair_list(
                        bytes@,
                        np as int,
                        (n - k - 1) as nat,
                    )->Some_0.0);
                }
                p = np;
            },
            None => {
                return None;
            },
        }
        k = k + 1;
    }
    Some((acc, p))
}

/// Read `n` consecutive addresses.
fn read_addr_list(bytes: &Vec<u8>, pos: usize, n: u64) -> (r: Option<(Vec<Vec<u8>>, usize)>)
    requires
        pos <= bytes@.len(),
    ensures
        match r {
            Some(p) => dec_addr_list(bytes@, pos as int, n as nat) == Some(
                (p.0@.map_values(|a: Vec<u8>| a@), p.1 as int),
            ) && pos <= p.1 <= bytes@.len(),
            None => dec_addr_list(bytes@, pos as int, n as nat) is None,
        },
{
    let mut acc: Vec<Vec<u8>> = Vec::new();
    let mut p = pos;
    let mut k: u64 = 0;
    proof {
        assert(acc@.map_values(|a: Vec<u8>| a@) =~= Seq::<Seq<u8>>::empty());
    }
    while k < n
        invariant
            0 <= k <= n,
            pos <= p <= bytes@.len(),
            dec_addr_list(bytes@, pos as int, n as nat) == prepend_list(
                dec_addr_list(bytes@, p as int, (n - k) as nat),
                acc@.map_values(|a: Vec<u8>| a@),
            ),
        decreases n - k,
    {
        let ghost pre = acc@.map_values(|a: Vec<u8>| a@);
        match crate::codec::read_bstr(bytes, p) {
            Some(q) => {
                let (v, np) = q;
                let ghost vv = v@;
                acc.push(v);
                proof {
                    assert(acc@.map_values(|a: Vec<u8>| a@) =~= pre.push(vv));
                    assert(pre + (seq![vv] + dec_addr_list(
                        bytes@,
                        np as int,
                        (n - k - 1) as nat,
                    )->Some_0.0) =~= pre.push(vv) + dec_addr_list(
                        bytes@,
                        np as int,
                        (n - k - 1) as nat,
                    )->Some_0.0);
                }
                p = np;
            },
            None => {
                return None;
            },
        }
        k = k + 1;
    }
    Some((acc, p))
}

/// Read a signed 32-bit integer.
fn read_i32(bytes: &Vec<u8>, pos: usize) -> (r: Option<(i32, usize)>)
    ensures
        match r {
            Some(p) => dec_i32(bytes@, pos as int) == Some((p.0, p.1 as int)) && pos < p.1
                <= bytes@.len(),
            None => dec_i32(bytes@, pos as int) is None,
        },
{
    match crate::codec::read_head(bytes, pos) {
        Some((major, v, np)) => {
            if major == 0 && v <= 0x7fff_ffff {
                Some((v as i32, np))
            } else if major == 1 && v <= 0x7fff_ffff {
                Some((-1 - (v as i32), np))
            } else {
                None
            }
        },
        None => None,
    }
}

/// Read a message.
#[verifier::rlimit(100)]
fn read_message(bytes: &Vec<u8>, pos: usize) -> (r: Option<(Message, usize)>)
    ensures
        match r {
            Some(p) => dec_msg(bytes@, pos as int) == Some((p.0@, p.1 as int)) && pos < p.1
                <= bytes@.len(),
            None => dec_msg(bytes@, pos as int) is None,
        },
{
    let (arity, j) = match crate::codec::read_arr(bytes, pos) {
        Some(p) => p,
        None => {
            return None;
        },
    };
    let (tag, j2) = match crate::codec::read_uint(bytes, j) {
        Some(p) => p,
        None => {
            return None;
        },
    };
    if tag == 9 {
        if arity == 1 {
            return Some((Message::DiscoverNodes, j2));
        }
        return None;
    }
    if arity != 2 {
        return None;
    }
    if tag == 0 {
        match crate::codec::read_bstr(bytes, j2) {
            Some((k, j3)) => Some((Message::FetchUTXOs(PublicKey { bytes: k }), j3)),
            None => None,
        }
    } else if tag == 1 {
        let (n, j3) = match crate::codec::read_arr(bytes, j2) {
            Some(p) => p,
            None => {
                return None;
            },
        };
        match read_pair_list(bytes, j3, n) {
            Some((v, j4)) => Some((Message::UTXOs(v), j4)),
            None => None,
        }
    } else if tag == 2 {
        match crate::codec::read_tx(bytes, j2) {
            Some((t, j3)) => Some((Message::SubmitTransaction(t), j3)),
            None => None,
        }
    } else if tag == 3 {
        match crate::codec::read_tx(bytes, j2) {
            Some((t, j3)) => Some((Message::NewTransaction(t), j3)),
            None => None,
        }
    } else if tag == 4 {
        match crate::codec::read_bstr(bytes, j2) {
            Some((k, j3)) => Some((Message::FetchTemplate(PublicKey { bytes: k }), j3)),
            None => None,
        }
    } else if tag == 5 {
        match crate::codec::read_block(bytes, j2) {
            Some((b, j3)) => Some((Message::Template(b), j3)),
            None => None,
        }
    } else if tag == 6 {
        match crate::codec::read_block(bytes, j2) {
            Some((b, j3)) => Some((Message::ValidateTemplate(b), j3)),
            None => None,
        }
    } else if tag == 7 {
        match crate::codec::read_bool(bytes, j2) {
            Some((v, j3)) => Some((Message::TemplateValidity(v), j3)),
            None => None,
        }
    } else if tag == 8 {
        match crate::codec::read_block(bytes, j2) {
            Some((b, j3)) => Some((Message::SubmitTemplate(b), j3)),
            None => None,
        }
    } else if tag == 10 {
        let (n, j3) = match crate::codec::read_arr(bytes, j2) {
            Some(p) => p,
            None => {
                return None;
            },
        };
        match read_addr_list(bytes, j3, n) {
            Some((v, j4)) => Some((Message::NodeList(v), j4)),
            None => None,
        }
    } else if tag == 11 {
        match crate::codec::read_uint(bytes, j2) {
            Some((h, j3)) => {
                if h <= 0xffff_ffff {
                    Some((Message::AskDifference(h as u32), j3))
                } else {
                    None
                }
            },
            None => None,
        }
    } else if tag == 12 {
        match read_i32(bytes, j2) {
            Some((d, j3)) => Some((Message::Difference(d), j3)),
            None => None,
        }
    } else if tag == 13 {
        match crate::codec::read_uint(bytes, j2) {
            Some((h, j3)) => Some((Message::FetchBlock(h), j3)),
            None => None,
        }
    } else if tag == 14 {
        match crate::codec::read_block(bytes, j2) {
            Some((b, j3)) => Some((Message::NewBlock(b), j3)),
            None => None,
        }
    } else {
        None
    }
}

} // verus!
