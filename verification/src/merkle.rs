//! Merkle commitment over a block's transactions.
//!
//! Hash every transaction; combine pairs (duplicating a trailing odd
//! element) level by level until one hash remains. An empty transaction
//! list yields the zero root; block validation rejects empty blocks
//! before that matters.

use crate::bytes::bytes_of;
use crate::codec::tx_hash;
use crate::hash;
use crate::hash::hash_bytes;
use crate::transaction::{Transaction, TxV};
use vstd::prelude::*;

verus! {

/// The hash of an inner node: SHA-256 over the 64 bytes of its children.
pub open spec fn combine(l: nat, r: nat) -> nat {
    hash_bytes(bytes_of(l, 32) + bytes_of(r, 32))
}

/// One level of the tree: combine pairs left to right; a trailing odd
/// element is paired with itself.
pub open spec fn level_up(s: Seq<nat>) -> Seq<nat>
    decreases s.len(),
{
    if s.len() == 0 {
        Seq::empty()
    } else if s.len() == 1 {
        seq![combine(s[0], s[0])]
    } else {
        seq![combine(s[0], s[1])] + level_up(s.skip(2))
    }
}

/// A level holds half as many hashes, the odd one rounded up.
pub proof fn lemma_level_up_len(s: Seq<nat>)
    ensures
        level_up(s).len() == (s.len() + 1) / 2,
    decreases s.len(),
{
    if s.len() >= 2 {
        lemma_level_up_len(s.skip(2));
    }
}

/// Fold levels down to the root.
pub open spec fn merkle_reduce(s: Seq<nat>) -> nat
    decreases s.len(),
    when s.len() >= 0
    via merkle_reduce_decreases
{
    if s.len() == 0 {
        0
    } else if s.len() == 1 {
        s[0]
    } else {
        merkle_reduce(level_up(s))
    }
}

#[via_fn]
proof fn merkle_reduce_decreases(s: Seq<nat>) {
    if s.len() >= 2 {
        lemma_level_up_len(s);
    }
}

/// The Merkle root of a list of transactions.
pub open spec fn merkle_root_spec(txs: Seq<TxV>) -> nat {
    merkle_reduce(txs.map_values(|t: TxV| tx_hash(t)))
}

/// Combine two hashes into their parent node.
fn combine_exec(l: &hash::Hash, r: &hash::Hash) -> (h: hash::Hash)
    ensures
        h.as_nat() == combine(l.as_nat(), r.as_nat()),
{
    let mut bytes = l.as_bytes();
    let rb = r.as_bytes();
    bytes.extend_from_slice(rb.as_slice());
    proof {
        assert(bytes@ =~= bytes_of(l.as_nat(), 32) + bytes_of(r.as_nat(), 32));
    }
    hash::Hash::of_bytes(&bytes)
}

/// The values a list of hashes denotes.
pub open spec fn hash_values(s: Seq<hash::Hash>) -> Seq<nat> {
    s.map_values(|h: hash::Hash| h.as_nat())
}

/// Compute the Merkle root of a list of transactions.
pub fn calculate_merkle_root(txs: &Vec<Transaction>) -> (r: hash::Hash)
    ensures
        r.as_nat() == merkle_root_spec(txs@.map_values(|t: Transaction| t@)),
{
    let ghost views = txs@.map_values(|t: Transaction| t@);
    let ghost leaf_hashes = views.map_values(|t: TxV| tx_hash(t));
    let mut hashes: Vec<hash::Hash> = Vec::new();
    let n = txs.len();
    let mut i: usize = 0;
    while i < n
        invariant
            i <= n,
            n == txs@.len(),
            views == txs@.map_values(|t: Transaction| t@),
            leaf_hashes == views.map_values(|t: TxV| tx_hash(t)),
            hash_values(hashes@) =~= leaf_hashes.take(i as int),
        decreases n - i,
    {
        let h = txs[i].hash();
        let ghost pre = hashes@;
        hashes.push(h);
        proof {
            assert(views[i as int] == txs@[i as int]@);
            assert(leaf_hashes[i as int] == tx_hash(views[i as int]));
            assert(h.as_nat() == leaf_hashes[i as int]);
            assert(hashes@ == pre.push(h));
            assert(hash_values(pre).len() == pre.len());
            assert(pre.len() == i as int);
            assert forall|k: int| 0 <= k < i + 1 implies hash_values(hashes@)[k]
                == leaf_hashes.take(i + 1)[k] by {
                if k < i {
                    assert(hashes@[k] == pre[k]);
                    assert(hash_values(pre)[k] == leaf_hashes.take(i as int)[k]);
                }
            }
            assert(hash_values(hashes@) =~= leaf_hashes.take(i + 1));
        }
        i = i + 1;
    }
    proof {
        assert(leaf_hashes.take(n as int) =~= leaf_hashes);
    }
    if hashes.len() == 0 {
        return hash::Hash::zero();
    }
    while hashes.len() > 1
        invariant
            merkle_reduce(hash_values(hashes@)) == merkle_reduce(leaf_hashes),
            hashes@.len() >= 1,
        decreases hashes@.len(),
    {
        let ghost cur = hash_values(hashes@);
        let m = hashes.len();
        let mut next: Vec<hash::Hash> = Vec::new();
        let mut j: usize = 0;
        proof {
            assert(cur.skip(0) =~= cur);
            assert(hash_values(next@) =~= Seq::<nat>::empty());
            assert(level_up(cur) =~= hash_values(next@) + level_up(cur.skip(0)));
        }
        while j < m
            invariant
                m == hashes@.len(),
                m >= 2,
                cur == hash_values(hashes@),
                j <= m,
                j % 2 == 0 || j == m,
                level_up(cur) =~= hash_values(next@) + level_up(cur.skip(j as int)),
            decreases m - j,
        {
            let ghost pre_next = hash_values(next@);
            if j + 1 < m {
                let h = combine_exec(&hashes[j], &hashes[j + 1]);
                next.push(h);
                proof {
                    let rest = cur.skip(j as int);
                    assert(rest[0] == cur[j as int]);
                    assert(rest[1] == cur[j + 1]);
                    assert(rest.skip(2) =~= cur.skip(j + 2));
                    assert(hash_values(next@) =~= pre_next + seq![
                        combine(cur[j as int], cur[j + 1]),
                    ]);
                    assert(hash_values(next@) + level_up(cur.skip(j + 2)) =~= pre_next + (seq![
                        combine(rest[0], rest[1]),
                    ] + level_up(rest.skip(2))));
                }
                j = j + 2;
            } else {
                let h = combine_exec(&hashes[j], &hashes[j]);
                next.push(h);
                proof {
                    let rest = cur.skip(j as int);
                    assert(rest.len() == 1);
                    assert(rest[0] == cur[j as int]);
                    assert(hash_values(next@) =~= pre_next + seq![
                        combine(cur[j as int], cur[j as int]),
                    ]);
                    assert(level_up(rest) =~= seq![combine(rest[0], rest[0])]);
                    assert(cur.skip(j + 1).len() == 0);
                    assert(level_up(cur.skip(j + 1)) =~= Seq::<nat>::empty());
                    assert(hash_values(next@) + level_up(cur.skip(j + 1)) =~= pre_next
                        + level_up(rest));
                }
                j = j + 1;
            }
        }
        proof {
            assert(cur.skip(m as int).len() == 0);
            assert(level_up(cur.skip(m as int)) =~= Seq::<nat>::empty());
            assert(hash_values(next@) =~= level_up(cur));
            lemma_level_up_len(cur);
        }
        hashes = next;
    }
    proof {
        assert(hash_values(hashes@).len() == 1);
        assert(merkle_reduce(hash_values(hashes@)) == hash_values(hashes@)[0]);
    }
    let root = hashes[0].clone();
    root
}

} // verus!
