//! The UTXO set: a mapping from the hash of the producing transaction to
//! a `(marked, output)` pair, `marked` meaning "currently referenced by a
//! mempool transaction".
//!
//! Stored as a vector of entries with pairwise distinct keys; its
//! mathematical content is the map [`map_of`] builds from them.

use crate::hash;
use crate::transaction::{OutputV, TransactionOutput};
use vstd::prelude::*;

verus! {

/// One UTXO: its key (the producing transaction's hash), the mempool
/// mark, and the output itself.
#[derive(Debug, PartialEq, Eq)]
pub struct UtxoEntry {
    pub key: hash::Hash,
    pub marked: bool,
    pub output: TransactionOutput,
}

/// The mathematical shape of a UTXO entry.
pub struct UtxoEntryV {
    pub key: nat,
    pub marked: bool,
    pub output: OutputV,
}

impl View for UtxoEntry {
    type V = UtxoEntryV;

    open spec fn view(&self) -> UtxoEntryV {
        UtxoEntryV { key: self.key.as_nat(), marked: self.marked, output: self.output@ }
    }
}

/// The map a sequence of entries denotes; a later entry overrides an
/// earlier one with the same key.
pub open spec fn map_of(s: Seq<UtxoEntryV>) -> Map<nat, (bool, OutputV)>
    decreases s.len(),
{
    if s.len() == 0 {
        Map::empty()
    } else {
        map_of(s.drop_last()).insert(s.last().key, (s.last().marked, s.last().output))
    }
}

/// Pairwise distinct keys.
pub open spec fn keys_unique(s: Seq<UtxoEntryV>) -> bool {
    forall|i: int, j: int| 0 <= i < j < s.len() ==> s[i].key != s[j].key
}

/// A key is in the map exactly when some entry carries it.
pub proof fn lemma_map_of_dom(s: Seq<UtxoEntryV>, k: nat)
    ensures
        map_of(s).dom().contains(k) <==> exists|i: int| 0 <= i < s.len() && s[i].key == k,
    decreases s.len(),
{
    if s.len() > 0 {
        lemma_map_of_dom(s.drop_last(), k);
        if s.last().key == k {
            assert(s[s.len() - 1].key == k);
        } else if map_of(s).dom().contains(k) {
            let i = choose|i: int| 0 <= i < s.len() - 1 && s.drop_last()[i].key == k;
            assert(s[i].key == k);
        } else {
            assert forall|i: int| 0 <= i < s.len() && s[i].key == k implies false by {
                if i < s.len() - 1 {
                    assert(s.drop_last()[i].key == k);
                }
            }
        }
    }
}

/// With unique keys, the entry carrying a key gives the map's value at it.
pub proof fn lemma_map_of_index(s: Seq<UtxoEntryV>, i: int)
    requires
        keys_unique(s),
        0 <= i < s.len(),
    ensures
        map_of(s).dom().contains(s[i].key),
        map_of(s)[s[i].key] == (s[i].marked, s[i].output),
    decreases s.len(),
{
    if i == s.len() - 1 {
        lemma_map_of_dom(s, s[i].key);
    } else {
        assert(keys_unique(s.drop_last()));
        assert(s.drop_last()[i] == s[i]);
        lemma_map_of_index(s.drop_last(), i);
        assert(s.last().key != s[i].key);
    }
}

/// The UTXO set.
#[derive(Debug, PartialEq, Eq)]
pub struct UtxoMap {
    pub entries: Vec<UtxoEntry>,
}

impl View for UtxoMap {
    type V = Seq<UtxoEntryV>;

    open spec fn view(&self) -> Seq<UtxoEntryV> {
        self.entries@.map_values(|e: UtxoEntry| e@)
    }
}

impl Clone for UtxoEntry {
    /// A clone denotes the same entry.
    fn clone(&self) -> (r: Self)
        ensures
            r@ == self@,
    {
        UtxoEntry { key: self.key, marked: self.marked, output: self.output.clone() }
    }
}

impl Clone for UtxoMap {
    /// A clone denotes the same set.
    fn clone(&self) -> (r: Self)
        ensures
            r@ == self@,
    {
        let r = UtxoMap { entries: self.entries.clone() };
        proof {
            assert forall|i: int| 0 <= i < self.entries@.len() implies r.entries@[i]@
                == self.entries@[i]@ by {}
            assert(r@ =~= self@);
        }
        r
    }
}

impl UtxoMap {
    /// The map this UTXO set denotes.
    pub open spec fn as_map(&self) -> Map<nat, (bool, OutputV)> {
        map_of(self@)
    }

    /// Entries carry pairwise distinct keys.
    pub open spec fn wf(&self) -> bool {
        keys_unique(self@)
    }

    /// The empty set.
    pub fn new() -> (r: UtxoMap)
        ensures
            r.as_map() == Map::<nat, (bool, OutputV)>::empty(),
            r.wf(),
            r@.len() == 0,
    {
        let r = UtxoMap { entries: Vec::new() };
        proof {
            assert(r@ =~= Seq::<UtxoEntryV>::empty());
        }
        r
    }

    /// The index of the entry carrying a key, if any.
    fn find(&self, key: &hash::Hash) -> (r: Option<usize>)
        ensures
            match r {
                Some(i) => i < self@.len() && self@[i as int].key == key.as_nat(),
                None => forall|i: int| 0 <= i < self@.len() ==> self@[i].key != key.as_nat(),
            },
    {
        let n = self.entries.len();
        let mut i: usize = 0;
        while i < n
            invariant
                i <= n,
                n == self.entries@.len(),
                forall|j: int| 0 <= j < i ==> self@[j].key != key.as_nat(),
            decreases n - i,
        {
            if self.entries[i].key.value.le(&key.value) && key.value.le(
                &self.entries[i].key.value,
            ) {
                return Some(i);
            }
            i = i + 1;
        }
        None
    }

    /// Whether a key is present.
    pub fn contains_key(&self, key: &hash::Hash) -> (r: bool)
        ensures
            r == self.as_map().dom().contains(key.as_nat()),
    {
        proof {
            lemma_map_of_dom(self@, key.as_nat());
        }
        self.find(key).is_some()
    }

    /// The `(marked, output)` pair at a key, if present.
    pub fn get(&self, key: &hash::Hash) -> (r: Option<(bool, TransactionOutput)>)
        requires
            self.wf(),
        ensures
            match r {
                Some(p) => self.as_map().dom().contains(key.as_nat()) && self.as_map()[
                    key.as_nat()
                ] == (p.0, p.1@),
                None => !self.as_map().dom().contains(key.as_nat()),
            },
    {
        proof {
            lemma_map_of_dom(self@, key.as_nat());
        }
        match self.find(key) {
            Some(i) => {
                proof {
                    lemma_map_of_index(self@, i as int);
                }
                let e = &self.entries[i];
                Some((e.marked, e.output.clone()))
            },
            None => None,
        }
    }

    /// Insert or replace the entry at a key.
    pub fn insert(&mut self, key: &hash::Hash, marked: bool, output: TransactionOutput)
        requires
            old(self).wf(),
        ensures
            final (self).as_map() == old(self).as_map().insert(
                key.as_nat(),
                (marked, output@),
            ),
            final (self).wf(),
    {
        let ghost pre = self@;
        match self.find(key) {
            Some(i) => {
                let e = UtxoEntry { key: key.clone(), marked, output };
                self.entries.set(i, e);
                proof {
                    assert(self@ =~= pre.update(i as int, e@));
                    lemma_map_of_update(pre, i as int, e@);
                }
            },
            None => {
                let e = UtxoEntry { key: key.clone(), marked, output };
                self.entries.push(e);
                proof {
                    assert(self@.drop_last() =~= pre);
                    assert(self@.last() == e@);
                    assert forall|i: int, j: int|
                        0 <= i < j < self@.len() implies self@[i].key != self@[j].key by {
                        assert(self@[i] == pre[i]);
                        if j < self@.len() - 1 {
                            assert(self@[j] == pre[j]);
                        }
                    }
                }
            },
        }
    }

    /// Remove the entry at a key, if present.
    pub fn remove(&mut self, key: &hash::Hash)
        requires
            old(self).wf(),
        ensures
            final (self).as_map() == old(self).as_map().remove(key.as_nat()),
            final (self).wf(),
    {
        let ghost pre = self@;
        match self.find(key) {
            Some(i) => {
                self.entries.remove(i);
                proof {
                    assert(self@ =~= pre.remove(i as int));
                    lemma_map_of_remove(pre, i as int);
                    assert(final (self).as_map() =~= old(self).as_map().remove(key.as_nat()));
                }
            },
            None => {
                proof {
                    lemma_map_of_dom(pre, key.as_nat());
                    assert(self.as_map() =~= old(self).as_map().remove(key.as_nat()));
                }
            },
        }
    }

    /// Set the mark at a key if it is present; otherwise do nothing.
    pub fn set_marked(&mut self, key: &hash::Hash, marked: bool)
        requires
            old(self).wf(),
        ensures
            final (self).as_map() == set_marked_spec(old(self).as_map(), key.as_nat(), marked),
            final (self).wf(),
    {
        let ghost pre = self@;
        match self.find(key) {
            Some(i) => {
                proof {
                    lemma_map_of_index(pre, i as int);
                }
                let e = UtxoEntry {
                    key: key.clone(),
                    marked,
                    output: self.entries[i].output.clone(),
                };
                self.entries.set(i, e);
                proof {
                    assert(self@ =~= pre.update(i as int, e@));
                    lemma_map_of_update(pre, i as int, e@);
                }
            },
            None => {
                proof {
                    lemma_map_of_dom(pre, key.as_nat());
                }
            },
        }
    }

    /// How many entries the set holds.
    pub fn len(&self) -> (r: usize)
        ensures
            r == self@.len(),
    {
        self.entries.len()
    }
}

/// Marking a key: update its pair's flag if the key is present.
pub open spec fn set_marked_spec(u: Map<nat, (bool, OutputV)>, k: nat, marked: bool) -> Map<
    nat,
    (bool, OutputV),
> {
    if u.dom().contains(k) {
        u.insert(k, (marked, u[k].1))
    } else {
        u
    }
}

/// Updating the entry at an index updates the map at its key, when the
/// new entry keeps the old key and keys are unique.
proof fn lemma_map_of_update(s: Seq<UtxoEntryV>, i: int, e: UtxoEntryV)
    requires
        keys_unique(s),
        0 <= i < s.len(),
        e.key == s[i].key,
    ensures
        map_of(s.update(i, e)) == map_of(s).insert(e.key, (e.marked, e.output)),
        keys_unique(s.update(i, e)),
    decreases s.len(),
{
    let t = s.update(i, e);
    if i == s.len() - 1 {
        assert(t.drop_last() =~= s.drop_last());
        assert(t.last() == e);
    } else {
        assert(keys_unique(s.drop_last()));
        assert(s.drop_last()[i] == s[i]);
        lemma_map_of_update(s.drop_last(), i, e);
        assert(t.drop_last() =~= s.drop_last().update(i, e));
        assert(t.last() == s.last());
        assert(s.last().key != e.key);
        assert(map_of(t) =~= map_of(s).insert(e.key, (e.marked, e.output)));
    }
}

/// Removing the entry at an index removes its key from the map, when
/// keys are unique.
proof fn lemma_map_of_remove(s: Seq<UtxoEntryV>, i: int)
    requires
        keys_unique(s),
        0 <= i < s.len(),
    ensures
        map_of(s.remove(i)) == map_of(s).remove(s[i].key),
        keys_unique(s.remove(i)),
    decreases s.len(),
{
    let t = s.remove(i);
    if i == s.len() - 1 {
        assert(t =~= s.drop_last());
        lemma_map_of_dom(s.drop_last(), s[i].key);
        assert(forall|j: int|
            0 <= j < s.drop_last().len() ==> s.drop_last()[j].key != s[i].key);
        assert(!map_of(s.drop_last()).dom().contains(s[i].key));
        assert(map_of(t) =~= map_of(s).remove(s[i].key));
    } else {
        assert(keys_unique(s.drop_last()));
        assert(s.drop_last()[i] == s[i]);
        lemma_map_of_remove(s.drop_last(), i);
        assert(t.drop_last() =~= s.drop_last().remove(i));
        assert(t.last() == s.last());
        assert(s.last().key != s[i].key);
        assert(map_of(t) =~= map_of(s).remove(s[i].key));
    }
}

} // verus!
