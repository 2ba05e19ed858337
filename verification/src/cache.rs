//! The resolution cache: which address and value stand behind an output
//! that has not been spent yet.
use vstd::prelude::*;
use crate::assoc::{distinct_keys, erase, has_key, index_of, lemma_erase, lemma_index_found, lemma_store, lookup, store};
use crate::ledger::LedgerError;
use crate::model::{IndexedTxid, IndexedTxidView, Utxo, UtxoView};

verus! {

/// The values of a list of outputs with their references.
pub open spec fn entry_views(v: Seq<(IndexedTxid, Utxo)>) -> Seq<(IndexedTxidView, UtxoView)> {
    Seq::new(v.len(), |i: int| (v[i].0@, v[i].1@))
}

/// The unspent outputs seen so far, each under the reference that will spend it.
pub struct TxCache {
    entries: Vec<(IndexedTxid, Utxo)>,
}

impl TxCache {
    /// The cache as an association list, in insertion order.
    pub closed spec fn view(&self) -> Seq<(IndexedTxidView, UtxoView)> {
        entry_views(self.entries@)
    }

    /// No output is cached twice.
    pub open spec fn wf(&self) -> bool {
        distinct_keys(self@)
    }

    /// The empty cache.
    pub fn new() -> (r: TxCache)
        ensures
            r.wf(),
            r@ == Seq::<(IndexedTxidView, UtxoView)>::empty(),
    {
        let r = TxCache { entries: Vec::new() };
        assert(r@ =~= Seq::<(IndexedTxidView, UtxoView)>::empty());
        r
    }

    /// The cache that holds `entries`, or `None` where a reference occurs twice.
    pub fn from_entries(entries: Vec<(IndexedTxid, Utxo)>) -> (r: Option<TxCache>)
        ensures
            match r {
                Some(c) => c.wf() && c@ == entry_views(entries@),
                None => !distinct_keys(entry_views(entries@)),
            },
    {
        let ghost all = entry_views(entries@);
        let mut i: usize = 0;
        while i < entries.len()
            invariant
                i <= entries.len(),
                all == entry_views(entries@),
                forall|a: int, b: int| 0 <= a < b < i ==> (#[trigger] all[a]).0 != (#[trigger] all[b]).0,
            decreases entries.len() - i,
        {
            let mut j: usize = 0;
            while j < i
                invariant
                    j <= i,
                    i < entries.len(),
                    all == entry_views(entries@),
                    forall|a: int| 0 <= a < j ==> (#[trigger] all[a]).0 != all[i as int].0,
                decreases i - j,
            {
                if entries[j].0.same(&entries[i].0) {
                    assert(all[j as int].0 == all[i as int].0);
                    return None;
                }
                j += 1;
            }
            i += 1;
        }
        let r = TxCache { entries };
        assert(r@ =~= all);
        Some(r)
    }

    /// The number of cached outputs.
    pub fn len(&self) -> (r: usize)
        ensures
            r == self@.len(),
    {
        self.entries.len()
    }

    fn find(&self, key: &IndexedTxid) -> (r: Option<usize>)
        requires
            self.wf(),
        ensures
            match r {
                Some(i) => has_key(self@, key@) && i == index_of(self@, key@) && i < self@.len(),
                None => !has_key(self@, key@),
            },
    {
        let mut i: usize = 0;
        while i < self.entries.len()
            invariant
                i <= self.entries.len(),
                self.wf(),
                forall|j: int| 0 <= j < i ==> (#[trigger] self@[j]).0 != key@,
            decreases self.entries.len() - i,
        {
            if self.entries[i].0.same(key) {
                proof {
                    assert(self@[i as int].0 == key@);
                    lemma_index_found(self@, key@, i as int);
                }
                return Some(i);
            }
            i += 1;
        }
        None
    }

    /// Whether `key` can be resolved.
    pub fn contains(&self, key: &IndexedTxid) -> (r: bool)
        requires
            self.wf(),
        ensures
            r == has_key(self@, key@),
    {
        self.find(key).is_some()
    }

    /// Records `value` under `key`, in place of what was recorded there before.
    pub fn put(&mut self, key: IndexedTxid, value: Utxo)
        requires
            old(self).wf(),
        ensures
            final(self).wf(),
            final(self)@ == store(old(self)@, key@, value@),
            lookup(final(self)@, key@) == Some(value@),
    {
        proof {
            lemma_store(self@, key@, value@);
        }
        let ghost before = self@;
        match self.find(&key) {
            Some(i) => {
                self.entries.set(i, (key, value));
                assert(self@ =~= store(before, key@, value@));
            },
            None => {
                self.entries.push((key, value));
                assert(self@ =~= store(before, key@, value@));
            },
        }
    }

    /// Looks `key` up and removes it: an output is resolved at most once,
    /// and a reference that the cache does not hold is unresolved.
    pub fn take(&mut self, key: &IndexedTxid) -> (r: Result<Utxo, LedgerError>)
        requires
            old(self).wf(),
        ensures
            final(self).wf(),
            final(self)@ == erase(old(self)@, key@),
            !has_key(final(self)@, key@),
            match lookup(old(self)@, key@) {
                Some(u) => r is Ok && r->Ok_0@ == u,
                None => r == Err::<Utxo, LedgerError>(LedgerError::UnresolvedInput),
            },
    {
        proof {
            lemma_erase(self@, key@);
        }
        let ghost before = self@;
        match self.find(key) {
            Some(i) => {
                let entry = self.entries.remove(i);
                assert(self@ =~= erase(before, key@));
                Ok(entry.1)
            },
            None => Err(LedgerError::UnresolvedInput),
        }
    }

    /// A copy with the same contents.
    pub fn duplicate(&self) -> (r: TxCache)
        ensures
            r@ == self@,
    {
        let mut entries: Vec<(IndexedTxid, Utxo)> = Vec::new();
        let mut i: usize = 0;
        while i < self.entries.len()
            invariant
                i <= self.entries.len(),
                entries@.len() == i,
                forall|j: int|
                    0 <= j < i ==> (#[trigger] entries@[j]).0@ == self.entries@[j].0@
                        && entries@[j].1@ == self.entries@[j].1@,
            decreases self.entries.len() - i,
        {
            entries.push((self.entries[i].0.duplicate(), self.entries[i].1.duplicate()));
            i += 1;
        }
        let r = TxCache { entries };
        assert(r@ =~= self@);
        r
    }

    /// The cached outputs with their references, in insertion order.
    pub fn entries(&self) -> (r: Vec<(IndexedTxid, Utxo)>)
        ensures
            entry_views(r@) == self@,
    {
        let r = self.duplicate().entries;
        assert(entry_views(r@) =~= self@);
        r
    }
}

/// An output that was put is resolved by the first `take` of its reference,
/// and no second `take` finds it.
pub proof fn lemma_resolved_exactly_once(
    cache: Seq<(IndexedTxidView, UtxoView)>,
    key: IndexedTxidView,
    value: UtxoView,
)
    requires
        distinct_keys(cache),
    ensures
        lookup(store(cache, key, value), key) == Some(value),
        lookup(erase(store(cache, key, value), key), key) is None,
        distinct_keys(erase(store(cache, key, value), key)),
{
    lemma_store(cache, key, value);
    lemma_erase(store(cache, key, value), key);
}

} // verus!
