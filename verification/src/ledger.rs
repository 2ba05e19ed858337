//! The balance ledger: a block's outputs are credited, its inputs resolved
//! and debited, and the checkpoint advanced, all of it or none.
use vstd::prelude::*;
use vstd::string::StrSliceExecFns;
use crate::assoc::{distinct_keys, erase, has_key, index_of, lemma_index_found, lemma_store, lookup, store};
use crate::cache::{TxCache, entry_views};
use crate::integrity::{backed, lemma_block_keeps_backed, lemma_empty_is_backed};
use crate::rank::{rank_entries, ranked};
use crate::model::{IndexedTxid, IndexedTxidView, SumTx, SumTxView, Utxo, UtxoView, tx_views, utxo_views};

verus! {

/// Why a block was refused. Each is a violation of unspent-output accounting.
#[derive(Debug, Clone, Copy, PartialEq, Eq, Structural)]
pub enum LedgerError {
    /// An input spends an output that the cache does not hold.
    UnresolvedInput,
    /// An input would take more from an address than it holds.
    DebitUnderflow,
    /// An output's value does not fit the signed sums of the index.
    ValueOutOfRange,
    /// A credit would carry an address past the largest sum.
    BalanceOverflow,
    /// The block is not the one above the checkpoint.
    OutOfOrder,
}

/// The ledger's state: the sum per address, the unspent outputs, the checkpoint.
pub struct LedgerView {
    pub balances: Seq<(Seq<u8>, i64)>,
    pub cache: Seq<(IndexedTxidView, UtxoView)>,
    pub height: u64,
}

/// The key of an address in the balance index: its bytes.
pub open spec fn address_key(address: Seq<char>) -> Seq<u8> {
    vstd::utf8::encode_utf8(address)
}

/// What an address holds: zero where it was never seen.
pub open spec fn held(balances: Seq<(Seq<u8>, i64)>, key: Seq<u8>) -> int {
    match lookup(balances, key) {
        Some(b) => b as int,
        None => 0,
    }
}

/// The state with nothing applied.
pub open spec fn empty_ledger() -> LedgerView {
    LedgerView { balances: Seq::empty(), cache: Seq::empty(), height: 0 }
}

/// No address and no unspent output occurs twice.
pub open spec fn ledger_wf(s: LedgerView) -> bool {
    distinct_keys(s.balances) && distinct_keys(s.cache)
}

/// One output of transaction `tx_id` credited and cached.
pub open spec fn credit_output(s: LedgerView, tx_id: Seq<char>, u: UtxoView) -> Result<
    LedgerView,
    LedgerError,
> {
    let key = address_key(u.address);
    let sum = held(s.balances, key) + u.value;
    if u.value > i64::MAX {
        Err(LedgerError::ValueOutOfRange)
    } else if sum > i64::MAX {
        Err(LedgerError::BalanceOverflow)
    } else {
        Ok(
            LedgerView {
                balances: store(s.balances, key, sum as i64),
                cache: store(s.cache, IndexedTxidView { index: u.index, tx_id }, u),
                height: s.height,
            },
        )
    }
}

/// The outputs of one transaction credited in order.
pub open spec fn credit_outputs(s: LedgerView, tx_id: Seq<char>, outs: Seq<UtxoView>) -> Result<
    LedgerView,
    LedgerError,
>
    decreases outs.len(),
{
    if outs.len() == 0 {
        Ok(s)
    } else {
        match credit_output(s, tx_id, outs[0]) {
            Ok(next) => credit_outputs(next, tx_id, outs.drop_first()),
            Err(e) => Err(e),
        }
    }
}

/// The outputs of every transaction of a block credited, transaction by transaction.
pub open spec fn credit_all(s: LedgerView, txs: Seq<SumTxView>) -> Result<LedgerView, LedgerError>
    decreases txs.len(),
{
    if txs.len() == 0 {
        Ok(s)
    } else {
        match credit_outputs(s, txs[0].txid, txs[0].outs) {
            Ok(next) => credit_all(next, txs.drop_first()),
            Err(e) => Err(e),
        }
    }
}

/// One input resolved through the cache and debited from the address it spends from.
pub open spec fn debit_input(s: LedgerView, key: IndexedTxidView) -> Result<
    LedgerView,
    LedgerError,
> {
    match lookup(s.cache, key) {
        None => Err(LedgerError::UnresolvedInput),
        Some(u) => {
            let address = address_key(u.address);
            match lookup(s.balances, address) {
                None => Err(LedgerError::DebitUnderflow),
                Some(b) => if b < u.value {
                    Err(LedgerError::DebitUnderflow)
                } else {
                    Ok(
                        LedgerView {
                            balances: store(s.balances, address, (b - u.value) as i64),
                            cache: erase(s.cache, key),
                            height: s.height,
                        },
                    )
                },
            }
        },
    }
}

/// The inputs of one transaction debited in order.
pub open spec fn debit_inputs(s: LedgerView, ins: Seq<IndexedTxidView>) -> Result<
    LedgerView,
    LedgerError,
>
    decreases ins.len(),
{
    if ins.len() == 0 {
        Ok(s)
    } else {
        match debit_input(s, ins[0]) {
            Ok(next) => debit_inputs(next, ins.drop_first()),
            Err(e) => Err(e),
        }
    }
}

/// The inputs of every transaction of a block debited; a coinbase has none to debit.
pub open spec fn debit_all(s: LedgerView, txs: Seq<SumTxView>) -> Result<LedgerView, LedgerError>
    decreases txs.len(),
{
    if txs.len() == 0 {
        Ok(s)
    } else if txs[0].is_coinbase {
        debit_all(s, txs.drop_first())
    } else {
        match debit_inputs(s, txs[0].ins) {
            Ok(next) => debit_all(next, txs.drop_first()),
            Err(e) => Err(e),
        }
    }
}

/// The outputs that `ins` spend, resolved one after the other from `s`, as
/// far as they resolve.
pub open spec fn spent_by_inputs(s: LedgerView, ins: Seq<IndexedTxidView>) -> Seq<UtxoView>
    decreases ins.len(),
{
    if ins.len() == 0 {
        Seq::empty()
    } else {
        match debit_input(s, ins[0]) {
            Ok(next) => seq![lookup(s.cache, ins[0])->Some_0] + spent_by_inputs(
                next,
                ins.drop_first(),
            ),
            Err(_) => Seq::empty(),
        }
    }
}

/// The outputs that the inputs of a block spend, resolved from `s`, the
/// state in which the block's own outputs are already credited.
pub open spec fn spent_by_block(s: LedgerView, txs: Seq<SumTxView>) -> Seq<UtxoView>
    decreases txs.len(),
{
    if txs.len() == 0 {
        Seq::empty()
    } else if txs[0].is_coinbase {
        spent_by_block(s, txs.drop_first())
    } else {
        match debit_inputs(s, txs[0].ins) {
            Ok(next) => spent_by_inputs(s, txs[0].ins) + spent_by_block(next, txs.drop_first()),
            Err(_) => Seq::empty(),
        }
    }
}

/// A block applied: every output credited, then every input debited, then
/// the checkpoint set to the block's height. Only the block whose height is
/// one above the checkpoint can be applied.
pub open spec fn apply_block(s: LedgerView, height: u64, txs: Seq<SumTxView>) -> Result<
    LedgerView,
    LedgerError,
> {
    if height != s.height + 1 {
        Err(LedgerError::OutOfOrder)
    } else {
        apply_in_order(s, height, txs)
    }
}

/// The block above the checkpoint applied.
pub open spec fn apply_in_order(s: LedgerView, height: u64, txs: Seq<SumTxView>) -> Result<
    LedgerView,
    LedgerError,
> {
    match credit_all(s, txs) {
        Err(e) => Err(e),
        Ok(credited) => match debit_all(credited, txs) {
            Err(e) => Err(e),
            Ok(debited) => Ok(
                LedgerView { balances: debited.balances, cache: debited.cache, height },
            ),
        },
    }
}

/// The sums of an index as an association list.
pub open spec fn balance_views(v: Seq<(Vec<u8>, i64)>) -> Seq<(Seq<u8>, i64)> {
    Seq::new(v.len(), |i: int| (v[i].0@, v[i].1))
}

/// Whether two byte strings are equal.
pub fn bytes_eq(a: &Vec<u8>, b: &Vec<u8>) -> (r: bool)
    ensures
        r == (a@ == b@),
{
    if a.len() != b.len() {
        return false;
    }
    let mut i: usize = 0;
    while i < a.len()
        invariant
            i <= a.len(),
            a.len() == b.len(),
            forall|j: int| 0 <= j < i ==> a@[j] == b@[j],
        decreases a.len() - i,
    {
        if a[i] != b[i] {
            return false;
        }
        i += 1;
    }
    assert(a@ =~= b@);
    true
}

/// A copy of a byte string.
pub fn bytes_copy(a: &Vec<u8>) -> (r: Vec<u8>)
    ensures
        r@ == a@,
{
    let mut r: Vec<u8> = Vec::new();
    let mut i: usize = 0;
    while i < a.len()
        invariant
            i <= a.len(),
            r@ == a@.subrange(0, i as int),
        decreases a.len() - i,
    {
        r.push(a[i]);
        assert(r@ =~= a@.subrange(0, i + 1));
        i += 1;
    }
    assert(r@ =~= a@);
    r
}

/// The balance index with its resolution cache and checkpoint.
pub struct MerkleSumTree {
    balances: Vec<(Vec<u8>, i64)>,
    cache: TxCache,
    last_height: u64,
}

impl MerkleSumTree {
    /// The ledger's state.
    pub closed spec fn view(&self) -> LedgerView {
        LedgerView {
            balances: balance_views(self.balances@),
            cache: self.cache@,
            height: self.last_height,
        }
    }

    /// No address and no unspent output is held twice.
    pub open spec fn wf(&self) -> bool {
        ledger_wf(self@)
    }

    /// A ledger to which nothing has been applied.
    pub fn new() -> (r: MerkleSumTree)
        ensures
            r.wf(),
            r@ == empty_ledger(),
            backed(r@),
    {
        let r = MerkleSumTree { balances: Vec::new(), cache: TxCache::new(), last_height: 0 };
        assert(r@.balances =~= Seq::<(Seq<u8>, i64)>::empty());
        proof {
            lemma_empty_is_backed();
        }
        r
    }

    /// The ledger with these sums, unspent outputs and checkpoint, as they
    /// were read back from where they are kept; `None` where an address or
    /// an output occurs twice.
    pub fn restore(
        balances: Vec<(Vec<u8>, i64)>,
        unspent: Vec<(IndexedTxid, Utxo)>,
        height: u64,
    ) -> (r: Option<MerkleSumTree>)
        ensures
            match r {
                Some(t) => t.wf() && t@ == (LedgerView {
                    balances: balance_views(balances@),
                    cache: entry_views(unspent@),
                    height,
                }),
                None => !distinct_keys(balance_views(balances@)) || !distinct_keys(
                    entry_views(unspent@),
                ),
            },
    {
        let ghost all = balance_views(balances@);
        let mut i: usize = 0;
        while i < balances.len()
            invariant
                i <= balances.len(),
                all == balance_views(balances@),
                forall|a: int, b: int| 0 <= a < b < i ==> (#[trigger] all[a]).0 != (#[trigger] all[b]).0,
            decreases balances.len() - i,
        {
            let mut j: usize = 0;
            while j < i
                invariant
                    j <= i,
                    i < balances.len(),
                    all == balance_views(balances@),
                    forall|a: int| 0 <= a < j ==> (#[trigger] all[a]).0 != all[i as int].0,
                decreases i - j,
            {
                if bytes_eq(&balances[j].0, &balances[i].0) {
                    assert(all[j as int].0 == all[i as int].0);
                    return None;
                }
                j += 1;
            }
            i += 1;
        }
        match TxCache::from_entries(unspent) {
            Some(cache) => Some(MerkleSumTree { balances, cache, last_height: height }),
            None => None,
        }
    }

    /// The sum of every address, in the order in which the addresses were first credited.
    pub fn balances(&self) -> (r: Vec<(Vec<u8>, i64)>)
        ensures
            balance_views(r@) == self@.balances,
    {
        self.snapshot().balances
    }

    /// The unspent outputs with the references that will spend them.
    pub fn unspent(&self) -> (r: Vec<(IndexedTxid, Utxo)>)
        ensures
            entry_views(r@) == self@.cache,
    {
        self.cache.entries()
    }

    /// The height of the last block applied, 0 before the first.
    pub fn get_last_height(&self) -> (r: u64)
        ensures
            r == self@.height,
    {
        self.last_height
    }

    fn find_balance(&self, address: &Vec<u8>) -> (r: Option<usize>)
        requires
            self.wf(),
        ensures
            match r {
                Some(i) => has_key(self@.balances, address@) && i == index_of(
                    self@.balances,
                    address@,
                ) && i < self.balances@.len(),
                None => !has_key(self@.balances, address@),
            },
    {
        let mut i: usize = 0;
        while i < self.balances.len()
            invariant
                i <= self.balances.len(),
                self.wf(),
                forall|j: int| 0 <= j < i ==> (#[trigger] self@.balances[j]).0 != address@,
            decreases self.balances.len() - i,
        {
            if bytes_eq(&self.balances[i].0, address) {
                proof {
                    assert(self@.balances[i as int].0 == address@);
                    lemma_index_found(self@.balances, address@, i as int);
                }
                return Some(i);
            }
            i += 1;
        }
        None
    }

    /// What `address` holds, or `None` where it was never credited.
    pub fn balance_of(&self, address: &Vec<u8>) -> (r: Option<i64>)
        requires
            self.wf(),
        ensures
            r == lookup(self@.balances, address@),
    {
        match self.find_balance(address) {
            Some(i) => Some(self.balances[i].1),
            None => None,
        }
    }

    /// Whether the output that `key` names is unspent.
    pub fn is_unspent(&self, key: &IndexedTxid) -> (r: bool)
        requires
            self.wf(),
        ensures
            r == has_key(self@.cache, key@),
    {
        self.cache.contains(key)
    }

    fn insert_utxo(&mut self, tx_id: &String, utxo: &Utxo) -> (r: Result<(), LedgerError>)
        requires
            old(self).wf(),
        ensures
            final(self).wf(),
            match credit_output(old(self)@, tx_id@, utxo@) {
                Ok(s) => r is Ok && final(self)@ == s,
                Err(e) => r == Err::<(), LedgerError>(e) && final(self)@ == old(self)@,
            },
    {
        if utxo.value > i64::MAX as u64 {
            return Err(LedgerError::ValueOutOfRange);
        }
        let address = utxo.address.as_str().as_bytes_vec();
        let ghost before = self@;
        proof {
            lemma_store(before.balances, address@, (held(before.balances, address@) + utxo.value) as i64);
        }
        match self.find_balance(&address) {
            Some(i) => {
                let sum = self.balances[i].1;
                if sum > i64::MAX - (utxo.value as i64) {
                    return Err(LedgerError::BalanceOverflow);
                }
                self.balances.set(i, (address, sum + (utxo.value as i64)));
                assert(self@.balances =~= store(
                    before.balances,
                    address_key(utxo@.address),
                    (sum + utxo.value) as i64,
                ));
            },
            None => {
                self.balances.push((address, utxo.value as i64));
                assert(self@.balances =~= store(
                    before.balances,
                    address_key(utxo@.address),
                    utxo.value as i64,
                ));
            },
        }
        self.cache.put(utxo.key(tx_id), utxo.duplicate());
        Ok(())
    }

    fn process_outputs(&mut self, sum_tx: &SumTx) -> (r: Result<(), LedgerError>)
        requires
            old(self).wf(),
        ensures
            final(self).wf(),
            match credit_outputs(old(self)@, sum_tx@.txid, sum_tx@.outs) {
                Ok(s) => r is Ok && final(self)@ == s,
                Err(e) => r == Err::<(), LedgerError>(e),
            },
    {
        let ghost outs = sum_tx@.outs;
        let n = sum_tx.outs.len();
        let mut i: usize = 0;
        assert(outs.subrange(0, n as int) =~= outs);
        while i < n
            invariant
                i <= n,
                n == sum_tx.outs@.len(),
                outs == sum_tx@.outs,
                self.wf(),
                credit_outputs(self@, sum_tx@.txid, outs.subrange(i as int, n as int))
                    == credit_outputs(old(self)@, sum_tx@.txid, outs),
            decreases n - i,
        {
            proof {
                let rest = outs.subrange(i as int, n as int);
                assert(rest[0] == sum_tx.outs@[i as int]@);
                assert(rest.drop_first() =~= outs.subrange(i + 1, n as int));
            }
            match self.insert_utxo(&sum_tx.txid, &sum_tx.outs[i]) {
                Ok(()) => {},
                Err(e) => {
                    return Err(e);
                },
            }
            i += 1;
        }
        Ok(())
    }

    fn resolve_input(&mut self, key: &IndexedTxid) -> (r: Result<Utxo, LedgerError>)
        requires
            old(self).wf(),
        ensures
            final(self).wf(),
            match debit_input(old(self)@, key@) {
                Ok(s) => r is Ok && final(self)@ == s && lookup(old(self)@.cache, key@) == Some(
                    r->Ok_0@,
                ),
                Err(e) => r == Err::<Utxo, LedgerError>(e),
            },
    {
        let ghost before = self@;
        let utxo = match self.cache.take(key) {
            Ok(u) => u,
            Err(e) => {
                return Err(e);
            },
        };
        let address = utxo.address.as_str().as_bytes_vec();
        match self.find_balance(&address) {
            Some(i) => {
                let sum = self.balances[i].1;
                if sum < 0 || (sum as u64) < utxo.value {
                    return Err(LedgerError::DebitUnderflow);
                }
                proof {
                    lemma_store(before.balances, address@, (sum - utxo.value) as i64);
                }
                let debited = sum - (utxo.value as i64);
                self.balances.set(i, (address, debited));
                assert(self@.balances =~= store(
                    before.balances,
                    address_key(utxo@.address),
                    (sum - utxo.value) as i64,
                ));
                Ok(utxo)
            },
            None => Err(LedgerError::DebitUnderflow),
        }
    }

    fn process_inputs(&mut self, sum_tx: &SumTx, spent: &mut Vec<Utxo>) -> (r: Result<
        (),
        LedgerError,
    >)
        requires
            old(self).wf(),
        ensures
            final(self).wf(),
            match debit_inputs(old(self)@, sum_tx@.ins) {
                Ok(s) => r is Ok && final(self)@ == s && utxo_views(final(spent)@) == utxo_views(
                    old(spent)@,
                ) + spent_by_inputs(old(self)@, sum_tx@.ins),
                Err(e) => r == Err::<(), LedgerError>(e),
            },
    {
        let ghost ins = sum_tx@.ins;
        let n = sum_tx.ins.len();
        let mut i: usize = 0;
        assert(ins.subrange(0, n as int) =~= ins);
        while i < n
            invariant
                i <= n,
                n == sum_tx.ins@.len(),
                ins == sum_tx@.ins,
                self.wf(),
                debit_inputs(self@, ins.subrange(i as int, n as int)) == debit_inputs(
                    old(self)@,
                    ins,
                ),
                debit_inputs(old(self)@, ins) is Ok ==> utxo_views(spent@) + spent_by_inputs(
                    self@,
                    ins.subrange(i as int, n as int),
                ) == utxo_views(old(spent)@) + spent_by_inputs(old(self)@, ins),
            decreases n - i,
        {
            let ghost rest = ins.subrange(i as int, n as int);
            let ghost seen = utxo_views(spent@);
            let ghost state = self@;
            proof {
                assert(rest[0] == sum_tx.ins@[i as int]@);
                assert(rest.drop_first() =~= ins.subrange(i + 1, n as int));
            }
            match self.resolve_input(&sum_tx.ins[i]) {
                Ok(u) => {
                    spent.push(u);
                    proof {
                        assert(utxo_views(spent@) =~= seen.push(u@));
                        assert(seen.push(u@) + spent_by_inputs(self@, rest.drop_first()) =~= seen
                            + spent_by_inputs(state, rest));
                    }
                },
                Err(e) => {
                    return Err(e);
                },
            }
            i += 1;
        }
        proof {
            assert(utxo_views(spent@) + Seq::<UtxoView>::empty() =~= utxo_views(spent@));
        }
        Ok(())
    }

    fn store_block_height(&mut self, height: u64)
        ensures
            final(self)@ == (LedgerView {
                balances: old(self)@.balances,
                cache: old(self)@.cache,
                height,
            }),
    {
        self.last_height = height;
    }

    /// Every address of the index with its sum, richest first; among equal
    /// sums the smaller address comes first.
    pub fn top_richest_address(&self) -> (r: Vec<(Vec<u8>, i64)>)
        ensures
            r@.len() == self@.balances.len(),
            balance_views(r@).to_multiset() == self@.balances.to_multiset(),
            ranked(balance_views(r@)),
    {
        rank_entries(&self.balances)
    }

    fn snapshot(&self) -> (r: MerkleSumTree)
        ensures
            r@ == self@,
    {
        let mut balances: Vec<(Vec<u8>, i64)> = Vec::new();
        let mut i: usize = 0;
        while i < self.balances.len()
            invariant
                i <= self.balances.len(),
                balances@.len() == i,
                forall|j: int|
                    0 <= j < i ==> (#[trigger] balances@[j]).0@ == self.balances@[j].0@
                        && balances@[j].1 == self.balances@[j].1,
            decreases self.balances.len() - i,
        {
            balances.push((bytes_copy(&self.balances[i].0), self.balances[i].1));
            i += 1;
        }
        let r = MerkleSumTree {
            balances,
            cache: self.cache.duplicate(),
            last_height: self.last_height,
        };
        assert(r@.balances =~= self@.balances);
        r
    }

    /// Applies the block at `height`, which must be the one above the
    /// checkpoint. Either every credit, every debit and the new checkpoint
    /// take effect, or the ledger is left as it was. Returns the outputs
    /// that the block's inputs spent, in the order of the inputs. A ledger
    /// in which every unspent output is backed stays so, and refuses no
    /// block for a debit beyond the balance.
    pub fn update_balances(&mut self, height: u64, txs: Vec<SumTx>) -> (r: Result<
        Vec<Utxo>,
        LedgerError,
    >)
        requires
            old(self).wf(),
        ensures
            final(self).wf(),
            match apply_block(old(self)@, height, tx_views(txs@)) {
                Ok(s) => r is Ok && final(self)@ == s && utxo_views(r->Ok_0@) == spent_by_block(
                    credit_all(old(self)@, tx_views(txs@))->Ok_0,
                    tx_views(txs@),
                ),
                Err(e) => r == Err::<Vec<Utxo>, LedgerError>(e) && final(self)@ == old(self)@,
            },
            backed(old(self)@) ==> backed(final(self)@) && r != Err::<Vec<Utxo>, LedgerError>(
                LedgerError::DebitUnderflow,
            ),
    {
        if self.last_height == u64::MAX || height != self.last_height + 1 {
            return Err(LedgerError::OutOfOrder);
        }
        let ghost block = tx_views(txs@);
        proof {
            if backed(self@) {
                lemma_block_keeps_backed(self@, height, block);
            }
        }
        let n = txs.len();
        let mut work = self.snapshot();
        let mut i: usize = 0;
        assert(block.subrange(0, n as int) =~= block);
        while i < n
            invariant
                i <= n,
                n == txs@.len(),
                block == tx_views(txs@),
                *self == *old(self),
                height == old(self)@.height + 1,
                backed(old(self)@) ==> match apply_block(old(self)@, height, block) {
                    Ok(next) => backed(next),
                    Err(e) => e != LedgerError::DebitUnderflow,
                },
                self.wf(),
                work.wf(),
                credit_all(work@, block.subrange(i as int, n as int)) == credit_all(
                    old(self)@,
                    block,
                ),
            decreases n - i,
        {
            proof {
                let rest = block.subrange(i as int, n as int);
                assert(rest[0] == txs@[i as int]@);
                assert(rest.drop_first() =~= block.subrange(i + 1, n as int));
            }
            match work.process_outputs(&txs[i]) {
                Ok(()) => {},
                Err(e) => {
                    return Err(e);
                },
            }
            i += 1;
        }
        let ghost credited = work@;
        let mut spent: Vec<Utxo> = Vec::new();
        i = 0;
        assert(utxo_views(spent@) + spent_by_block(credited, block) =~= spent_by_block(
            credited,
            block,
        ));
        while i < n
            invariant
                i <= n,
                n == txs@.len(),
                block == tx_views(txs@),
                *self == *old(self),
                height == old(self)@.height + 1,
                backed(old(self)@) ==> match apply_block(old(self)@, height, block) {
                    Ok(next) => backed(next),
                    Err(e) => e != LedgerError::DebitUnderflow,
                },
                self.wf(),
                work.wf(),
                credit_all(old(self)@, block) == Ok::<LedgerView, LedgerError>(credited),
                debit_all(work@, block.subrange(i as int, n as int)) == debit_all(
                    credited,
                    block,
                ),
                debit_all(credited, block) is Ok ==> utxo_views(spent@) + spent_by_block(
                    work@,
                    block.subrange(i as int, n as int),
                ) == spent_by_block(credited, block),
            decreases n - i,
        {
            let ghost rest = block.subrange(i as int, n as int);
            let ghost seen = utxo_views(spent@);
            let ghost state = work@;
            proof {
                assert(rest[0] == txs@[i as int]@);
                assert(rest.drop_first() =~= block.subrange(i + 1, n as int));
            }
            if !txs[i].is_coinbase {
                match work.process_inputs(&txs[i], &mut spent) {
                    Ok(()) => {
                        proof {
                            assert((seen + spent_by_inputs(state, rest[0].ins)) + spent_by_block(
                                work@,
                                rest.drop_first(),
                            ) =~= seen + spent_by_block(state, rest));
                        }
                    },
                    Err(e) => {
                        return Err(e);
                    },
                }
            }
            i += 1;
        }
        proof {
            assert(utxo_views(spent@) + Seq::<UtxoView>::empty() =~= utxo_views(spent@));
        }
        work.store_block_height(height);
        *self = work;
        Ok(spent)
    }
}

} // verus!
