//! Why a ledger that grew from nothing never debits more than an address
//! holds: every unspent output is backed by the sum of the address it pays.
use vstd::prelude::*;
use crate::assoc::{has_key, index_of, lemma_erase, lemma_store, lookup};
use crate::ledger::{LedgerError, LedgerView, address_key, apply_block, credit_all, credit_output, credit_outputs, debit_all, debit_input, debit_inputs, empty_ledger, held, ledger_wf};
use crate::laws::apply_chain;
use crate::model::{IndexedTxidView, SumTxView, UtxoView};

verus! {

/// What the output `u` pays to the address with key `a`.
pub open spec fn paid_to(a: Seq<u8>, u: UtxoView) -> int {
    if address_key(u.address) == a {
        u.value as int
    } else {
        0
    }
}

/// The value of the unspent outputs that pay the address with key `a`.
pub open spec fn cached_for(a: Seq<u8>, cache: Seq<(IndexedTxidView, UtxoView)>) -> int
    decreases cache.len(),
{
    if cache.len() == 0 {
        0
    } else {
        cached_for(a, cache.drop_last()) + paid_to(a, cache.last().1)
    }
}

/// Every unspent output pays an address of the index, and every address
/// holds at least the value of the unspent outputs that pay it.
pub open spec fn backed(s: LedgerView) -> bool {
    &&& forall|i: int|
        0 <= i < s.cache.len() ==> has_key(
            s.balances,
            address_key((#[trigger] s.cache[i]).1.address),
        )
    &&& forall|a: Seq<u8>| held(s.balances, a) >= #[trigger] cached_for(a, s.cache)
}

proof fn lemma_cached_update(
    a: Seq<u8>,
    cache: Seq<(IndexedTxidView, UtxoView)>,
    i: int,
    e: (IndexedTxidView, UtxoView),
)
    requires
        0 <= i < cache.len(),
    ensures
        cached_for(a, cache.update(i, e)) == cached_for(a, cache) - paid_to(a, cache[i].1)
            + paid_to(a, e.1),
    decreases cache.len(),
{
    if i == cache.len() - 1 {
        assert(cache.update(i, e).drop_last() =~= cache.drop_last());
    } else {
        assert(cache.update(i, e).drop_last() =~= cache.drop_last().update(i, e));
        lemma_cached_update(a, cache.drop_last(), i, e);
    }
}

proof fn lemma_cached_remove(a: Seq<u8>, cache: Seq<(IndexedTxidView, UtxoView)>, i: int)
    requires
        0 <= i < cache.len(),
    ensures
        cached_for(a, cache.remove(i)) == cached_for(a, cache) - paid_to(a, cache[i].1),
    decreases cache.len(),
{
    if i == cache.len() - 1 {
        assert(cache.remove(i) =~= cache.drop_last());
    } else {
        assert(cache.remove(i).drop_last() =~= cache.drop_last().remove(i));
        assert(cache.remove(i).last() == cache.last());
        lemma_cached_remove(a, cache.drop_last(), i);
    }
}

proof fn lemma_cached_nonnegative(a: Seq<u8>, cache: Seq<(IndexedTxidView, UtxoView)>)
    ensures
        cached_for(a, cache) >= 0,
    decreases cache.len(),
{
    if cache.len() > 0 {
        lemma_cached_nonnegative(a, cache.drop_last());
    }
}

proof fn lemma_cached_covers(a: Seq<u8>, cache: Seq<(IndexedTxidView, UtxoView)>, i: int)
    requires
        0 <= i < cache.len(),
    ensures
        cached_for(a, cache) >= paid_to(a, cache[i].1) >= 0,
    decreases cache.len(),
{
    if i == cache.len() - 1 {
        lemma_cached_nonnegative(a, cache.drop_last());
    } else {
        assert(cache.drop_last()[i] == cache[i]);
        lemma_cached_covers(a, cache.drop_last(), i);
    }
}

/// A credit keeps every unspent output backed.
pub proof fn lemma_credit_keeps_backed(s: LedgerView, tx_id: Seq<char>, u: UtxoView)
    requires
        ledger_wf(s),
        backed(s),
        credit_output(s, tx_id, u) is Ok,
    ensures
        ledger_wf(credit_output(s, tx_id, u)->Ok_0),
        backed(credit_output(s, tx_id, u)->Ok_0),
{
    let next = credit_output(s, tx_id, u)->Ok_0;
    let key = address_key(u.address);
    let k = IndexedTxidView { index: u.index, tx_id };
    lemma_store(s.balances, key, (held(s.balances, key) + u.value) as i64);
    lemma_store(s.cache, k, u);
    assert forall|x: Seq<u8>| has_key(s.balances, x) implies has_key(next.balances, x) by {
        if x != key {
            assert(lookup(next.balances, x) == lookup(s.balances, x));
        }
    }
    assert forall|a: Seq<u8>| held(next.balances, a) >= #[trigger] cached_for(a, next.cache) by {
        assert(held(s.balances, a) >= cached_for(a, s.cache));
        if a != key {
            assert(lookup(next.balances, a) == lookup(s.balances, a));
        }
        if has_key(s.cache, k) {
            let i = index_of(s.cache, k);
            lemma_cached_update(a, s.cache, i, (k, u));
            lemma_cached_covers(a, s.cache, i);
        } else {
            assert(s.cache.push((k, u)).drop_last() =~= s.cache);
        }
    }
    assert forall|i: int| 0 <= i < next.cache.len() implies has_key(
        next.balances,
        address_key((#[trigger] next.cache[i]).1.address),
    ) by {
        if has_key(s.cache, k) && i != index_of(s.cache, k) {
            assert(next.cache[i] == s.cache[i]);
        } else if !has_key(s.cache, k) && i < s.cache.len() {
            assert(next.cache[i] == s.cache[i]);
        } else {
            assert(next.cache[i].1 == u);
        }
    }
}

/// In a backed ledger an input that resolves is debited: the address holds
/// what the output is worth. The debit keeps every unspent output backed.
pub proof fn lemma_debit_is_covered(s: LedgerView, k: IndexedTxidView)
    requires
        ledger_wf(s),
        backed(s),
        has_key(s.cache, k),
    ensures
        debit_input(s, k) is Ok,
        ledger_wf(debit_input(s, k)->Ok_0),
        backed(debit_input(s, k)->Ok_0),
{
    let i = index_of(s.cache, k);
    let u = s.cache[i].1;
    let key = address_key(u.address);
    assert(has_key(s.balances, address_key(s.cache[i].1.address)));
    assert(held(s.balances, key) >= cached_for(key, s.cache));
    lemma_cached_covers(key, s.cache, i);
    let next = debit_input(s, k)->Ok_0;
    lemma_store(s.balances, key, (held(s.balances, key) - u.value) as i64);
    lemma_erase(s.cache, k);
    assert forall|x: Seq<u8>| has_key(s.balances, x) implies has_key(next.balances, x) by {
        if x != key {
            assert(lookup(next.balances, x) == lookup(s.balances, x));
        }
    }
    assert forall|a: Seq<u8>| held(next.balances, a) >= #[trigger] cached_for(a, next.cache) by {
        assert(held(s.balances, a) >= cached_for(a, s.cache));
        if a != key {
            assert(lookup(next.balances, a) == lookup(s.balances, a));
        }
        lemma_cached_remove(a, s.cache, i);
    }
    assert forall|j: int| 0 <= j < next.cache.len() implies has_key(
        next.balances,
        address_key((#[trigger] next.cache[j]).1.address),
    ) by {
        let sj = if j < i { j } else { j + 1 };
        assert(next.cache[j] == s.cache[sj]);
        assert(has_key(s.balances, address_key(s.cache[sj].1.address)));
    }
}

/// Cache discipline: an output that was credited is resolved by the input
/// that spends it, for the output's own address and value, and by no
/// second input after that.
pub proof fn lemma_credited_output_spent_once(s: LedgerView, tx_id: Seq<char>, u: UtxoView)
    requires
        ledger_wf(s),
        backed(s),
        credit_output(s, tx_id, u) is Ok,
    ensures
        ({
            let credited = credit_output(s, tx_id, u)->Ok_0;
            let k = IndexedTxidView { index: u.index, tx_id };
            &&& lookup(credited.cache, k) == Some(u)
            &&& debit_input(credited, k) is Ok
            &&& debit_input(debit_input(credited, k)->Ok_0, k) == Err::<LedgerView, LedgerError>(
                LedgerError::UnresolvedInput,
            )
        }),
{
    let credited = credit_output(s, tx_id, u)->Ok_0;
    let k = IndexedTxidView { index: u.index, tx_id };
    lemma_store(s.cache, k, u);
    lemma_credit_keeps_backed(s, tx_id, u);
    lemma_debit_is_covered(credited, k);
    lemma_erase(credited.cache, k);
}

proof fn lemma_credit_outputs_backed(s: LedgerView, tx_id: Seq<char>, outs: Seq<UtxoView>)
    requires
        ledger_wf(s),
        backed(s),
        credit_outputs(s, tx_id, outs) is Ok,
    ensures
        ledger_wf(credit_outputs(s, tx_id, outs)->Ok_0),
        backed(credit_outputs(s, tx_id, outs)->Ok_0),
    decreases outs.len(),
{
    if outs.len() > 0 {
        lemma_credit_keeps_backed(s, tx_id, outs[0]);
        lemma_credit_outputs_backed(
            credit_output(s, tx_id, outs[0])->Ok_0,
            tx_id,
            outs.drop_first(),
        );
    }
}

proof fn lemma_credit_all_backed(s: LedgerView, txs: Seq<SumTxView>)
    requires
        ledger_wf(s),
        backed(s),
        credit_all(s, txs) is Ok,
    ensures
        ledger_wf(credit_all(s, txs)->Ok_0),
        backed(credit_all(s, txs)->Ok_0),
    decreases txs.len(),
{
    if txs.len() > 0 {
        lemma_credit_outputs_backed(s, txs[0].txid, txs[0].outs);
        lemma_credit_all_backed(
            credit_outputs(s, txs[0].txid, txs[0].outs)->Ok_0,
            txs.drop_first(),
        );
    }
}

proof fn lemma_debit_inputs_backed(s: LedgerView, ins: Seq<IndexedTxidView>)
    requires
        ledger_wf(s),
        backed(s),
    ensures
        match debit_inputs(s, ins) {
            Ok(next) => ledger_wf(next) && backed(next),
            Err(e) => e == LedgerError::UnresolvedInput,
        },
    decreases ins.len(),
{
    if ins.len() > 0 {
        if has_key(s.cache, ins[0]) {
            lemma_debit_is_covered(s, ins[0]);
            lemma_debit_inputs_backed(debit_input(s, ins[0])->Ok_0, ins.drop_first());
        }
    }
}

proof fn lemma_debit_all_backed(s: LedgerView, txs: Seq<SumTxView>)
    requires
        ledger_wf(s),
        backed(s),
    ensures
        match debit_all(s, txs) {
            Ok(next) => ledger_wf(next) && backed(next),
            Err(e) => e == LedgerError::UnresolvedInput,
        },
    decreases txs.len(),
{
    if txs.len() > 0 {
        if txs[0].is_coinbase {
            lemma_debit_all_backed(s, txs.drop_first());
        } else {
            lemma_debit_inputs_backed(s, txs[0].ins);
            match debit_inputs(s, txs[0].ins) {
                Ok(next) => {
                    lemma_debit_all_backed(next, txs.drop_first());
                },
                Err(_) => {},
            }
        }
    }
}

/// The ledger with nothing applied is backed.
pub proof fn lemma_empty_is_backed()
    ensures
        ledger_wf(empty_ledger()),
        backed(empty_ledger()),
{
    assert forall|a: Seq<u8>| held(empty_ledger().balances, a) >= #[trigger] cached_for(
        a,
        empty_ledger().cache,
    ) by {
        if has_key(empty_ledger().balances, a) {
            let i = index_of(empty_ledger().balances, a);
            assert(0 <= i < 0);
        }
    }
}

/// Unspent-output accounting never spends more than was credited: a block
/// applied to a backed ledger leaves it backed, and a block that it
/// refuses is never refused for a debit beyond the balance.
pub proof fn lemma_block_keeps_backed(s: LedgerView, height: u64, txs: Seq<SumTxView>)
    requires
        ledger_wf(s),
        backed(s),
    ensures
        match apply_block(s, height, txs) {
            Ok(next) => ledger_wf(next) && backed(next),
            Err(e) => e != LedgerError::DebitUnderflow,
        },
{
    if height == s.height + 1 {
        match credit_all(s, txs) {
            Ok(credited) => {
                lemma_credit_all_backed(s, txs);
                lemma_debit_all_backed(credited, txs);
            },
            Err(_) => {
                lemma_credit_all_never_debits(s, txs);
            },
        }
    }
}

/// A ledger that grew from nothing by applying blocks is backed, and no
/// chain of blocks is refused by it for a debit beyond the balance.
pub proof fn lemma_chain_keeps_backed(s: LedgerView, chain: Seq<(u64, Seq<SumTxView>)>)
    requires
        ledger_wf(s),
        backed(s),
    ensures
        match apply_chain(s, chain) {
            Ok(next) => ledger_wf(next) && backed(next),
            Err(e) => e != LedgerError::DebitUnderflow,
        },
    decreases chain.len(),
{
    if chain.len() > 0 {
        lemma_block_keeps_backed(s, chain[0].0, chain[0].1);
        match apply_block(s, chain[0].0, chain[0].1) {
            Ok(next) => {
                lemma_chain_keeps_backed(next, chain.drop_first());
            },
            Err(_) => {},
        }
    }
}

proof fn lemma_credit_all_never_debits(s: LedgerView, txs: Seq<SumTxView>)
    ensures
        credit_all(s, txs) is Err ==> credit_all(s, txs)->Err_0 != LedgerError::DebitUnderflow,
    decreases txs.len(),
{
    if txs.len() > 0 {
        lemma_credit_outputs_never_debit(s, txs[0].txid, txs[0].outs);
        match credit_outputs(s, txs[0].txid, txs[0].outs) {
            Ok(next) => {
                lemma_credit_all_never_debits(next, txs.drop_first());
            },
            Err(_) => {},
        }
    }
}

proof fn lemma_credit_outputs_never_debit(s: LedgerView, tx_id: Seq<char>, outs: Seq<UtxoView>)
    ensures
        credit_outputs(s, tx_id, outs) is Err ==> credit_outputs(s, tx_id, outs)->Err_0
            != LedgerError::DebitUnderflow,
    decreases outs.len(),
{
    if outs.len() > 0 {
        match credit_output(s, tx_id, outs[0]) {
            Ok(next) => {
                lemma_credit_outputs_never_debit(next, tx_id, outs.drop_first());
            },
            Err(_) => {},
        }
    }
}

} // verus!
