//! What holds of every ledger, whatever blocks it is given.
use vstd::prelude::*;
use crate::assoc::{distinct_keys, has_key, index_of, lemma_erase, lemma_store, lookup, store};
use crate::ledger::{LedgerError, LedgerView, address_key, apply_block, credit_all, credit_output, credit_outputs, debit_all, debit_input, debit_inputs, empty_ledger, held, ledger_wf, spent_by_block, spent_by_inputs};
use crate::pipeline::pending_range;
use crate::model::{IndexedTxidView, SumTxView, UtxoView};

verus! {

/// The sum of all balances of an index.
pub open spec fn total(balances: Seq<(Seq<u8>, i64)>) -> int
    decreases balances.len(),
{
    if balances.len() == 0 {
        0
    } else {
        total(balances.drop_last()) + balances.last().1
    }
}

/// The value of a transaction's outputs.
pub open spec fn outputs_value(outs: Seq<UtxoView>) -> int
    decreases outs.len(),
{
    if outs.len() == 0 {
        0
    } else {
        outs[0].value + outputs_value(outs.drop_first())
    }
}

/// The value of all outputs of a block.
pub open spec fn block_outputs_value(txs: Seq<SumTxView>) -> int
    decreases txs.len(),
{
    if txs.len() == 0 {
        0
    } else {
        outputs_value(txs[0].outs) + block_outputs_value(txs.drop_first())
    }
}

/// The value of the outputs that `ins` spend, resolved one after the other from `s`.
pub open spec fn inputs_value(s: LedgerView, ins: Seq<IndexedTxidView>) -> int
    decreases ins.len(),
{
    if ins.len() == 0 {
        0
    } else {
        match debit_input(s, ins[0]) {
            Ok(next) => lookup(s.cache, ins[0])->Some_0.value + inputs_value(
                next,
                ins.drop_first(),
            ),
            Err(_) => 0,
        }
    }
}

/// The value of the outputs that a block's inputs spend, resolved from `s`,
/// the state in which the block's own outputs are already credited.
pub open spec fn block_inputs_value(s: LedgerView, txs: Seq<SumTxView>) -> int
    decreases txs.len(),
{
    if txs.len() == 0 {
        0
    } else if txs[0].is_coinbase {
        block_inputs_value(s, txs.drop_first())
    } else {
        match debit_inputs(s, txs[0].ins) {
            Ok(next) => inputs_value(s, txs[0].ins) + block_inputs_value(next, txs.drop_first()),
            Err(_) => 0,
        }
    }
}

/// Blocks applied one after the other, each with its height.
pub open spec fn apply_chain(s: LedgerView, chain: Seq<(u64, Seq<SumTxView>)>) -> Result<
    LedgerView,
    LedgerError,
>
    decreases chain.len(),
{
    if chain.len() == 0 {
        Ok(s)
    } else {
        match apply_block(s, chain[0].0, chain[0].1) {
            Ok(next) => apply_chain(next, chain.drop_first()),
            Err(e) => Err(e),
        }
    }
}

/// The value of all outputs of a chain of blocks.
pub open spec fn chain_outputs_value(chain: Seq<(u64, Seq<SumTxView>)>) -> int
    decreases chain.len(),
{
    if chain.len() == 0 {
        0
    } else {
        block_outputs_value(chain[0].1) + chain_outputs_value(chain.drop_first())
    }
}

/// The value of all outputs that the inputs of a chain of blocks spend.
pub open spec fn chain_inputs_value(s: LedgerView, chain: Seq<(u64, Seq<SumTxView>)>) -> int
    decreases chain.len(),
{
    if chain.len() == 0 {
        0
    } else {
        match (credit_all(s, chain[0].1), apply_block(s, chain[0].0, chain[0].1)) {
            (Ok(credited), Ok(next)) => block_inputs_value(credited, chain[0].1)
                + chain_inputs_value(next, chain.drop_first()),
            _ => 0,
        }
    }
}

proof fn lemma_total_update(b: Seq<(Seq<u8>, i64)>, i: int, e: (Seq<u8>, i64))
    requires
        0 <= i < b.len(),
    ensures
        total(b.update(i, e)) == total(b) - b[i].1 + e.1,
    decreases b.len(),
{
    if i == b.len() - 1 {
        assert(b.update(i, e).drop_last() =~= b.drop_last());
    } else {
        assert(b.update(i, e).drop_last() =~= b.drop_last().update(i, e));
        lemma_total_update(b.drop_last(), i, e);
    }
}

/// Storing a sum changes the total by the difference to what the address held.
pub proof fn lemma_total_store(b: Seq<(Seq<u8>, i64)>, key: Seq<u8>, sum: i64)
    ensures
        total(store(b, key, sum)) == total(b) - held(b, key) + sum,
{
    if has_key(b, key) {
        lemma_total_update(b, index_of(b, key), (key, sum));
    } else {
        assert(b.push((key, sum)).drop_last() =~= b);
    }
}

proof fn lemma_credit_outputs_total(s: LedgerView, tx_id: Seq<char>, outs: Seq<UtxoView>)
    requires
        credit_outputs(s, tx_id, outs) is Ok,
    ensures
        total(credit_outputs(s, tx_id, outs)->Ok_0.balances) == total(s.balances) + outputs_value(
            outs,
        ),
    decreases outs.len(),
{
    if outs.len() > 0 {
        let next = credit_output(s, tx_id, outs[0])->Ok_0;
        let key = address_key(outs[0].address);
        lemma_total_store(s.balances, key, (held(s.balances, key) + outs[0].value) as i64);
        lemma_credit_outputs_total(next, tx_id, outs.drop_first());
    }
}

proof fn lemma_credit_all_total(s: LedgerView, txs: Seq<SumTxView>)
    requires
        credit_all(s, txs) is Ok,
    ensures
        total(credit_all(s, txs)->Ok_0.balances) == total(s.balances) + block_outputs_value(txs),
    decreases txs.len(),
{
    if txs.len() > 0 {
        let next = credit_outputs(s, txs[0].txid, txs[0].outs)->Ok_0;
        lemma_credit_outputs_total(s, txs[0].txid, txs[0].outs);
        lemma_credit_all_total(next, txs.drop_first());
    }
}

proof fn lemma_debit_inputs_total(s: LedgerView, ins: Seq<IndexedTxidView>)
    requires
        debit_inputs(s, ins) is Ok,
    ensures
        total(debit_inputs(s, ins)->Ok_0.balances) == total(s.balances) - inputs_value(s, ins),
    decreases ins.len(),
{
    if ins.len() > 0 {
        let next = debit_input(s, ins[0])->Ok_0;
        let u = lookup(s.cache, ins[0])->Some_0;
        let key = address_key(u.address);
        lemma_total_store(s.balances, key, (held(s.balances, key) - u.value) as i64);
        lemma_debit_inputs_total(next, ins.drop_first());
    }
}

proof fn lemma_debit_all_total(s: LedgerView, txs: Seq<SumTxView>)
    requires
        debit_all(s, txs) is Ok,
    ensures
        total(debit_all(s, txs)->Ok_0.balances) == total(s.balances) - block_inputs_value(s, txs),
    decreases txs.len(),
{
    if txs.len() > 0 {
        if txs[0].is_coinbase {
            lemma_debit_all_total(s, txs.drop_first());
        } else {
            let next = debit_inputs(s, txs[0].ins)->Ok_0;
            lemma_debit_inputs_total(s, txs[0].ins);
            lemma_debit_all_total(next, txs.drop_first());
        }
    }
}

/// Conservation for one block: the balances grow by the value of the
/// outputs credited less the value of the outputs that its inputs spent.
pub proof fn lemma_block_conserves(s: LedgerView, height: u64, txs: Seq<SumTxView>)
    requires
        apply_block(s, height, txs) is Ok,
    ensures
        total(apply_block(s, height, txs)->Ok_0.balances) == total(s.balances)
            + block_outputs_value(txs) - block_inputs_value(credit_all(s, txs)->Ok_0, txs),
{
    lemma_credit_all_total(s, txs);
    lemma_debit_all_total(credit_all(s, txs)->Ok_0, txs);
}

/// Conservation: after any chain of blocks that was applied, the sum of
/// all balances is what it was, plus every output value credited, less
/// every input value debited.
pub proof fn lemma_chain_conserves(s: LedgerView, chain: Seq<(u64, Seq<SumTxView>)>)
    requires
        apply_chain(s, chain) is Ok,
    ensures
        total(apply_chain(s, chain)->Ok_0.balances) == total(s.balances) + chain_outputs_value(
            chain,
        ) - chain_inputs_value(s, chain),
    decreases chain.len(),
{
    if chain.len() > 0 {
        lemma_block_conserves(s, chain[0].0, chain[0].1);
        lemma_chain_conserves(apply_block(s, chain[0].0, chain[0].1)->Ok_0, chain.drop_first());
    }
}

/// A ledger that starts empty holds, after any chain of blocks, exactly
/// what was credited and not debited since.
pub proof fn lemma_conservation_from_empty(chain: Seq<(u64, Seq<SumTxView>)>)
    requires
        apply_chain(empty_ledger(), chain) is Ok,
    ensures
        total(apply_chain(empty_ledger(), chain)->Ok_0.balances)
            == chain_outputs_value(chain) - chain_inputs_value(
            empty_ledger(),
            chain,
        ),
{
    lemma_chain_conserves(empty_ledger(), chain);
}

/// Resumption: to apply a chain in one run is to apply its first part,
/// stop, and apply the rest to the state that the first part left.
pub proof fn lemma_chain_split(
    s: LedgerView,
    first: Seq<(u64, Seq<SumTxView>)>,
    rest: Seq<(u64, Seq<SumTxView>)>,
)
    ensures
        apply_chain(s, first + rest) == match apply_chain(s, first) {
            Ok(mid) => apply_chain(mid, rest),
            Err(e) => Err(e),
        },
    decreases first.len(),
{
    if first.len() == 0 {
        assert(first + rest =~= rest);
    } else {
        let all = first + rest;
        assert(all[0] == first[0]);
        assert(all.drop_first() =~= first.drop_first() + rest);
        match apply_block(s, first[0].0, first[0].1) {
            Ok(next) => {
                lemma_chain_split(next, first.drop_first(), rest);
            },
            Err(_) => {},
        }
    }
}

/// After a chain that was applied, the checkpoint is the height of its last block.
pub proof fn lemma_chain_checkpoint(s: LedgerView, chain: Seq<(u64, Seq<SumTxView>)>)
    requires
        chain.len() > 0,
        apply_chain(s, chain) is Ok,
    ensures
        apply_chain(s, chain)->Ok_0.height == chain.last().0,
    decreases chain.len(),
{
    let next = apply_block(s, chain[0].0, chain[0].1)->Ok_0;
    if chain.len() == 1 {
        assert(chain.drop_first().len() == 0);
    } else {
        assert(chain.drop_first().last() == chain.last());
        lemma_chain_checkpoint(next, chain.drop_first());
    }
}

/// Blocks are applied in height order without a gap: the heights of a
/// chain that was applied count up from the one above the checkpoint.
pub proof fn lemma_chain_is_contiguous(s: LedgerView, chain: Seq<(u64, Seq<SumTxView>)>, i: int)
    requires
        apply_chain(s, chain) is Ok,
        0 <= i < chain.len(),
    ensures
        chain[i].0 == s.height + 1 + i,
    decreases chain.len(),
{
    if i > 0 {
        let next = apply_block(s, chain[0].0, chain[0].1)->Ok_0;
        assert(chain.drop_first()[i - 1] == chain[i]);
        lemma_chain_is_contiguous(next, chain.drop_first(), i - 1);
    }
}

/// A block is applied once: after it, the same height is refused.
pub proof fn lemma_block_applied_once(
    s: LedgerView,
    height: u64,
    txs: Seq<SumTxView>,
    again: Seq<SumTxView>,
)
    requires
        apply_block(s, height, txs) is Ok,
    ensures
        apply_block(apply_block(s, height, txs)->Ok_0, height, again) == Err::<
            LedgerView,
            LedgerError,
        >(LedgerError::OutOfOrder),
{
}

/// Resumption: once a chain is applied, a run that is to sync up to the
/// chain's last height finds nothing left to apply.
pub proof fn lemma_resume_finds_nothing(s: LedgerView, chain: Seq<(u64, Seq<SumTxView>)>)
    requires
        chain.len() > 0,
        apply_chain(s, chain) is Ok,
    ensures
        pending_range(apply_chain(s, chain)->Ok_0.height, chain.last().0) is None,
{
    lemma_chain_checkpoint(s, chain);
}

proof fn lemma_outputs_value_concat(a: Seq<UtxoView>, b: Seq<UtxoView>)
    ensures
        outputs_value(a + b) == outputs_value(a) + outputs_value(b),
    decreases a.len(),
{
    if a.len() == 0 {
        assert(a + b =~= b);
    } else {
        assert((a + b)[0] == a[0]);
        assert((a + b).drop_first() =~= a.drop_first() + b);
        lemma_outputs_value_concat(a.drop_first(), b);
    }
}

proof fn lemma_spent_inputs_value(s: LedgerView, ins: Seq<IndexedTxidView>)
    requires
        debit_inputs(s, ins) is Ok,
    ensures
        inputs_value(s, ins) == outputs_value(spent_by_inputs(s, ins)),
    decreases ins.len(),
{
    if ins.len() > 0 {
        let next = debit_input(s, ins[0])->Ok_0;
        let head = seq![lookup(s.cache, ins[0])->Some_0];
        lemma_spent_inputs_value(next, ins.drop_first());
        lemma_outputs_value_concat(head, spent_by_inputs(next, ins.drop_first()));
        assert(head.drop_first() =~= Seq::<UtxoView>::empty());
        assert(outputs_value(head.drop_first()) == 0);
    }
}

/// The value that a block debits is the value of the outputs that it is
/// reported to have spent.
pub proof fn lemma_spent_block_value(s: LedgerView, txs: Seq<SumTxView>)
    requires
        debit_all(s, txs) is Ok,
    ensures
        block_inputs_value(s, txs) == outputs_value(spent_by_block(s, txs)),
    decreases txs.len(),
{
    if txs.len() > 0 {
        if txs[0].is_coinbase {
            lemma_spent_block_value(s, txs.drop_first());
        } else {
            let next = debit_inputs(s, txs[0].ins)->Ok_0;
            lemma_spent_inputs_value(s, txs[0].ins);
            lemma_spent_block_value(next, txs.drop_first());
            lemma_outputs_value_concat(
                spent_by_inputs(s, txs[0].ins),
                spent_by_block(next, txs.drop_first()),
            );
        }
    }
}

/// The value that the outputs in `us` pay to the address with key `a`.
pub open spec fn value_for(a: Seq<u8>, us: Seq<UtxoView>) -> int
    decreases us.len(),
{
    if us.len() == 0 {
        0
    } else {
        (if address_key(us[0].address) == a {
            us[0].value as int
        } else {
            0
        }) + value_for(a, us.drop_first())
    }
}

/// The value that the outputs of a block pay to the address with key `a`.
pub open spec fn block_value_for(a: Seq<u8>, txs: Seq<SumTxView>) -> int
    decreases txs.len(),
{
    if txs.len() == 0 {
        0
    } else {
        value_for(a, txs[0].outs) + block_value_for(a, txs.drop_first())
    }
}

proof fn lemma_value_for_concat(a: Seq<u8>, x: Seq<UtxoView>, y: Seq<UtxoView>)
    ensures
        value_for(a, x + y) == value_for(a, x) + value_for(a, y),
    decreases x.len(),
{
    if x.len() == 0 {
        assert(x + y =~= y);
    } else {
        assert((x + y)[0] == x[0]);
        assert((x + y).drop_first() =~= x.drop_first() + y);
        lemma_value_for_concat(a, x.drop_first(), y);
    }
}

proof fn lemma_credit_outputs_held(s: LedgerView, tx_id: Seq<char>, outs: Seq<UtxoView>, a: Seq<u8>)
    requires
        ledger_wf(s),
        credit_outputs(s, tx_id, outs) is Ok,
    ensures
        held(credit_outputs(s, tx_id, outs)->Ok_0.balances, a) == held(s.balances, a) + value_for(
            a,
            outs,
        ),
    decreases outs.len(),
{
    if outs.len() > 0 {
        let u = outs[0];
        let key = address_key(u.address);
        lemma_store(s.balances, key, (held(s.balances, key) + u.value) as i64);
        lemma_store(s.cache, IndexedTxidView { index: u.index, tx_id }, u);
        lemma_credit_outputs_held(credit_output(s, tx_id, u)->Ok_0, tx_id, outs.drop_first(), a);
    }
}

proof fn lemma_credit_all_held(s: LedgerView, txs: Seq<SumTxView>, a: Seq<u8>)
    requires
        ledger_wf(s),
        credit_all(s, txs) is Ok,
    ensures
        held(credit_all(s, txs)->Ok_0.balances, a) == held(s.balances, a) + block_value_for(a, txs),
    decreases txs.len(),
{
    if txs.len() > 0 {
        lemma_credit_outputs_held(s, txs[0].txid, txs[0].outs, a);
        lemma_credit_outputs_wf(s, txs[0].txid, txs[0].outs);
        lemma_credit_all_held(
            credit_outputs(s, txs[0].txid, txs[0].outs)->Ok_0,
            txs.drop_first(),
            a,
        );
    }
}

proof fn lemma_debit_inputs_held(s: LedgerView, ins: Seq<IndexedTxidView>, a: Seq<u8>)
    requires
        ledger_wf(s),
        debit_inputs(s, ins) is Ok,
    ensures
        held(debit_inputs(s, ins)->Ok_0.balances, a) == held(s.balances, a) - value_for(
            a,
            spent_by_inputs(s, ins),
        ),
    decreases ins.len(),
{
    if ins.len() > 0 {
        let u = lookup(s.cache, ins[0])->Some_0;
        let key = address_key(u.address);
        let next = debit_input(s, ins[0])->Ok_0;
        lemma_store(s.balances, key, (held(s.balances, key) - u.value) as i64);
        lemma_erase(s.cache, ins[0]);
        lemma_debit_inputs_held(next, ins.drop_first(), a);
        lemma_value_for_concat(a, seq![u], spent_by_inputs(next, ins.drop_first()));
        assert(seq![u].drop_first() =~= Seq::<UtxoView>::empty());
        assert(value_for(a, seq![u].drop_first()) == 0);
    }
}

proof fn lemma_debit_all_held(s: LedgerView, txs: Seq<SumTxView>, a: Seq<u8>)
    requires
        ledger_wf(s),
        debit_all(s, txs) is Ok,
    ensures
        held(debit_all(s, txs)->Ok_0.balances, a) == held(s.balances, a) - value_for(
            a,
            spent_by_block(s, txs),
        ),
    decreases txs.len(),
{
    if txs.len() > 0 {
        if txs[0].is_coinbase {
            lemma_debit_all_held(s, txs.drop_first(), a);
        } else {
            let next = debit_inputs(s, txs[0].ins)->Ok_0;
            lemma_debit_inputs_held(s, txs[0].ins, a);
            lemma_debit_inputs_wf(s, txs[0].ins);
            lemma_debit_all_held(next, txs.drop_first(), a);
            lemma_value_for_concat(
                a,
                spent_by_inputs(s, txs[0].ins),
                spent_by_block(next, txs.drop_first()),
            );
        }
    }
}

/// What an address holds after a block is what it held before, plus the
/// value of the block's outputs that pay it, less the value of the outputs
/// paying it that the block's inputs spent.
pub proof fn lemma_block_balance(s: LedgerView, height: u64, txs: Seq<SumTxView>, a: Seq<u8>)
    requires
        ledger_wf(s),
        apply_block(s, height, txs) is Ok,
    ensures
        held(apply_block(s, height, txs)->Ok_0.balances, a) == held(s.balances, a)
            + block_value_for(a, txs) - value_for(
            a,
            spent_by_block(credit_all(s, txs)->Ok_0, txs),
        ),
{
    lemma_credit_all_held(s, txs, a);
    lemma_credit_all_wf(s, txs);
    lemma_debit_all_held(credit_all(s, txs)->Ok_0, txs, a);
}

proof fn lemma_store_keeps_keys(b: Seq<(Seq<u8>, i64)>, k: Seq<u8>, v: i64, x: Seq<u8>)
    requires
        distinct_keys(b),
        has_key(b, x),
    ensures
        has_key(store(b, k, v), x),
{
    lemma_store(b, k, v);
    if x != k {
        assert(lookup(store(b, k, v), x) == lookup(b, x));
    }
}

proof fn lemma_credit_outputs_keep(s: LedgerView, tx_id: Seq<char>, outs: Seq<UtxoView>, x: Seq<u8>)
    requires
        ledger_wf(s),
        has_key(s.balances, x),
        credit_outputs(s, tx_id, outs) is Ok,
    ensures
        has_key(credit_outputs(s, tx_id, outs)->Ok_0.balances, x),
    decreases outs.len(),
{
    if outs.len() > 0 {
        let u = outs[0];
        let key = address_key(u.address);
        lemma_store_keeps_keys(s.balances, key, (held(s.balances, key) + u.value) as i64, x);
        lemma_store(s.balances, key, (held(s.balances, key) + u.value) as i64);
        lemma_store(s.cache, IndexedTxidView { index: u.index, tx_id }, u);
        lemma_credit_outputs_keep(credit_output(s, tx_id, u)->Ok_0, tx_id, outs.drop_first(), x);
    }
}

proof fn lemma_credit_all_keeps(s: LedgerView, txs: Seq<SumTxView>, x: Seq<u8>)
    requires
        ledger_wf(s),
        has_key(s.balances, x),
        credit_all(s, txs) is Ok,
    ensures
        has_key(credit_all(s, txs)->Ok_0.balances, x),
    decreases txs.len(),
{
    if txs.len() > 0 {
        lemma_credit_outputs_keep(s, txs[0].txid, txs[0].outs, x);
        lemma_credit_outputs_wf(s, txs[0].txid, txs[0].outs);
        lemma_credit_all_keeps(
            credit_outputs(s, txs[0].txid, txs[0].outs)->Ok_0,
            txs.drop_first(),
            x,
        );
    }
}

proof fn lemma_debit_inputs_keep(s: LedgerView, ins: Seq<IndexedTxidView>, x: Seq<u8>)
    requires
        ledger_wf(s),
        has_key(s.balances, x),
        debit_inputs(s, ins) is Ok,
    ensures
        has_key(debit_inputs(s, ins)->Ok_0.balances, x),
    decreases ins.len(),
{
    if ins.len() > 0 {
        let u = lookup(s.cache, ins[0])->Some_0;
        let key = address_key(u.address);
        lemma_store_keeps_keys(s.balances, key, (held(s.balances, key) - u.value) as i64, x);
        lemma_store(s.balances, key, (held(s.balances, key) - u.value) as i64);
        lemma_erase(s.cache, ins[0]);
        lemma_debit_inputs_keep(debit_input(s, ins[0])->Ok_0, ins.drop_first(), x);
    }
}

proof fn lemma_debit_all_keeps(s: LedgerView, txs: Seq<SumTxView>, x: Seq<u8>)
    requires
        ledger_wf(s),
        has_key(s.balances, x),
        debit_all(s, txs) is Ok,
    ensures
        has_key(debit_all(s, txs)->Ok_0.balances, x),
    decreases txs.len(),
{
    if txs.len() > 0 {
        if txs[0].is_coinbase {
            lemma_debit_all_keeps(s, txs.drop_first(), x);
        } else {
            lemma_debit_inputs_keep(s, txs[0].ins, x);
            lemma_debit_inputs_wf(s, txs[0].ins);
            lemma_debit_all_keeps(debit_inputs(s, txs[0].ins)->Ok_0, txs.drop_first(), x);
        }
    }
}

/// An address that was seen stays in the index, also when its sum falls to zero.
pub proof fn lemma_addresses_stay(s: LedgerView, height: u64, txs: Seq<SumTxView>, a: Seq<u8>)
    requires
        ledger_wf(s),
        has_key(s.balances, a),
        apply_block(s, height, txs) is Ok,
    ensures
        has_key(apply_block(s, height, txs)->Ok_0.balances, a),
{
    lemma_credit_all_keeps(s, txs, a);
    lemma_credit_all_wf(s, txs);
    lemma_debit_all_keeps(credit_all(s, txs)->Ok_0, txs, a);
}

/// A block that is applied keeps the ledger well formed.
pub proof fn lemma_block_keeps_wf(s: LedgerView, height: u64, txs: Seq<SumTxView>)
    requires
        ledger_wf(s),
        apply_block(s, height, txs) is Ok,
    ensures
        ledger_wf(apply_block(s, height, txs)->Ok_0),
{
    lemma_credit_all_wf(s, txs);
    lemma_debit_all_wf(credit_all(s, txs)->Ok_0, txs);
}

proof fn lemma_credit_all_wf(s: LedgerView, txs: Seq<SumTxView>)
    requires
        ledger_wf(s),
        credit_all(s, txs) is Ok,
    ensures
        ledger_wf(credit_all(s, txs)->Ok_0),
    decreases txs.len(),
{
    if txs.len() > 0 {
        lemma_credit_outputs_wf(s, txs[0].txid, txs[0].outs);
        lemma_credit_all_wf(credit_outputs(s, txs[0].txid, txs[0].outs)->Ok_0, txs.drop_first());
    }
}

proof fn lemma_credit_outputs_wf(s: LedgerView, tx_id: Seq<char>, outs: Seq<UtxoView>)
    requires
        ledger_wf(s),
        credit_outputs(s, tx_id, outs) is Ok,
    ensures
        ledger_wf(credit_outputs(s, tx_id, outs)->Ok_0),
    decreases outs.len(),
{
    if outs.len() > 0 {
        let u = outs[0];
        let key = address_key(u.address);
        lemma_store(s.balances, key, (held(s.balances, key) + u.value) as i64);
        lemma_store(s.cache, IndexedTxidView { index: u.index, tx_id }, u);
        lemma_credit_outputs_wf(credit_output(s, tx_id, u)->Ok_0, tx_id, outs.drop_first());
    }
}

proof fn lemma_debit_all_wf(s: LedgerView, txs: Seq<SumTxView>)
    requires
        ledger_wf(s),
        debit_all(s, txs) is Ok,
    ensures
        ledger_wf(debit_all(s, txs)->Ok_0),
    decreases txs.len(),
{
    if txs.len() > 0 {
        if txs[0].is_coinbase {
            lemma_debit_all_wf(s, txs.drop_first());
        } else {
            lemma_debit_inputs_wf(s, txs[0].ins);
            lemma_debit_all_wf(debit_inputs(s, txs[0].ins)->Ok_0, txs.drop_first());
        }
    }
}

proof fn lemma_debit_inputs_wf(s: LedgerView, ins: Seq<IndexedTxidView>)
    requires
        ledger_wf(s),
        debit_inputs(s, ins) is Ok,
    ensures
        ledger_wf(debit_inputs(s, ins)->Ok_0),
    decreases ins.len(),
{
    if ins.len() > 0 {
        let u = lookup(s.cache, ins[0])->Some_0;
        let key = address_key(u.address);
        lemma_store(s.balances, key, (held(s.balances, key) - u.value) as i64);
        lemma_erase(s.cache, ins[0]);
        lemma_debit_inputs_wf(debit_input(s, ins[0])->Ok_0, ins.drop_first());
    }
}

/// An input resolves an output once: a block that spends the same output
/// again, after it was spent, is refused as unresolved.
pub proof fn lemma_double_spend_refused(s: LedgerView, key: IndexedTxidView)
    requires
        ledger_wf(s),
        debit_input(s, key) is Ok,
    ensures
        debit_input(debit_input(s, key)->Ok_0, key) == Err::<LedgerView, LedgerError>(
            LedgerError::UnresolvedInput,
        ),
{
    lemma_erase(s.cache, key);
}

} // verus!
