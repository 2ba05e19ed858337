use sum_btc::cache::TxCache;
use sum_btc::ledger::{LedgerError, MerkleSumTree};
use sum_btc::model::{IndexedTxid, SumTx, Utxo};

fn out(index: usize, address: &str, value: u64) -> Utxo {
    Utxo { index, address: address.to_string(), value }
}

fn spend(index: usize, tx_id: &str) -> IndexedTxid {
    IndexedTxid { index, tx_id: tx_id.to_string() }
}

fn coinbase(txid: &str, outs: Vec<Utxo>) -> SumTx {
    SumTx {
        is_coinbase: true,
        txid: txid.to_string(),
        ins: vec![spend(4294967295, "0000")],
        outs,
    }
}

fn transfer(txid: &str, ins: Vec<IndexedTxid>, outs: Vec<Utxo>) -> SumTx {
    SumTx { is_coinbase: false, txid: txid.to_string(), ins, outs }
}

fn block_one() -> Vec<SumTx> {
    vec![coinbase("tx1", vec![out(0, "A", 50)])]
}

fn block_two() -> Vec<SumTx> {
    vec![transfer("tx2", vec![spend(0, "tx1")], vec![out(0, "B", 40), out(1, "A", 10)])]
}

fn block_three() -> Vec<SumTx> {
    vec![
        coinbase("tx3", vec![out(0, "C", 25)]),
        transfer("tx4", vec![spend(0, "tx2")], vec![out(0, "C", 15), out(1, "B", 25)]),
    ]
}

fn sum_of(ledger: &MerkleSumTree) -> i64 {
    ledger.balances().iter().map(|e| e.1).sum()
}

#[test]
fn new_ledger_is_empty() {
    let ledger = MerkleSumTree::new();
    assert_eq!(ledger.get_last_height(), 0);
    assert!(ledger.balances().is_empty());
    assert!(ledger.unspent().is_empty());
    assert!(ledger.top_richest_address().is_empty());
    assert_eq!(ledger.balance_of(&b"A".to_vec()), None);
}

#[test]
fn coinbase_then_spend_with_change() {
    let mut ledger = MerkleSumTree::new();
    let spent = ledger.update_balances(1, block_one()).unwrap();
    assert!(spent.is_empty());
    assert_eq!(ledger.balances(), vec![(b"A".to_vec(), 50)]);
    assert_eq!(ledger.get_last_height(), 1);

    let spent = ledger.update_balances(2, block_two()).unwrap();
    assert_eq!(spent.len(), 1);
    assert_eq!(spent[0].index, 0);
    assert_eq!(spent[0].address, "A");
    assert_eq!(spent[0].value, 50);
    assert_eq!(ledger.balance_of(&b"A".to_vec()), Some(10));
    assert_eq!(ledger.balance_of(&b"B".to_vec()), Some(40));
    assert_eq!(ledger.balances().len(), 2);
    assert_eq!(
        ledger.top_richest_address(),
        vec![(b"B".to_vec(), 40), (b"A".to_vec(), 10)]
    );
    assert_eq!(ledger.get_last_height(), 2);
}

#[test]
fn balances_sum_to_credits_less_debits() {
    let mut ledger = MerkleSumTree::new();
    ledger.update_balances(1, block_one()).unwrap();
    assert_eq!(sum_of(&ledger), 50);
    let spent = ledger.update_balances(2, block_two()).unwrap();
    let debited: u64 = spent.iter().map(|u| u.value).sum();
    assert_eq!(debited, 50);
    assert_eq!(sum_of(&ledger), 50 + (40 + 10) - 50);
    let spent = ledger.update_balances(3, block_three()).unwrap();
    let debited: u64 = spent.iter().map(|u| u.value).sum();
    assert_eq!(debited, 40);
    // a closed chain holds exactly what its coinbases issued
    assert_eq!(sum_of(&ledger), 50 + 25);
}

#[test]
fn an_address_spent_empty_stays_with_zero() {
    let mut ledger = MerkleSumTree::new();
    ledger.update_balances(1, block_one()).unwrap();
    let all_to_b = vec![transfer("tx2", vec![spend(0, "tx1")], vec![out(0, "B", 50)])];
    ledger.update_balances(2, all_to_b).unwrap();
    assert_eq!(ledger.balance_of(&b"A".to_vec()), Some(0));
    assert_eq!(ledger.balance_of(&b"Z".to_vec()), None);
    assert_eq!(
        ledger.top_richest_address(),
        vec![(b"B".to_vec(), 50), (b"A".to_vec(), 0)]
    );
}

#[test]
fn one_run_equals_two_runs() {
    let mut whole = MerkleSumTree::new();
    whole.update_balances(1, block_one()).unwrap();
    whole.update_balances(2, block_two()).unwrap();
    whole.update_balances(3, block_three()).unwrap();

    for k in 0..=3u64 {
        let mut first = MerkleSumTree::new();
        if k >= 1 {
            first.update_balances(1, block_one()).unwrap();
        }
        if k >= 2 {
            first.update_balances(2, block_two()).unwrap();
        }
        if k >= 3 {
            first.update_balances(3, block_three()).unwrap();
        }
        let mut second =
            MerkleSumTree::restore(first.balances(), first.unspent(), first.get_last_height())
                .unwrap();
        assert_eq!(second.get_last_height(), k);
        if k < 1 {
            second.update_balances(1, block_one()).unwrap();
        }
        if k < 2 {
            second.update_balances(2, block_two()).unwrap();
        }
        if k < 3 {
            second.update_balances(3, block_three()).unwrap();
        }
        assert_eq!(second.balances(), whole.balances());
        assert_eq!(second.top_richest_address(), whole.top_richest_address());
        assert_eq!(second.get_last_height(), 3);
        assert_eq!(second.unspent().len(), whole.unspent().len());
    }
}

#[test]
fn a_refused_block_changes_nothing() {
    let mut ledger = MerkleSumTree::new();
    ledger.update_balances(1, block_one()).unwrap();
    let bad = vec![
        coinbase("tx5", vec![out(0, "D", 7)]),
        transfer(
            "tx6",
            vec![spend(0, "tx1"), spend(9, "nowhere")],
            vec![out(0, "B", 50)],
        ),
    ];
    let r = ledger.update_balances(2, bad);
    assert_eq!(r.err(), Some(LedgerError::UnresolvedInput));
    assert_eq!(ledger.balances(), vec![(b"A".to_vec(), 50)]);
    assert_eq!(ledger.get_last_height(), 1);
    assert!(ledger.is_unspent(&spend(0, "tx1")));
    assert!(!ledger.is_unspent(&spend(0, "tx5")));
    assert_eq!(ledger.unspent().len(), 1);
    // the same block without the dangling input is applied
    ledger.update_balances(2, block_two()).unwrap();
    assert_eq!(ledger.get_last_height(), 2);
}

#[test]
fn an_output_is_spent_once() {
    let mut ledger = MerkleSumTree::new();
    ledger.update_balances(1, block_one()).unwrap();
    ledger.update_balances(2, block_two()).unwrap();
    let again = vec![transfer("tx7", vec![spend(0, "tx1")], vec![out(0, "B", 50)])];
    assert_eq!(
        ledger.update_balances(3, again).err(),
        Some(LedgerError::UnresolvedInput)
    );
    let twice_in_one = vec![transfer(
        "tx8",
        vec![spend(0, "tx2"), spend(0, "tx2")],
        vec![out(0, "E", 40)],
    )];
    assert_eq!(
        ledger.update_balances(3, twice_in_one).err(),
        Some(LedgerError::UnresolvedInput)
    );
    assert_eq!(ledger.get_last_height(), 2);
}

#[test]
fn an_output_is_spendable_in_its_own_block() {
    let mut ledger = MerkleSumTree::new();
    // the spender stands before the transaction whose output it spends
    let block = vec![
        transfer("tx2", vec![spend(0, "tx1")], vec![out(0, "B", 50)]),
        coinbase("tx1", vec![out(0, "A", 50)]),
    ];
    let spent = ledger.update_balances(1, block).unwrap();
    assert_eq!(spent.len(), 1);
    assert_eq!(ledger.balance_of(&b"A".to_vec()), Some(0));
    assert_eq!(ledger.balance_of(&b"B".to_vec()), Some(50));
}

#[test]
fn coinbase_inputs_are_not_resolved() {
    let mut ledger = MerkleSumTree::new();
    let spent = ledger.update_balances(1, block_one()).unwrap();
    assert!(spent.is_empty());
    assert_eq!(ledger.unspent().len(), 1);
}

#[test]
fn a_value_beyond_the_signed_range_is_refused() {
    let mut ledger = MerkleSumTree::new();
    let block = vec![coinbase("tx1", vec![out(0, "A", 9223372036854775808)])];
    assert_eq!(
        ledger.update_balances(1, block).err(),
        Some(LedgerError::ValueOutOfRange)
    );
    let block = vec![coinbase("tx1", vec![out(0, "A", 9223372036854775807)])];
    assert!(ledger.update_balances(1, block).is_ok());
    assert_eq!(ledger.balance_of(&b"A".to_vec()), Some(i64::MAX));
}

#[test]
fn a_sum_beyond_the_signed_range_is_refused() {
    let mut ledger = MerkleSumTree::new();
    let block = vec![coinbase(
        "tx1",
        vec![out(0, "A", 9223372036854775807), out(1, "A", 1)],
    )];
    assert_eq!(
        ledger.update_balances(1, block).err(),
        Some(LedgerError::BalanceOverflow)
    );
    assert!(ledger.balances().is_empty());
}

#[test]
fn a_debit_beyond_the_balance_is_refused() {
    let mut ledger = MerkleSumTree::restore(
        vec![(b"A".to_vec(), 10)],
        vec![(spend(0, "tx1"), out(0, "A", 50)), (spend(1, "tx1"), out(1, "F", 5))],
        4,
    )
    .unwrap();
    let block = vec![transfer("tx2", vec![spend(0, "tx1")], vec![])];
    assert_eq!(
        ledger.update_balances(5, block).err(),
        Some(LedgerError::DebitUnderflow)
    );
    let block = vec![transfer("tx3", vec![spend(1, "tx1")], vec![])];
    assert_eq!(
        ledger.update_balances(5, block).err(),
        Some(LedgerError::DebitUnderflow)
    );
    assert_eq!(ledger.get_last_height(), 4);
    assert_eq!(ledger.balance_of(&b"A".to_vec()), Some(10));
}

#[test]
fn only_the_block_above_the_checkpoint_is_applied() {
    let mut ledger = MerkleSumTree::new();
    assert_eq!(ledger.update_balances(0, block_one()).err(), Some(LedgerError::OutOfOrder));
    assert_eq!(ledger.update_balances(2, block_one()).err(), Some(LedgerError::OutOfOrder));
    assert!(ledger.balances().is_empty());
    ledger.update_balances(1, block_one()).unwrap();
    // the block that was applied is not applied again
    assert_eq!(ledger.update_balances(1, block_one()).err(), Some(LedgerError::OutOfOrder));
    assert_eq!(ledger.update_balances(3, block_two()).err(), Some(LedgerError::OutOfOrder));
    assert_eq!(ledger.balances(), vec![(b"A".to_vec(), 50)]);
    assert_eq!(ledger.get_last_height(), 1);
    ledger.update_balances(2, block_two()).unwrap();
    let mut last = MerkleSumTree::restore(vec![], vec![], u64::MAX).unwrap();
    assert_eq!(last.update_balances(u64::MAX, vec![]).err(), Some(LedgerError::OutOfOrder));
    assert_eq!(last.update_balances(0, vec![]).err(), Some(LedgerError::OutOfOrder));
}

#[test]
fn restore_refuses_duplicates() {
    assert!(MerkleSumTree::restore(
        vec![(b"A".to_vec(), 1), (b"A".to_vec(), 2)],
        vec![],
        0
    )
    .is_none());
    assert!(MerkleSumTree::restore(
        vec![],
        vec![(spend(0, "t"), out(0, "A", 1)), (spend(0, "t"), out(0, "B", 2))],
        0
    )
    .is_none());
    let t = MerkleSumTree::restore(
        vec![(b"A".to_vec(), 1), (b"B".to_vec(), 2)],
        vec![(spend(0, "t"), out(0, "A", 1)), (spend(1, "t"), out(1, "B", 2))],
        9,
    )
    .unwrap();
    assert_eq!(t.get_last_height(), 9);
    assert_eq!(t.balance_of(&b"B".to_vec()), Some(2));
}

#[test]
fn equal_sums_rank_by_address() {
    let mut ledger = MerkleSumTree::new();
    let block = vec![coinbase(
        "tx1",
        vec![
            out(0, "b", 5),
            out(1, "ab", 5),
            out(2, "a", 5),
            out(3, "z", 9),
            out(4, "", 5),
            out(5, "c", 1),
        ],
    )];
    ledger.update_balances(1, block).unwrap();
    assert_eq!(
        ledger.top_richest_address(),
        vec![
            (b"z".to_vec(), 9),
            (b"".to_vec(), 5),
            (b"a".to_vec(), 5),
            (b"ab".to_vec(), 5),
            (b"b".to_vec(), 5),
            (b"c".to_vec(), 1),
        ]
    );
}

#[test]
fn cache_resolves_an_output_exactly_once() {
    let mut cache = TxCache::new();
    cache.put(spend(0, "tx1"), out(0, "A", 50));
    cache.put(spend(1, "tx1"), out(1, "B", 7));
    assert_eq!(cache.len(), 2);
    assert!(cache.contains(&spend(0, "tx1")));
    let u = cache.take(&spend(0, "tx1")).unwrap();
    assert_eq!((u.index, u.address.as_str(), u.value), (0, "A", 50));
    assert_eq!(cache.take(&spend(0, "tx1")).err(), Some(LedgerError::UnresolvedInput));
    assert_eq!(cache.take(&spend(0, "tx9")).err(), Some(LedgerError::UnresolvedInput));
    assert_eq!(cache.len(), 1);
    let u = cache.take(&spend(1, "tx1")).unwrap();
    assert_eq!((u.index, u.address.as_str(), u.value), (1, "B", 7));
}

#[test]
fn cache_put_replaces() {
    let mut cache = TxCache::new();
    cache.put(spend(0, "tx1"), out(0, "A", 50));
    cache.put(spend(0, "tx1"), out(0, "B", 60));
    assert_eq!(cache.len(), 1);
    let u = cache.take(&spend(0, "tx1")).unwrap();
    assert_eq!((u.address.as_str(), u.value), ("B", 60));
    assert!(TxCache::from_entries(vec![
        (spend(0, "t"), out(0, "A", 1)),
        (spend(0, "t"), out(0, "A", 1))
    ])
    .is_none());
}
