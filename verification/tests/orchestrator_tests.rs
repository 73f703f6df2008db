use chaingraph::index::{SpkAdditions, SpkIndex, TrustPolicy, TxIndex};
use chaingraph::indexed_tx_graph::{IndexedAdditions, IndexedTxGraph};
use chaingraph::oracle::{BoundedOracle, LocalOracle};
use chaingraph::tx_graph::Additions;
use chaingraph::types::{BlockId, ObservedIn, OutPoint, Transaction, TxOut};

fn tx(txid: u64, inputs: Vec<OutPoint>, outputs: Vec<TxOut>) -> Transaction {
    Transaction { txid, inputs, outputs }
}

fn coinbase(txid: u64, value: u64, spk: u64) -> Transaction {
    Transaction {
        txid,
        inputs: vec![OutPoint { txid: 0, vout: usize::MAX }],
        outputs: vec![TxOut { value, script_pubkey: spk }],
    }
}

#[test]
fn watermark_monotonicity_on_insert_height() {
    let mut w = IndexedTxGraph::new(SpkIndex::new(vec![]));
    let d1 = w.insert_height(100);
    assert_eq!(d1.last_height, Some(100));
    assert_eq!(w.last_height(), 100);
    let d2 = w.insert_height(50);
    assert_eq!(d2.last_height, None);
    assert!(d2.graph_additions.is_empty());
    assert_eq!(w.last_height(), 100);
}

#[test]
fn merged_watermark_is_the_maximum() {
    let mut a: IndexedAdditions<SpkAdditions> = IndexedAdditions {
        graph_additions: Additions::new(),
        index_additions: SpkAdditions,
        last_height: Some(5),
    };
    let b: IndexedAdditions<SpkAdditions> = IndexedAdditions {
        graph_additions: Additions::new(),
        index_additions: SpkAdditions,
        last_height: Some(3),
    };
    a.append(b);
    assert_eq!(a.last_height, Some(5));

    let mut c: IndexedAdditions<SpkAdditions> = IndexedAdditions {
        graph_additions: Additions::new(),
        index_additions: SpkAdditions,
        last_height: Some(3),
    };
    let d: IndexedAdditions<SpkAdditions> = IndexedAdditions {
        graph_additions: Additions::new(),
        index_additions: SpkAdditions,
        last_height: Some(5),
    };
    c.append(d);
    assert_eq!(c.last_height, Some(5));
}

#[test]
fn confirmed_utxo_is_listed_unspent() {
    // an output valued 1000 anchored at height 10, which the oracle confirms
    let mut w = IndexedTxGraph::new(SpkIndex::new(vec![1]));
    let funding = tx(11, vec![], vec![TxOut { value: 1000, script_pubkey: 1 }]);
    let anchor = BlockId { height: 10, hash: 0xA0 };
    let d = w.insert_tx(&funding, ObservedIn::Block(anchor));
    assert_eq!(d.last_height, Some(10));
    assert_eq!(w.last_height(), 10);

    let oracle = LocalOracle::new(vec![(10, 0xA0)]);
    let utxos = w.try_list_chain_utxos(&oracle).expect("oracle is total");
    assert_eq!(utxos.len(), 1);
    assert_eq!(utxos[0].outpoint, OutPoint { txid: 11, vout: 0 });
    assert_eq!(utxos[0].txout.value, 1000);
    assert_eq!(utxos[0].chain_position, ObservedIn::Block(anchor));
    assert!(utxos[0].spent_by.is_none());
    assert!(!utxos[0].is_on_coinbase);
}

#[test]
fn mempool_spend_excludes_the_utxo() {
    let mut w = IndexedTxGraph::new(SpkIndex::new(vec![1]));
    let funding = tx(11, vec![], vec![TxOut { value: 1000, script_pubkey: 1 }]);
    let anchor = BlockId { height: 10, hash: 0xA0 };
    let _ = w.insert_tx(&funding, ObservedIn::Block(anchor));
    let op = OutPoint { txid: 11, vout: 0 };
    let spender = tx(12, vec![op], vec![TxOut { value: 990, script_pubkey: 2 }]);
    let _ = w.insert_tx(&spender, ObservedIn::Mempool(7777));

    let oracle = LocalOracle::new(vec![(10, 0xA0)]);
    let spend = w.graph().try_get_spend_in_chain(&oracle, op).expect("oracle is total");
    assert_eq!(spend, Some((ObservedIn::Mempool(7777), 12)));

    let utxos = w.try_list_chain_utxos(&oracle).expect("oracle is total");
    assert!(utxos.iter().all(|f| f.outpoint != op));

    // the spent output still shows up in the full listing, with its spender
    let all = w.try_list_chain_txouts(&oracle).expect("oracle is total");
    assert_eq!(all.len(), 1);
    assert_eq!(all[0].spent_by, Some((ObservedIn::Mempool(7777), 12)));
}

#[test]
fn coinbase_maturity_buckets_by_tip() {
    let mut w = IndexedTxGraph::new(SpkIndex::new(vec![1]));
    let cb = coinbase(21, 5000, 1);
    let anchor = BlockId { height: 5, hash: 0x05 };
    let _ = w.insert_tx(&cb, ObservedIn::Block(anchor));
    let oracle = LocalOracle::new(vec![(5, 0x05)]);
    let trust = TrustPolicy::new(vec![]);

    let at_tip_100 = w.try_balance(&oracle, 100, &trust).expect("oracle is total");
    assert_eq!(at_tip_100.immature, 5000);
    assert_eq!(at_tip_100.confirmed, 0);

    let at_tip_105 = w.try_balance(&oracle, 105, &trust).expect("oracle is total");
    assert_eq!(at_tip_105.immature, 0);
    assert_eq!(at_tip_105.confirmed, 5000);
}

#[test]
fn pending_value_buckets_by_trust() {
    let mut w = IndexedTxGraph::new(SpkIndex::new(vec![1, 2]));
    let t1 = tx(31, vec![], vec![TxOut { value: 10, script_pubkey: 1 }]);
    let t2 = tx(32, vec![], vec![TxOut { value: 20, script_pubkey: 2 }]);
    let _ = w.insert_tx(&t1, ObservedIn::Mempool(1));
    let _ = w.insert_tx(&t2, ObservedIn::Mempool(2));
    let oracle = LocalOracle::new(vec![]);
    let trust = TrustPolicy::new(vec![1]);
    let b = w.try_balance(&oracle, 50, &trust).expect("oracle is total");
    assert_eq!(b.trusted_pending, 10);
    assert_eq!(b.untrusted_pending, 20);
    assert_eq!(b.immature, 0);
    assert_eq!(b.confirmed, 0);
}

#[test]
fn spent_output_contributes_to_no_bucket() {
    let mut w = IndexedTxGraph::new(SpkIndex::new(vec![1]));
    let funding = tx(91, vec![], vec![TxOut { value: 1000, script_pubkey: 1 }]);
    let _ = w.insert_tx(&funding, ObservedIn::Block(BlockId { height: 10, hash: 0xA0 }));
    let spender = tx(92, vec![OutPoint { txid: 91, vout: 0 }], vec![TxOut {
        value: 990,
        script_pubkey: 2,
    }]);
    let _ = w.insert_tx(&spender, ObservedIn::Mempool(5));
    let oracle = LocalOracle::new(vec![(10, 0xA0)]);
    let b = w.try_balance(&oracle, 50, &TrustPolicy::new(vec![1])).expect("oracle is total");
    assert_eq!(b.confirmed, 0);
    assert_eq!(b.immature, 0);
    assert_eq!(b.trusted_pending, 0);
    assert_eq!(b.untrusted_pending, 0);
}

#[test]
fn balance_at_counts_confirmed_spendable_value() {
    let mut w = IndexedTxGraph::new(SpkIndex::new(vec![1]));
    let funding = tx(41, vec![], vec![TxOut { value: 700, script_pubkey: 1 }]);
    let _ = w.insert_tx(&funding, ObservedIn::Block(BlockId { height: 8, hash: 0x08 }));
    let oracle = LocalOracle::new(vec![(8, 0x08)]);
    assert_eq!(w.try_balance_at(&oracle, 7).expect("oracle is total"), 0);
    assert_eq!(w.try_balance_at(&oracle, 8).expect("oracle is total"), 700);
    assert_eq!(w.balance_at(&oracle, 9), 700);
}

#[test]
fn filter_and_insert_skips_irrelevant_txs() {
    let mut w = IndexedTxGraph::new(SpkIndex::new(vec![1]));
    let relevant = tx(51, vec![], vec![TxOut { value: 1, script_pubkey: 1 }]);
    let irrelevant = tx(52, vec![], vec![TxOut { value: 2, script_pubkey: 9 }]);
    let batch = vec![relevant, irrelevant];
    let d = w.filter_and_insert_txs(&batch, ObservedIn::Block(BlockId { height: 3, hash: 0x03 }));
    assert_eq!(d.last_height, Some(3));
    assert_eq!(w.last_height(), 3);
    assert!(w.graph().get_tx(51).is_some());
    assert!(w.graph().get_tx(52).is_none());
}

#[test]
fn replaying_additions_reproduces_the_state() {
    let mut source = IndexedTxGraph::new(SpkIndex::new(vec![1]));
    let funding = tx(61, vec![], vec![TxOut { value: 300, script_pubkey: 1 }]);
    let mut diff = source.insert_tx(&funding, ObservedIn::Block(BlockId { height: 4, hash: 0x04 }));
    diff.append(source.insert_height(9));

    let mut replica = IndexedTxGraph::new(SpkIndex::new(vec![1]));
    replica.apply_additions(diff);
    assert_eq!(replica.last_height(), 9);
    let node = replica.graph().get_tx(61).expect("replayed");
    assert_eq!(node.tx.outputs[0].value, 300);
    assert_eq!(node.anchors, vec![BlockId { height: 4, hash: 0x04 }]);
}

#[test]
fn listing_relevant_chain_txs() {
    let mut w = IndexedTxGraph::new(SpkIndex::new(vec![1]));
    let mine = tx(71, vec![], vec![TxOut { value: 5, script_pubkey: 1 }]);
    let theirs = tx(72, vec![], vec![TxOut { value: 6, script_pubkey: 9 }]);
    let _ = w.insert_tx(&mine, ObservedIn::Block(BlockId { height: 2, hash: 0x02 }));
    let _ = w.insert_tx(&theirs, ObservedIn::Block(BlockId { height: 2, hash: 0x02 }));
    let oracle = LocalOracle::new(vec![(2, 0x02)]);
    let listed = w.list_chain_txs(&oracle);
    assert_eq!(listed.len(), 1);
    assert_eq!(listed[0].tx.tx.txid, 71);
    assert_eq!(listed[0].observed_in, ObservedIn::Block(BlockId { height: 2, hash: 0x02 }));
}

#[test]
fn oracle_error_aborts_listing() {
    let mut w = IndexedTxGraph::new(SpkIndex::new(vec![1]));
    let funding = tx(81, vec![], vec![TxOut { value: 1, script_pubkey: 1 }]);
    let _ = w.insert_tx(&funding, ObservedIn::Block(BlockId { height: 50, hash: 0x50 }));
    let oracle = BoundedOracle::new(vec![(50, 0x50)], 40);
    assert!(w.try_list_chain_txouts(&oracle).is_err());
    assert!(w.try_list_chain_txs(&oracle).is_err());
    assert!(w.try_balance(&oracle, 60, &TrustPolicy::new(vec![])).is_err());
    assert!(w.try_balance_at(&oracle, 60).is_err());
}

#[test]
fn fresh_store_has_nothing() {
    let w = IndexedTxGraph::new(SpkIndex::new(vec![1]));
    let oracle = LocalOracle::new(vec![]);
    assert_eq!(w.last_height(), 0);
    assert!(w.try_list_chain_txouts(&oracle).unwrap().is_empty());
    assert!(w.try_list_chain_utxos(&oracle).unwrap().is_empty());
    assert!(w.list_chain_txs(&oracle).is_empty());
    let b = w.try_balance(&oracle, 0, &TrustPolicy::new(vec![])).unwrap();
    assert_eq!(b.confirmed, 0);
    assert_eq!(b.immature, 0);
    assert_eq!(b.trusted_pending, 0);
    assert_eq!(b.untrusted_pending, 0);
    assert_eq!(w.try_balance_at(&oracle, 0).unwrap(), 0);
}

#[test]
fn index_mut_exposes_the_index() {
    let mut w = IndexedTxGraph::new(SpkIndex::new(vec![1]));
    assert!(w.index().is_spk_owned(1));
    assert!(!w.index().is_spk_owned(2));
    let idx = w.index_mut();
    assert!(idx.is_spk_owned(1));
}
