use chaingraph::oracle::{BoundedOracle, ChainOracle, LocalOracle};
use chaingraph::tx_graph::TxGraph;
use chaingraph::types::{BlockId, ObservedIn, OutPoint, Transaction, TxOut};

fn tx(txid: u64, inputs: Vec<OutPoint>, outputs: Vec<TxOut>) -> Transaction {
    Transaction { txid, inputs, outputs }
}

fn coinbase_input() -> OutPoint {
    OutPoint { txid: 0, vout: usize::MAX }
}

#[test]
fn insert_tx_twice_is_noop() {
    let mut g = TxGraph::new();
    let t = tx(7, vec![], vec![TxOut { value: 1000, script_pubkey: 1 }]);
    let d1 = g.insert_tx(&t);
    assert!(!d1.is_empty());
    let d2 = g.insert_tx(&t);
    assert!(d2.is_empty());
}

#[test]
fn get_tx_round_trip_through_diff() {
    let mut g = TxGraph::new();
    let t = tx(7, vec![], vec![TxOut { value: 1000, script_pubkey: 1 }]);
    let d = g.insert_tx(&t);

    let mut replay = TxGraph::new();
    replay.apply_additions(&d);
    let node = replay.get_tx(7).expect("transaction must replay");
    assert_eq!(node.tx.txid, 7);
    assert_eq!(node.tx.outputs.len(), 1);
    assert_eq!(node.tx.outputs[0].value, 1000);
    assert_eq!(node.tx.outputs[0].script_pubkey, 1);
    assert!(node.anchors.is_empty());
    assert_eq!(node.last_seen, None);
    assert!(replay.get_tx(8).is_none());
}

#[test]
fn unobserved_tx_resolves_to_no_position() {
    let mut g = TxGraph::new();
    let t = tx(9, vec![], vec![TxOut { value: 5, script_pubkey: 2 }]);
    let _ = g.insert_tx(&t);
    let oracle = LocalOracle::new(vec![(10, 0xAB)]);
    let pos = g.try_get_chain_position(&oracle, 9).expect("oracle is total");
    assert!(pos.is_none());
}

#[test]
fn confirmed_anchor_beats_mempool_sighting() {
    let mut g = TxGraph::new();
    let t = tx(9, vec![], vec![TxOut { value: 5, script_pubkey: 2 }]);
    let _ = g.insert_tx(&t);
    let _ = g.insert_seen_at(9, 777);
    let _ = g.insert_anchor(9, BlockId { height: 10, hash: 0xAB });
    let oracle = LocalOracle::new(vec![(10, 0xAB)]);
    let pos = g.try_get_chain_position(&oracle, 9).expect("oracle is total");
    assert_eq!(pos, Some(ObservedIn::Block(BlockId { height: 10, hash: 0xAB })));
}

#[test]
fn stale_anchor_falls_back_to_mempool() {
    let mut g = TxGraph::new();
    let t = tx(9, vec![], vec![TxOut { value: 5, script_pubkey: 2 }]);
    let _ = g.insert_tx(&t);
    let _ = g.insert_seen_at(9, 777);
    let _ = g.insert_anchor(9, BlockId { height: 10, hash: 0xAB });
    // the best chain carries a different block at height 10
    let oracle = LocalOracle::new(vec![(10, 0xCD)]);
    let pos = g.try_get_chain_position(&oracle, 9).expect("oracle is total");
    assert_eq!(pos, Some(ObservedIn::Mempool(777)));
}

#[test]
fn lowest_confirmed_anchor_wins() {
    let mut g = TxGraph::new();
    let t = tx(9, vec![], vec![TxOut { value: 5, script_pubkey: 2 }]);
    let _ = g.insert_tx(&t);
    let _ = g.insert_anchor(9, BlockId { height: 20, hash: 0xB2 });
    let _ = g.insert_anchor(9, BlockId { height: 10, hash: 0xB1 });
    let oracle = LocalOracle::new(vec![(10, 0xB1), (20, 0xB2)]);
    let pos = g.try_get_chain_position(&oracle, 9).expect("oracle is total");
    assert_eq!(pos, Some(ObservedIn::Block(BlockId { height: 10, hash: 0xB1 })));
}

#[test]
fn seen_at_keeps_the_latest_timestamp() {
    let mut g = TxGraph::new();
    let t = tx(9, vec![], vec![]);
    let _ = g.insert_tx(&t);
    let d1 = g.insert_seen_at(9, 100);
    assert!(!d1.is_empty());
    let d2 = g.insert_seen_at(9, 50);
    assert!(d2.is_empty());
    let d3 = g.insert_seen_at(9, 150);
    assert!(!d3.is_empty());
    let node = g.get_tx(9).unwrap();
    assert_eq!(node.last_seen, Some(150));
}

#[test]
fn oracle_error_propagates_from_position() {
    let mut g = TxGraph::new();
    let t = tx(9, vec![], vec![]);
    let _ = g.insert_tx(&t);
    let _ = g.insert_anchor(9, BlockId { height: 50, hash: 0xEE });
    let oracle = BoundedOracle::new(vec![(50, 0xEE)], 40);
    let res = g.try_get_chain_position(&oracle, 9);
    assert!(res.is_err());
}

#[test]
fn spend_resolution_prefers_confirmed_over_mempool() {
    let mut g = TxGraph::new();
    let funding = tx(1, vec![], vec![TxOut { value: 10, script_pubkey: 3 }]);
    let op = OutPoint { txid: 1, vout: 0 };
    let _ = g.insert_tx(&funding);
    let _ = g.insert_anchor(1, BlockId { height: 1, hash: 0x01 });
    let spender_mem = tx(2, vec![op], vec![]);
    let spender_conf = tx(3, vec![op], vec![]);
    let _ = g.insert_tx(&spender_mem);
    let _ = g.insert_seen_at(2, 555);
    let _ = g.insert_tx(&spender_conf);
    let _ = g.insert_anchor(3, BlockId { height: 4, hash: 0x04 });
    let oracle = LocalOracle::new(vec![(1, 0x01), (4, 0x04)]);
    let spend = g.try_get_spend_in_chain(&oracle, op).expect("oracle is total");
    assert_eq!(spend, Some((ObservedIn::Block(BlockId { height: 4, hash: 0x04 }), 3)));
}

#[test]
fn applying_one_diff_twice_is_idempotent() {
    let mut source = TxGraph::new();
    let t = tx(5, vec![], vec![TxOut { value: 42, script_pubkey: 9 }]);
    let mut d = source.insert_tx(&t);
    d.append(&source.insert_anchor(5, BlockId { height: 3, hash: 0x33 }));
    d.append(&source.insert_seen_at(5, 60));

    let mut once = TxGraph::new();
    once.apply_additions(&d);
    let mut twice = TxGraph::new();
    twice.apply_additions(&d);
    twice.apply_additions(&d);

    let a = once.get_tx(5).unwrap();
    let b = twice.get_tx(5).unwrap();
    assert_eq!(a.tx.txid, b.tx.txid);
    assert_eq!(a.anchors, b.anchors);
    assert_eq!(a.last_seen, b.last_seen);
    assert_eq!(once.all_txouts().len(), twice.all_txouts().len());
    assert_eq!(once.full_transactions().len(), twice.full_transactions().len());
}

#[test]
fn diffs_merge_the_same_in_either_order() {
    let ta = tx(5, vec![], vec![TxOut { value: 42, script_pubkey: 9 }]);
    let tb = tx(6, vec![], vec![TxOut { value: 43, script_pubkey: 9 }]);

    let mut s1 = TxGraph::new();
    let da = s1.insert_tx(&ta);
    let db = s1.insert_tx(&tb);

    let mut forward = TxGraph::new();
    forward.apply_additions(&da);
    forward.apply_additions(&db);
    let mut backward = TxGraph::new();
    backward.apply_additions(&db);
    backward.apply_additions(&da);

    assert_eq!(forward.get_tx(5).unwrap().tx.txid, 5);
    assert_eq!(backward.get_tx(5).unwrap().tx.txid, 5);
    assert_eq!(forward.get_tx(6).unwrap().tx.txid, 6);
    assert_eq!(backward.get_tx(6).unwrap().tx.txid, 6);
    assert_eq!(forward.all_txouts().len(), backward.all_txouts().len());
}

#[test]
fn floating_txout_listed_until_tx_covers_it() {
    let mut g = TxGraph::new();
    let op = OutPoint { txid: 7, vout: 0 };
    let out = TxOut { value: 12, script_pubkey: 4 };
    let d = g.insert_txout(op, &out);
    assert!(!d.is_empty());
    let d2 = g.insert_txout(op, &out);
    assert!(d2.is_empty());
    let listed = g.all_txouts();
    assert_eq!(listed.len(), 1);
    assert_eq!(listed[0].0, op);
    assert_eq!(listed[0].1, out);

    // once the whole transaction is stored, its copy of the output wins
    let t = tx(7, vec![], vec![TxOut { value: 12, script_pubkey: 4 }]);
    let _ = g.insert_tx(&t);
    let listed = g.all_txouts();
    assert_eq!(listed.len(), 1);
    assert_eq!(listed[0].0, op);
}

#[test]
fn coinbase_detection_follows_the_null_input() {
    let cb = tx(3, vec![coinbase_input()], vec![TxOut { value: 50, script_pubkey: 1 }]);
    assert!(cb.is_coin_base());
    let plain = tx(4, vec![OutPoint { txid: 3, vout: 0 }], vec![]);
    assert!(!plain.is_coin_base());
}

#[test]
fn bounded_oracle_answers_inside_horizon() {
    let oracle = BoundedOracle::new(vec![(5, 0x55)], 10);
    assert_eq!(oracle.get_block_in_best_chain(5).unwrap(), Some(0x55));
    assert_eq!(oracle.get_block_in_best_chain(6).unwrap(), None);
    assert!(oracle.get_block_in_best_chain(11).is_err());
}
