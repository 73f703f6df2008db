use chaingraph::sync::{NodeEvent, ScanEvent, SyncTracker};
use chaingraph::types::BlockId;

#[test]
fn matched_filter_is_awaited_until_its_block_arrives() {
    let mut t = SyncTracker::new(None);
    let b5 = BlockId { height: 5, hash: 0x55 };

    // headers caught up, but a matched block is still awaited
    assert!(matches!(t.step(NodeEvent::Synced(9, 10)), None));
    assert!(matches!(t.step(NodeEvent::FilterProcessed(b5, true)), None));

    // the block arrives: hand it over
    match t.step(NodeEvent::BlockMatched(b5)) {
        Some(ScanEvent::BlockMatched(b)) => assert_eq!(b, b5),
        _ => panic!("matched block must be handed over"),
    }

    // nothing awaited any more: the next processed filter finishes the scan
    let b6 = BlockId { height: 6, hash: 0x66 };
    match t.step(NodeEvent::FilterProcessed(b6, false)) {
        Some(ScanEvent::ChainSynced(p)) => assert_eq!(p, Some(b6)),
        _ => panic!("scan must finish once nothing is awaited"),
    }
}

#[test]
fn synced_to_tip_finishes_immediately() {
    let mut t = SyncTracker::new(None);
    let b3 = BlockId { height: 3, hash: 0x33 };
    assert!(matches!(t.step(NodeEvent::FilterProcessed(b3, false)), None));
    match t.step(NodeEvent::Synced(10, 10)) {
        Some(ScanEvent::ChainSynced(p)) => assert_eq!(p, Some(b3)),
        _ => panic!("reaching the tip finishes the scan"),
    }
}

#[test]
fn unknown_events_are_ignored() {
    let mut t = SyncTracker::new(Some(BlockId { height: 1, hash: 0x11 }));
    assert!(matches!(t.step(NodeEvent::Other), None));
}
