//! The algebra the diff model promises: merge order does not matter, replay
//! is idempotent, the watermark only rises, unobserved records resolve to no
//! position, an emitted diff replays to the same store, and listed unspents
//! really have no resolving spender.

use vstd::prelude::*;
use crate::types::{OutPoint, TxOut, TxRepr, ObservedIn, FullTxOut};
use crate::tx_graph::{StoreRepr, GraphState, max_merge, spec_position, spec_spend, confirmed_pick,
    anchor_confirmed};
use crate::index::{Merge, TxIndex};
use crate::indexed_tx_graph::{max_height, empty_state, insert_tx_diff, chain_txouts_rec,
    spec_chain_txouts, spec_chain_utxos, scan_index, scan_index_diff, scan_graph,
    scan_graph_diff, scan_any};

verus! {

/// Two maps agree where their domains overlap.
pub open spec fn agree<K, V>(a: Map<K, V>, b: Map<K, V>) -> bool {
    forall|k: K| a.dom().contains(k) && b.dom().contains(k) ==> a[k] == b[k]
}

/// Merging two diffs into a state in either order gives the same state,
/// provided the diffs agree on the transactions and outputs they share: the
/// first-recorded-wins rule is order-free exactly there. Anchors and
/// seen-timestamps need no proviso.
pub proof fn lemma_merge_commutative(g: GraphState, d1: GraphState, d2: GraphState)
    requires
        agree(d1.txs, d2.txs),
        agree(d1.txouts, d2.txouts),
    ensures
        g.merged(d1).merged(d2) == g.merged(d2).merged(d1),
{
    assert(g.merged(d1).merged(d2).txs =~= g.merged(d2).merged(d1).txs);
    assert(g.merged(d1).merged(d2).txouts =~= g.merged(d2).merged(d1).txouts);
    assert(g.merged(d1).merged(d2).anchors =~= g.merged(d2).merged(d1).anchors);
    assert(g.merged(d1).merged(d2).seen =~= g.merged(d2).merged(d1).seen);
    assert(g.merged(d1).merged(d2) =~= g.merged(d2).merged(d1));
}

/// Merging two diffs one after the other is the same as merging them into
/// one diff first and applying that: the diff monoid acts on states.
pub proof fn lemma_merge_as_one(g: GraphState, d1: GraphState, d2: GraphState)
    ensures
        g.merged(d1).merged(d2) == g.merged(d1.merged(d2)),
{
    assert(g.merged(d1).merged(d2).txs =~= g.merged(d1.merged(d2)).txs);
    assert(g.merged(d1).merged(d2).txouts =~= g.merged(d1.merged(d2)).txouts);
    assert(g.merged(d1).merged(d2).anchors =~= g.merged(d1.merged(d2)).anchors);
    assert(g.merged(d1).merged(d2).seen =~= g.merged(d1.merged(d2)).seen);
    assert(g.merged(d1).merged(d2) =~= g.merged(d1.merged(d2)));
}

/// Applying the same diff twice yields the same state as applying it once.
pub proof fn lemma_merge_idempotent(g: GraphState, d: GraphState)
    ensures
        g.merged(d).merged(d) == g.merged(d),
{
    assert(g.merged(d).merged(d).txs =~= g.merged(d).txs);
    assert(g.merged(d).merged(d).txouts =~= g.merged(d).txouts);
    assert(g.merged(d).merged(d).anchors =~= g.merged(d).anchors);
    assert(g.merged(d).merged(d).seen =~= g.merged(d).seen);
    assert(g.merged(d).merged(d) =~= g.merged(d));
}

/// The index half of the merge laws: replaying two index diffs into an
/// index in either order, or as their one merged diff, leaves the same
/// index, and replaying a diff twice is a no-op. Holds for every index, by
/// the laws its trait owes.
pub proof fn lemma_index_replay_laws<I: TxIndex>(idx: I, d1: I::Additions, d2: I::Additions)
    ensures
        idx.applied(d1).applied(d2) == idx.applied(d2).applied(d1),
        idx.applied(d1).applied(d2) == idx.applied(d1.merged_spec(d2)),
        idx.applied(d1).applied(d1) == idx.applied(d1),
{
    I::applied_laws(idx, d1, d2);
}

/// A batch in which the index, as it stands, finds nothing relevant changes
/// nothing: the graph and the index stay as they are, both emitted diffs are
/// empty, and the watermark has no reason to rise.
pub proof fn lemma_scan_nothing_relevant<I: TxIndex>(
    g: GraphState,
    idx: I,
    s: Seq<TxRepr>,
    obs: ObservedIn,
)
    requires
        forall|i: int| 0 <= i < s.len() ==> !idx.tx_relevant(#[trigger] s[i]),
    ensures
        scan_index(idx, s) == idx,
        scan_index_diff(idx, s) == I::Additions::empty_spec(),
        scan_graph(g, idx, s, obs) == g,
        scan_graph_diff(g, idx, s, obs) == empty_state(),
        !scan_any(idx, s),
    decreases s.len(),
{
    if s.len() > 0 {
        assert(forall|i: int| 0 <= i < s.drop_last().len() ==> (#[trigger] s.drop_last()[i])
            == s[i]);
        lemma_scan_nothing_relevant(g, idx, s.drop_last(), obs);
        assert(s[s.len() - 1] == s.last());
    }
}

/// A merged watermark is the larger height, whichever side carries it.
pub proof fn lemma_watermark_merge(a: Option<u32>, b: Option<u32>)
    ensures
        max_height(a, b) == max_height(b, a),
        (match (a, b) {
            (Some(x), Some(y)) => max_height(a, b) == Some(
                if x >= y {
                    x
                } else {
                    y
                },
            ),
            _ => true,
        }),
{
}

/// Raising the watermark to `h` and then to any `h2 <= h` leaves it at the
/// value the first raise gave, and the second raise reports no new height:
/// the watermark never decreases.
pub proof fn lemma_watermark_monotone(w: u32, h: u32, h2: u32)
    requires
        h2 <= h,
    ensures
        ({
            let w1 = if h > w {
                h
            } else {
                w
            };
            &&& !(h2 > w1)
            &&& (if h2 > w1 {
                h2
            } else {
                w1
            }) == w1
        }),
{
}

/// A transaction with no anchor claim and no recorded sighting resolves to
/// no position, whatever the oracle says.
pub proof fn lemma_unobserved_resolves_to_none(g: StoreRepr, chain: Map<u32, u64>, txid: u64)
    requires
        forall|i: int| 0 <= i < g.anchors.len() ==> (#[trigger] g.anchors[i]).0 != txid,
        !g.seen_map().dom().contains(txid),
    ensures
        spec_position(g, chain, txid) is None,
{
    lemma_confirmed_pick_none(g.anchors, chain, txid);
}

/// With no anchor claim for the transaction, no anchor is picked.
proof fn lemma_confirmed_pick_none(s: Seq<(u64, crate::types::BlockId)>, chain: Map<u32, u64>, txid: u64)
    requires
        forall|i: int| 0 <= i < s.len() ==> (#[trigger] s[i]).0 != txid,
    ensures
        confirmed_pick(s, chain, txid) is None,
    decreases s.len(),
{
    if s.len() > 0 {
        assert(forall|i: int| 0 <= i < s.drop_last().len() ==> (#[trigger] s.drop_last()[i])
            == s[i]);
        lemma_confirmed_pick_none(s.drop_last(), chain, txid);
        assert(s[s.len() - 1].0 != txid);
    }
}

/// The picked anchor is a recorded claim for the transaction that the
/// oracle snapshot confirms, of the lowest height among all confirmed
/// claims; and no anchor is picked exactly when no claim is confirmed.
pub proof fn lemma_confirmed_pick_is_least(
    s: Seq<(u64, crate::types::BlockId)>,
    chain: Map<u32, u64>,
    txid: u64,
)
    ensures
        match confirmed_pick(s, chain, txid) {
            Some(b) => s.contains((txid, b)) && anchor_confirmed(chain, (txid, b), txid)
                && forall|i: int|
                0 <= i < s.len() && anchor_confirmed(chain, #[trigger] s[i], txid) ==> b.height
                    <= s[i].1.height,
            None => forall|i: int|
                0 <= i < s.len() ==> !anchor_confirmed(chain, #[trigger] s[i], txid),
        },
    decreases s.len(),
{
    if s.len() > 0 {
        lemma_confirmed_pick_is_least(s.drop_last(), chain, txid);
        assert(forall|i: int| 0 <= i < s.len() - 1 ==> (#[trigger] s[i]) == s.drop_last()[i]);
        match confirmed_pick(s.drop_last(), chain, txid) {
            Some(b) => {
                let j = choose|j: int|
                    0 <= j < s.drop_last().len() && (#[trigger] s.drop_last()[j]) == (txid, b);
                assert(s[j] == (txid, b));
            },
            None => {},
        }
        match confirmed_pick(s, chain, txid) {
            Some(b) => {
                if b == s.last().1 && anchor_confirmed(chain, s.last(), txid) {
                    assert(s[s.len() - 1] == (txid, b) || s.contains((txid, b)));
                    if s.last() == (txid, b) {
                        assert(s[s.len() - 1] == (txid, b));
                    }
                }
            },
            None => {},
        }
    }
}

/// Positions order strictly: better-than carries over a chain.
proof fn lemma_pos_better_trans(a: ObservedIn, b: ObservedIn, c: ObservedIn)
    requires
        crate::tx_graph::pos_better(a, b),
        crate::tx_graph::pos_better(b, c),
    ensures
        crate::tx_graph::pos_better(a, c),
{
}

/// The picked spend is by a stored transaction that spends the outpoint and
/// resolves to the given position, and no other resolving spender has a
/// strictly better position; no spend is picked exactly when no spender
/// resolves.
pub proof fn lemma_spend_pick_is_best(
    g: StoreRepr,
    chain: Map<u32, u64>,
    s: Seq<TxRepr>,
    outpoint: OutPoint,
)
    ensures
        match crate::tx_graph::spend_pick(g, chain, s, outpoint) {
            Some(r) => (exists|i: int|
                0 <= i < s.len() && (#[trigger] s[i]).txid == r.1 && s[i].inputs.contains(outpoint))
                && spec_position(g, chain, r.1) == Some(r.0) && forall|i: int|
                0 <= i < s.len() && (#[trigger] s[i]).inputs.contains(outpoint) ==> (match
                    spec_position(g, chain, s[i].txid) {
                    Some(q) => !crate::tx_graph::pos_better(q, r.0),
                    None => true,
                }),
            None => forall|i: int|
                0 <= i < s.len() && (#[trigger] s[i]).inputs.contains(outpoint) ==> spec_position(
                    g,
                    chain,
                    s[i].txid,
                ) is None,
        },
    decreases s.len(),
{
    if s.len() > 0 {
        lemma_spend_pick_is_best(g, chain, s.drop_last(), outpoint);
        assert(forall|i: int| 0 <= i < s.len() - 1 ==> (#[trigger] s[i]) == s.drop_last()[i]);
        let prev = crate::tx_graph::spend_pick(g, chain, s.drop_last(), outpoint);
        let cur = crate::tx_graph::spend_pick(g, chain, s, outpoint);
        match cur {
            Some(r) => {
                if prev matches Some(p) && r != p {
                    // the last transaction replaced the previous best
                    assert(s[s.len() - 1].txid == r.1);
                    assert forall|i: int|
                        0 <= i < s.len() && (#[trigger] s[i]).inputs.contains(outpoint) implies (
                    match spec_position(g, chain, s[i].txid) {
                        Some(q) => !crate::tx_graph::pos_better(q, r.0),
                        None => true,
                    }) by {
                        if i < s.len() - 1 {
                            match spec_position(g, chain, s[i].txid) {
                                Some(q) => {
                                    if crate::tx_graph::pos_better(q, r.0) {
                                        lemma_pos_better_trans(q, r.0, prev->Some_0.0);
                                    }
                                },
                                None => {},
                            }
                        }
                    }
                } else if prev is None {
                    assert(s[s.len() - 1].txid == r.1);
                } else {
                    // the previous best was kept
                    let j = choose|j: int|
                        0 <= j < s.drop_last().len() && (#[trigger] s.drop_last()[j]).txid == r.1
                            && s.drop_last()[j].inputs.contains(outpoint);
                    assert(s[j].txid == r.1 && s[j].inputs.contains(outpoint));
                }
            },
            None => {},
        }
    }
}

/// Round trip: the diff emitted by inserting a transaction into a fresh
/// store, applied to another fresh store, stores exactly that transaction.
pub proof fn lemma_insert_round_trip(t: TxRepr)
    ensures
        empty_state().merged(insert_tx_diff(empty_state(), t)).txs == Map::empty().insert(
            t.txid,
            t,
        ),
{
    assert(empty_state().merged(insert_tx_diff(empty_state(), t)).txs =~= Map::empty().insert(
        t.txid,
        t,
    ));
}

/// Every resolved output carries exactly the store's resolved spend for its
/// outpoint.
proof fn lemma_txouts_rec_spends<I: TxIndex>(
    g: StoreRepr,
    index: I,
    chain: Map<u32, u64>,
    s: Seq<(OutPoint, TxOut)>,
)
    ensures
        forall|i: int|
            0 <= i < chain_txouts_rec(g, index, chain, s).len() ==> (#[trigger] chain_txouts_rec(
                g,
                index,
                chain,
                s,
            )[i]).spent_by == spec_spend(g, chain, chain_txouts_rec(g, index, chain, s)[i].outpoint),
    decreases s.len(),
{
    if s.len() > 0 {
        lemma_txouts_rec_spends(g, index, chain, s.drop_last());
    }
}

/// Spend exclusion: every output the unspent listing yields has no
/// resolving spender in the store — once a spending transaction resolves,
/// the outpoint no longer appears.
pub proof fn lemma_spend_exclusion<I: TxIndex>(g: StoreRepr, index: I, chain: Map<u32, u64>)
    ensures
        forall|i: int|
            0 <= i < spec_chain_utxos(g, index, chain).len() ==> spec_spend(
                g,
                chain,
                (#[trigger] spec_chain_utxos(g, index, chain)[i]).outpoint,
            ) is None,
{
    let all = spec_chain_txouts(g, index, chain);
    let pred = |f: FullTxOut| f.spent_by is None;
    lemma_txouts_rec_spends(g, index, chain, crate::tx_graph::txouts_enum(g));
    lemma_filter_keeps(all, pred);
    assert forall|i: int| 0 <= i < spec_chain_utxos(g, index, chain).len() implies spec_spend(
        g,
        chain,
        (#[trigger] spec_chain_utxos(g, index, chain)[i]).outpoint,
    ) is None by {
        let f = spec_chain_utxos(g, index, chain)[i];
        all.lemma_filter_pred(pred, i);
        let j = choose|j: int| 0 <= j < all.len() && all[j] == f;
        assert(f.spent_by == spec_spend(g, chain, f.outpoint));
    }
}

/// Every element the filter keeps was an element of the list.
proof fn lemma_filter_keeps(s: Seq<FullTxOut>, pred: spec_fn(FullTxOut) -> bool)
    ensures
        forall|i: int|
            0 <= i < s.filter(pred).len() ==> s.contains(#[trigger] s.filter(pred)[i]),
    decreases s.len(),
{
    reveal(Seq::filter);
    if s.len() > 0 {
        lemma_filter_keeps(s.drop_last(), pred);
        assert forall|i: int| 0 <= i < s.filter(pred).len() implies s.contains(
            #[trigger] s.filter(pred)[i],
        ) by {
            let f = s.filter(pred)[i];
            if i < s.drop_last().filter(pred).len() {
                assert(s.drop_last().contains(f));
                let j = choose|j: int| 0 <= j < s.drop_last().len() && s.drop_last()[j] == f;
                assert(s[j] == f);
            } else {
                assert(f == s.last());
                assert(s[s.len() - 1] == f);
            }
        }
    }
}

} // verus!
