//! The orchestrator: a graph store composed with a relevance index and a
//! monotonic sync watermark. Insertions emit merged diffs; queries resolve
//! against a chain oracle and filter by the index.

use vstd::prelude::*;
use crate::types::{OutPoint, TxOut, Transaction, TxRepr, BlockId, ObservedIn, FullTxOut, Balance,
    spec_is_coinbase, spec_is_mature, spec_is_spendable_at};
use crate::tx_graph::{TxGraph, Additions, StoreRepr, GraphState, TxNode, TxNodeRepr, max_merge,
    node_repr, spec_position, spec_spend, txouts_enum};
use crate::index::{Merge, TxIndex, TrustPolicy};
use crate::oracle::ChainOracle;
use crate::kv::{lemma_take_push, lemma_take_all};

verus! {

/// The larger of two optional heights, `None` lowest.
pub open spec fn max_height(a: Option<u32>, b: Option<u32>) -> Option<u32> {
    match (a, b) {
        (None, None) => None,
        (Some(x), None) => Some(x),
        (None, Some(y)) => Some(y),
        (Some(x), Some(y)) => if x >= y {
            Some(x)
        } else {
            Some(y)
        },
    }
}

/// The state with no facts at all.
pub open spec fn empty_state() -> GraphState {
    GraphState { txs: Map::empty(), txouts: Map::empty(), anchors: Set::empty(), seen: Map::empty() }
}

/// Effect of recording a transaction on the order-free graph state.
pub open spec fn insert_tx_maps(s: GraphState, t: TxRepr) -> GraphState {
    if s.txs.dom().contains(t.txid) {
        s
    } else {
        GraphState { txs: s.txs.insert(t.txid, t), ..s }
    }
}

/// The marginal diff of recording a transaction.
pub open spec fn insert_tx_diff(s: GraphState, t: TxRepr) -> GraphState {
    if s.txs.dom().contains(t.txid) {
        empty_state()
    } else {
        GraphState { txs: Map::empty().insert(t.txid, t), ..empty_state() }
    }
}

/// Effect of recording an observation of `txid` on the order-free state: a
/// block observation adds an anchor claim, a mempool observation raises the
/// seen-timestamp.
pub open spec fn observe_maps(s: GraphState, txid: u64, obs: ObservedIn) -> GraphState {
    match obs {
        ObservedIn::Block(b) => GraphState { anchors: s.anchors.insert((txid, b)), ..s },
        ObservedIn::Mempool(t) => if s.seen.dom().contains(txid) && s.seen[txid] >= t {
            s
        } else {
            GraphState { seen: s.seen.insert(txid, t), ..s }
        },
    }
}

/// The marginal diff of recording an observation of `txid`.
pub open spec fn observe_diff(s: GraphState, txid: u64, obs: ObservedIn) -> GraphState {
    match obs {
        ObservedIn::Block(b) => if s.anchors.contains((txid, b)) {
            empty_state()
        } else {
            GraphState { anchors: Set::empty().insert((txid, b)), ..empty_state() }
        },
        ObservedIn::Mempool(t) => if s.seen.dom().contains(txid) && s.seen[txid] >= t {
            empty_state()
        } else {
            GraphState { seen: Map::empty().insert(txid, t), ..empty_state() }
        },
    }
}

/// The watermark after seeing an observation: a block observation raises it
/// to the block's height, a mempool observation leaves it.
pub open spec fn watermark_after(w: u32, obs: ObservedIn) -> u32 {
    match obs {
        ObservedIn::Block(b) => if b.height > w {
            b.height
        } else {
            w
        },
        ObservedIn::Mempool(_) => w,
    }
}

/// The store's sequences after recording a transaction: appended unless its
/// id is already stored.
pub open spec fn repr_insert_tx(g: StoreRepr, t: TxRepr) -> StoreRepr {
    if g.tx_map().dom().contains(t.txid) {
        g
    } else {
        StoreRepr { txs: g.txs.push(t), ..g }
    }
}

/// The store's sequences after recording a floating output: appended unless
/// its outpoint is already recorded.
pub open spec fn repr_insert_txout(g: StoreRepr, op: OutPoint, out: TxOut) -> StoreRepr {
    if g.txout_map().dom().contains(op) {
        g
    } else {
        StoreRepr { txouts: g.txouts.push((op, out)), ..g }
    }
}

/// The store's sequences after recording an anchor claim: appended unless
/// already recorded.
pub open spec fn repr_insert_anchor(g: StoreRepr, txid: u64, b: BlockId) -> StoreRepr {
    if g.anchor_set().contains((txid, b)) {
        g
    } else {
        StoreRepr { anchors: g.anchors.push((txid, b)), ..g }
    }
}

/// How a recorded sighting relates the old and new seen-timestamp lists: a
/// new id is appended, a later timestamp overwrites that id's entry in
/// place, and anything else changes nothing.
pub open spec fn seen_list_after(g: StoreRepr, h: StoreRepr, txid: u64, t: u64) -> bool {
    if !g.seen_map().dom().contains(txid) {
        h.last_seen == g.last_seen.push((txid, t))
    } else if g.seen_map()[txid] >= t {
        h.last_seen == g.last_seen
    } else {
        exists|i: int|
            0 <= i < g.last_seen.len() && (#[trigger] g.last_seen[i]).0 == txid && h.last_seen
                == g.last_seen.update(i, (txid, t))
    }
}

/// The index after seeing a batch: each transaction it finds relevant, as
/// reached, is fed to it.
pub open spec fn scan_index<I: TxIndex>(idx: I, s: Seq<TxRepr>) -> I
    decreases s.len(),
{
    if s.len() == 0 {
        idx
    } else {
        let p = scan_index(idx, s.drop_last());
        if p.tx_relevant(s.last()) {
            p.indexed_tx(s.last())
        } else {
            p
        }
    }
}

/// Graph state after a batch: each transaction the evolving index finds
/// relevant, as reached, is recorded with the observation.
pub open spec fn scan_graph<I: TxIndex>(
    g: GraphState,
    idx: I,
    s: Seq<TxRepr>,
    obs: ObservedIn,
) -> GraphState
    decreases s.len(),
{
    if s.len() == 0 {
        g
    } else {
        let pg = scan_graph(g, idx, s.drop_last(), obs);
        if scan_index(idx, s.drop_last()).tx_relevant(s.last()) {
            observe_maps(insert_tx_maps(pg, s.last()), s.last().txid, obs)
        } else {
            pg
        }
    }
}

/// The merged graph diffs a batch emits.
pub open spec fn scan_graph_diff<I: TxIndex>(
    g: GraphState,
    idx: I,
    s: Seq<TxRepr>,
    obs: ObservedIn,
) -> GraphState
    decreases s.len(),
{
    if s.len() == 0 {
        empty_state()
    } else {
        let pg = scan_graph(g, idx, s.drop_last(), obs);
        let pd = scan_graph_diff(g, idx, s.drop_last(), obs);
        if scan_index(idx, s.drop_last()).tx_relevant(s.last()) {
            pd.merged(
                insert_tx_diff(pg, s.last()).merged(
                    observe_diff(insert_tx_maps(pg, s.last()), s.last().txid, obs),
                ),
            )
        } else {
            pd
        }
    }
}

/// The merged index diffs a batch emits.
pub open spec fn scan_index_diff<I: TxIndex>(idx: I, s: Seq<TxRepr>) -> I::Additions
    decreases s.len(),
{
    if s.len() == 0 {
        I::Additions::empty_spec()
    } else {
        let pi = scan_index(idx, s.drop_last());
        let pd = scan_index_diff(idx, s.drop_last());
        if pi.tx_relevant(s.last()) {
            pd.merged_spec(pi.tx_diff(s.last()))
        } else {
            pd
        }
    }
}

/// Whether the evolving index found anything in the batch relevant.
pub open spec fn scan_any<I: TxIndex>(idx: I, s: Seq<TxRepr>) -> bool
    decreases s.len(),
{
    if s.len() == 0 {
        false
    } else {
        scan_any(idx, s.drop_last()) || scan_index(idx, s.drop_last()).tx_relevant(s.last())
    }
}

/// The index after replaying a change set: the index diff first, then every
/// transaction and output the graph diff introduces.
pub open spec fn index_tx_fold<I: TxIndex>(idx: I, s: Seq<TxRepr>) -> I
    decreases s.len(),
{
    if s.len() == 0 {
        idx
    } else {
        index_tx_fold(idx, s.drop_last()).indexed_tx(s.last())
    }
}

/// The index after accounting for a list of outputs.
pub open spec fn index_txout_fold<I: TxIndex>(idx: I, s: Seq<(OutPoint, TxOut)>) -> I
    decreases s.len(),
{
    if s.len() == 0 {
        idx
    } else {
        index_txout_fold(idx, s.drop_last()).indexed_txout(s.last().0, s.last().1)
    }
}

/// Changes to an orchestrated graph: graph diff, index diff, and the highest
/// block height witnessed, if any. Merging unions the two diffs and keeps
/// the larger height.
pub struct IndexedAdditions<IA> {
    /// Diff of the graph store.
    pub graph_additions: Additions,
    /// Diff of the relevance index, opaque to the orchestrator.
    pub index_additions: IA,
    /// Highest block height witnessed, if any.
    pub last_height: Option<u32>,
}

impl<IA: Merge> IndexedAdditions<IA> {
    /// The diff that changes nothing.
    pub fn new() -> (r: Self)
        ensures
            r.graph_additions@ == StoreRepr::empty(),
            r.graph_additions@.wf(),
            r.index_additions == IA::empty_spec(),
            r.last_height is None,
    {
        IndexedAdditions {
            graph_additions: Additions::new(),
            index_additions: IA::empty(),
            last_height: None,
        }
    }

    /// Merge another change set into this one: graph and index diffs union,
    /// and the watermark field keeps the larger height.
    pub fn append(&mut self, other: Self)
        requires
            old(self).graph_additions@.wf(),
            other.graph_additions@.wf(),
        ensures
            final(self).graph_additions@.wf(),
            final(self).graph_additions@.state() == old(self).graph_additions@.state().merged(
                other.graph_additions@.state(),
            ),
            final(self).index_additions == old(self).index_additions.merged_spec(
                other.index_additions,
            ),
            final(self).last_height == max_height(old(self).last_height, other.last_height),
    {
        let IndexedAdditions { graph_additions, index_additions, last_height } = other;
        self.graph_additions.append(&graph_additions);
        self.index_additions.merge(index_additions);
        match last_height {
            Some(h) => {
                match self.last_height {
                    Some(cur) => if cur < h {
                        self.last_height = Some(h);
                    },
                    None => {
                        self.last_height = Some(h);
                    },
                }
            },
            None => {},
        }
    }
}

impl<IA: Merge> Default for IndexedAdditions<IA> {
    fn default() -> (r: Self)
        ensures
            r.graph_additions@ == StoreRepr::empty(),
            r.graph_additions@.wf(),
            r.index_additions == IA::empty_spec(),
            r.last_height is None,
    {
        IndexedAdditions::new()
    }
}

/// A graph store composed with a relevance index and a monotonic sync
/// watermark.
pub struct IndexedTxGraph<I: TxIndex> {
    graph: TxGraph,
    index: I,
    last_height: u32,
}

impl<I: TxIndex> IndexedTxGraph<I> {
    /// The graph store's content.
    pub closed spec fn graph_view(&self) -> StoreRepr {
        self.graph@
    }

    /// The relevance index.
    pub closed spec fn index_view(&self) -> I {
        self.index
    }

    /// The sync watermark.
    pub closed spec fn watermark(&self) -> u32 {
        self.last_height
    }

    /// The store's fact lists hold no duplicates: exactly the graph store's
    /// own well-formedness, so queries on the store obtained through
    /// [`Self::graph`] are callable.
    pub open spec fn wf(&self) -> bool {
        self.graph_view().wf()
    }

    /// An orchestrator around this index, with an empty graph store and the
    /// watermark at the least height.
    pub fn new(index: I) -> (r: Self)
        ensures
            r.graph_view() == StoreRepr::empty(),
            r.wf(),
            r.index_view() == index,
            r.watermark() == 0,
    {
        IndexedTxGraph { graph: TxGraph::new(), index, last_height: 0 }
    }

    /// Get a reference of the internal transaction graph.
    pub fn graph(&self) -> (r: &TxGraph)
        ensures
            r@ == self.graph_view(),
    {
        &self.graph
    }

    /// Get a reference of the internal transaction index.
    pub fn index(&self) -> (r: &I)
        ensures
            *r == self.index_view(),
    {
        &self.index
    }

    /// Get a mutable reference to the internal transaction index.
    pub fn index_mut(&mut self) -> (r: &mut I)
        ensures
            *r == old(self).index_view(),
            final(self).index_view() == *final(r),
            final(self).graph_view() == old(self).graph_view(),
            final(self).watermark() == old(self).watermark(),
            final(self).wf() == old(self).wf(),
    {
        &mut self.index
    }

    /// Get the last block height that we are synced up to.
    pub fn last_height(&self) -> (r: u32)
        ensures
            r == self.watermark(),
    {
        self.last_height
    }

    /// Raise the watermark to `tip` if that is higher; say the new height if
    /// it rose.
    fn insert_height_internal(&mut self, tip: u32) -> (r: Option<u32>)
        ensures
            final(self).watermark() == (if tip > old(self).watermark() {
                tip
            } else {
                old(self).watermark()
            }),
            r == (if tip > old(self).watermark() {
                Some(tip)
            } else {
                None::<u32>
            }),
            final(self).graph_view() == old(self).graph_view(),
            final(self).index_view() == old(self).index_view(),
            final(self).wf() == old(self).wf(),
    {
        if self.last_height < tip {
            self.last_height = tip;
            Some(tip)
        } else {
            None
        }
    }

    /// Insert a block height that the chain source has scanned up to: the
    /// watermark rises to it if it is higher, and the returned diff carries
    /// the new height exactly when it rose. A no-op call changes nothing.
    pub fn insert_height(&mut self, tip: u32) -> (r: IndexedAdditions<I::Additions>)
        ensures
            final(self).watermark() == (if tip > old(self).watermark() {
                tip
            } else {
                old(self).watermark()
            }),
            final(self).graph_view() == old(self).graph_view(),
            final(self).index_view() == old(self).index_view(),
            final(self).wf() == old(self).wf(),
            r.last_height == (if tip > old(self).watermark() {
                Some(tip)
            } else {
                None::<u32>
            }),
            r.graph_additions@ == StoreRepr::empty(),
            r.graph_additions@.wf(),
            r.index_additions == I::Additions::empty_spec(),
    {
        let last_height = self.insert_height_internal(tip);
        IndexedAdditions {
            graph_additions: Additions::new(),
            index_additions: I::Additions::empty(),
            last_height,
        }
    }

    /// Record a transaction under an observation: store it, store the anchor
    /// or sighting, raise the watermark for a block observation, feed the
    /// transaction to the index, and return the merged marginal diff.
    pub fn insert_tx(&mut self, tx: &Transaction, observation: ObservedIn) -> (r: IndexedAdditions<
        I::Additions,
    >)
        requires
            old(self).wf(),
        ensures
            final(self).wf(),
            final(self).graph_view().state() == observe_maps(
                insert_tx_maps(old(self).graph_view().state(), tx@),
                tx.txid,
                observation,
            ),
            (match observation {
                ObservedIn::Block(b) => final(self).graph_view() == repr_insert_anchor(
                    repr_insert_tx(old(self).graph_view(), tx@),
                    tx.txid,
                    b,
                ),
                ObservedIn::Mempool(t) => final(self).graph_view().txs == repr_insert_tx(
                    old(self).graph_view(),
                    tx@,
                ).txs && final(self).graph_view().txouts == old(self).graph_view().txouts
                    && final(self).graph_view().anchors == old(self).graph_view().anchors
                    && seen_list_after(
                    old(self).graph_view(),
                    final(self).graph_view(),
                    tx.txid,
                    t,
                ),
            }),
            final(self).watermark() == watermark_after(old(self).watermark(), observation),
            r.last_height == (match observation {
                ObservedIn::Block(b) => if b.height > old(self).watermark() {
                    Some(b.height)
                } else {
                    None::<u32>
                },
                ObservedIn::Mempool(_) => None::<u32>,
            }),
            r.graph_additions@.wf(),
            r.graph_additions@.state() == insert_tx_diff(old(self).graph_view().state(), tx@)
                .merged(
                observe_diff(
                    insert_tx_maps(old(self).graph_view().state(), tx@),
                    tx.txid,
                    observation,
                ),
            ),
            final(self).index_view() == old(self).index_view().indexed_tx(tx@),
            r.index_additions == old(self).index_view().tx_diff(tx@),
    {
        let txid = tx.txid;
        let last_height = match &observation {
            ObservedIn::Block(anchor) => self.insert_height_internal(anchor.height),
            ObservedIn::Mempool(_) => None,
        };
        let mut graph_additions = self.graph.insert_tx(tx);
        let second = match observation {
            ObservedIn::Block(anchor) => self.graph.insert_anchor(txid, anchor),
            ObservedIn::Mempool(seen_at) => self.graph.insert_seen_at(txid, seen_at),
        };
        proof {
            lemma_empty_state();
            lemma_single_tx_state(tx@);
            lemma_single_observe_state(txid, observation);
            assert(graph_additions@.state() =~= insert_tx_diff(old(self).graph_view().state(), tx@));
            assert(second@.state() =~= observe_diff(
                insert_tx_maps(old(self).graph_view().state(), tx@),
                txid,
                observation,
            ));
            assert(self.graph_view().state() =~= observe_maps(
                insert_tx_maps(old(self).graph_view().state(), tx@),
                tx.txid,
                observation,
            ));
        }
        graph_additions.append(&second);
        let index_additions = self.index.index_tx(tx);
        IndexedAdditions { graph_additions, index_additions, last_height }
    }

    /// Record a floating output under an observation: store it, store the
    /// anchor or sighting for its transaction, raise the watermark for a
    /// block observation, feed the output to the index, and return the
    /// merged marginal diff.
    pub fn insert_txout(&mut self, outpoint: OutPoint, txout: &TxOut, observation: ObservedIn) -> (
    r: IndexedAdditions<I::Additions>)
        requires
            old(self).wf(),
        ensures
            final(self).wf(),
            final(self).graph_view().state() == observe_maps(
                insert_txout_maps(old(self).graph_view().state(), outpoint, *txout),
                outpoint.txid,
                observation,
            ),
            (match observation {
                ObservedIn::Block(b) => final(self).graph_view() == repr_insert_anchor(
                    repr_insert_txout(old(self).graph_view(), outpoint, *txout),
                    outpoint.txid,
                    b,
                ),
                ObservedIn::Mempool(t) => final(self).graph_view().txouts == repr_insert_txout(
                    old(self).graph_view(),
                    outpoint,
                    *txout,
                ).txouts && final(self).graph_view().txs == old(self).graph_view().txs
                    && final(self).graph_view().anchors == old(self).graph_view().anchors
                    && seen_list_after(
                    old(self).graph_view(),
                    final(self).graph_view(),
                    outpoint.txid,
                    t,
                ),
            }),
            final(self).watermark() == watermark_after(old(self).watermark(), observation),
            r.last_height == (match observation {
                ObservedIn::Block(b) => if b.height > old(self).watermark() {
                    Some(b.height)
                } else {
                    None::<u32>
                },
                ObservedIn::Mempool(_) => None::<u32>,
            }),
            r.graph_additions@.wf(),
            r.graph_additions@.state() == insert_txout_diff(
                old(self).graph_view().state(),
                outpoint,
                *txout,
            ).merged(
                observe_diff(
                    insert_txout_maps(old(self).graph_view().state(), outpoint, *txout),
                    outpoint.txid,
                    observation,
                ),
            ),
            final(self).index_view() == old(self).index_view().indexed_txout(outpoint, *txout),
            r.index_additions == old(self).index_view().txout_diff(outpoint, *txout),
    {
        let last_height = match &observation {
            ObservedIn::Block(anchor) => self.insert_height_internal(anchor.height),
            ObservedIn::Mempool(_) => None,
        };
        let mut graph_additions = self.graph.insert_txout(outpoint, txout);
        let second = match observation {
            ObservedIn::Block(anchor) => self.graph.insert_anchor(outpoint.txid, anchor),
            ObservedIn::Mempool(seen_at) => self.graph.insert_seen_at(outpoint.txid, seen_at),
        };
        proof {
            lemma_empty_state();
            lemma_single_txout_state(outpoint, *txout);
            lemma_single_observe_state(outpoint.txid, observation);
            assert(graph_additions@.state() =~= insert_txout_diff(
                old(self).graph_view().state(),
                outpoint,
                *txout,
            ));
            assert(second@.state() =~= observe_diff(
                insert_txout_maps(old(self).graph_view().state(), outpoint, *txout),
                outpoint.txid,
                observation,
            ));
            assert(self.graph_view().state() =~= observe_maps(
                insert_txout_maps(old(self).graph_view().state(), outpoint, *txout),
                outpoint.txid,
                observation,
            ));
        }
        graph_additions.append(&second);
        let index_additions = self.index.index_txout(outpoint, txout);
        IndexedAdditions { graph_additions, index_additions, last_height }
    }

    /// Insert the transactions the index marks relevant, all under one
    /// observation, merging the per-transaction marginal diffs in batch
    /// order. Each transaction's relevance is decided as it is reached,
    /// after the earlier insertions have fed the index, so an index that
    /// learns from what it sees takes later transactions into account. The
    /// watermark rises to a block observation's height exactly when a
    /// relevant transaction was inserted.
    pub fn filter_and_insert_txs(&mut self, txs: &Vec<Transaction>, observation: ObservedIn) -> (r:
        IndexedAdditions<I::Additions>)
        requires
            old(self).wf(),
        ensures
            final(self).wf(),
            final(self).watermark() >= old(self).watermark(),
            r.graph_additions@.wf(),
            ({
                let ts = txs@.map_values(|x: Transaction| x@);
                &&& final(self).graph_view().state() == scan_graph(
                    old(self).graph_view().state(),
                    old(self).index_view(),
                    ts,
                    observation,
                )
                &&& final(self).index_view() == scan_index(old(self).index_view(), ts)
                &&& r.graph_additions@.state() == scan_graph_diff(
                    old(self).graph_view().state(),
                    old(self).index_view(),
                    ts,
                    observation,
                )
                &&& r.index_additions == scan_index_diff(old(self).index_view(), ts)
                &&& final(self).watermark() == (if scan_any(old(self).index_view(), ts) {
                    watermark_after(old(self).watermark(), observation)
                } else {
                    old(self).watermark()
                })
                &&& r.last_height == (match observation {
                    ObservedIn::Block(b) => if scan_any(old(self).index_view(), ts) && b.height
                        > old(self).watermark() {
                        Some(b.height)
                    } else {
                        None::<u32>
                    },
                    ObservedIn::Mempool(_) => None::<u32>,
                })
            }),
            observation matches ObservedIn::Mempool(_) ==> final(self).watermark() == old(
                self,
            ).watermark() && r.last_height is None,
    {
        let ghost g0 = old(self).graph_view().state();
        let ghost i0 = old(self).index_view();
        let ghost w0 = old(self).watermark();
        let mut acc: IndexedAdditions<I::Additions> = IndexedAdditions::new();
        let mut i: usize = 0;
        while i < txs.len()
            invariant
                i <= txs.len(),
                self.wf(),
                acc.graph_additions@.wf(),
                g0 == old(self).graph_view().state(),
                i0 == old(self).index_view(),
                w0 == old(self).watermark(),
                ({
                    let ts = txs@.take(i as int).map_values(|x: Transaction| x@);
                    &&& self.graph_view().state() == scan_graph(g0, i0, ts, observation)
                    &&& self.index_view() == scan_index(i0, ts)
                    &&& acc.graph_additions@.state() == scan_graph_diff(g0, i0, ts, observation)
                    &&& acc.index_additions == scan_index_diff(i0, ts)
                    &&& self.watermark() == (if scan_any(i0, ts) {
                        watermark_after(w0, observation)
                    } else {
                        w0
                    })
                    &&& acc.last_height == (match observation {
                        ObservedIn::Block(b) => if scan_any(i0, ts) && b.height > w0 {
                            Some(b.height)
                        } else {
                            None::<u32>
                        },
                        ObservedIn::Mempool(_) => None::<u32>,
                    })
                }),
            decreases txs.len() - i,
        {
            proof {
                lemma_take_push(txs@, i as int);
                assert(txs@.take(i as int + 1).map_values(|x: Transaction| x@) =~= txs@.take(
                    i as int,
                ).map_values(|x: Transaction| x@).push(txs@[i as int]@));
                assert(txs@.take(i as int + 1).map_values(|x: Transaction| x@).drop_last()
                    =~= txs@.take(i as int).map_values(|x: Transaction| x@));
                assert(txs@.take(i as int + 1).map_values(|x: Transaction| x@).last() == txs@[
                    i as int]@);
            }
            if self.index.is_tx_relevant(&txs[i]) {
                let d = self.insert_tx(&txs[i], observation);
                acc.append(d);
            }
            i += 1;
        }
        proof {
            lemma_take_all(txs@);
            assert(txs@.take(txs@.len() as int).map_values(|x: Transaction| x@) =~= txs@
                .map_values(|x: Transaction| x@));
        }
        acc
    }

    /// Two-phase replay of a change set: merge the index diff into the
    /// index, feed every transaction and output the graph diff introduces
    /// through the index (so relevance stays right for facts that arrived by
    /// replay), merge the graph diff into the graph store, then raise the
    /// watermark if the diff's height exceeds it.
    pub fn apply_additions(&mut self, additions: IndexedAdditions<I::Additions>)
        requires
            old(self).wf(),
            additions.graph_additions@.wf(),
        ensures
            final(self).wf(),
            final(self).graph_view().state() == old(self).graph_view().state().merged(
                additions.graph_additions@.state(),
            ),
            final(self).graph_view().txs == old(self).graph_view().txs + additions
                .graph_additions@.txs.filter(crate::tx_graph::keeps_tx(old(self).graph_view())),
            final(self).graph_view().txouts == old(self).graph_view().txouts + additions
                .graph_additions@.txouts.filter(
                crate::tx_graph::keeps_txout(old(self).graph_view()),
            ),
            final(self).graph_view().anchors == old(self).graph_view().anchors + additions
                .graph_additions@.anchors.filter(
                crate::tx_graph::keeps_anchor(old(self).graph_view()),
            ),
            final(self).watermark() == (match additions.last_height {
                Some(h) => if h > old(self).watermark() {
                    h
                } else {
                    old(self).watermark()
                },
                None => old(self).watermark(),
            }),
            final(self).index_view() == index_txout_fold(
                index_tx_fold(
                    old(self).index_view().applied(additions.index_additions),
                    additions.graph_additions@.txs,
                ),
                additions.graph_additions@.txouts,
            ),
    {
        let ghost g0 = self.graph_view();
        let ghost w0 = self.watermark();
        let IndexedAdditions { graph_additions, index_additions, last_height } = additions;
        let ghost dtxs = graph_additions@.txs;
        let ghost dtxouts = graph_additions@.txouts;
        self.index.apply_additions(index_additions);
        let ghost i1 = self.index_view();
        let txs = graph_additions.txs();
        let mut i: usize = 0;
        while i < txs.len()
            invariant
                i <= txs.len(),
                self.graph_view() == g0,
                self.watermark() == w0,
                self.wf(),
                crate::tx_graph::reprs(txs@) == dtxs,
                self.index_view() == index_tx_fold(i1, dtxs.take(i as int)),
            decreases txs.len() - i,
        {
            proof {
                lemma_take_push(dtxs, i as int);
                assert(dtxs.take(i as int + 1).drop_last() =~= dtxs.take(i as int));
                assert(dtxs.take(i as int + 1).last() == dtxs[i as int]);
                assert(dtxs[i as int] == txs@[i as int]@);
            }
            let _ = self.index.index_tx(&txs[i]);
            i += 1;
        }
        proof {
            lemma_take_all(dtxs);
        }
        let ghost i2 = self.index_view();
        let txouts = graph_additions.txouts();
        let mut j: usize = 0;
        while j < txouts.len()
            invariant
                j <= txouts.len(),
                self.graph_view() == g0,
                self.watermark() == w0,
                self.wf(),
                txouts@ == dtxouts,
                self.index_view() == index_txout_fold(i2, dtxouts.take(j as int)),
            decreases txouts.len() - j,
        {
            proof {
                lemma_take_push(dtxouts, j as int);
                assert(dtxouts.take(j as int + 1).drop_last() =~= dtxouts.take(j as int));
                assert(dtxouts.take(j as int + 1).last() == dtxouts[j as int]);
                assert(dtxouts[j as int] == (txouts@[j as int].0, txouts@[j as int].1));
            }
            let _ = self.index.index_txout(txouts[j].0, &txouts[j].1);
            j += 1;
        }
        proof {
            lemma_take_all(dtxouts);
        }
        self.graph.apply_additions(&graph_additions);
        match last_height {
            Some(h) => {
                if self.last_height < h {
                    self.last_height = h;
                }
            },
            None => {},
        }
    }

    /// List the relevant transactions with their resolved positions; the
    /// first oracle error aborts the listing.
    pub fn try_list_chain_txs<C: ChainOracle>(&self, chain: &C) -> (r: Result<
        Vec<TxInChain>,
        C::Error,
    >)
        requires
            self.wf(),
        ensures
            r matches Ok(v) ==> v@.map_values(|x: TxInChain| x@) == spec_chain_txs(
                self.graph_view(),
                self.index_view(),
                chain.chain(),
            ),
            chain.total() ==> r is Ok,
            self.graph_view().anchors.len() == 0 ==> r is Ok,
    {
        let nodes = self.graph.full_transactions();
        let mut acc: Vec<TxInChain> = Vec::new();
        let mut i: usize = 0;
        while i < nodes.len()
            invariant
                i <= nodes.len(),
                self.wf(),
                nodes@.len() == self.graph_view().txs.len(),
                forall|k: int| 0 <= k < nodes@.len() ==> (#[trigger] nodes@[k])@ == node_repr(
                    self.graph_view(),
                    self.graph_view().txs[k],
                ),
                acc@.map_values(|x: TxInChain| x@) == chain_txs_rec(
                    self.graph_view(),
                    self.index_view(),
                    chain.chain(),
                    self.graph_view().txs.take(i as int),
                ),
            decreases nodes.len() - i,
        {
            let node = &nodes[i];
            proof {
                lemma_take_push(self.graph_view().txs, i as int);
                assert(self.graph_view().txs.take(i as int + 1).drop_last()
                    =~= self.graph_view().txs.take(i as int));
            }
            if self.index.is_tx_relevant(&node.tx) {
                let pos = match self.graph.try_get_chain_position(chain, node.tx.txid) {
                    Ok(p) => p,
                    Err(e) => {
                        return Err(e);
                    },
                };
                match pos {
                    Some(p) => {
                        let item = TxInChain { observed_in: p, tx: node.duplicate() };
                        proof {
                            assert(item@ =~= TxInChainRepr {
                                observed_in: p,
                                tx: node_repr(self.graph_view(), self.graph_view().txs[i as int]),
                            });
                        }
                        acc.push(item);
                        proof {
                            assert(acc@.map_values(|x: TxInChain| x@) =~= chain_txs_rec(
                                self.graph_view(),
                                self.index_view(),
                                chain.chain(),
                                self.graph_view().txs.take(i as int + 1),
                            ));
                        }
                    },
                    None => {
                        proof {
                            assert(acc@.map_values(|x: TxInChain| x@) =~= chain_txs_rec(
                                self.graph_view(),
                                self.index_view(),
                                chain.chain(),
                                self.graph_view().txs.take(i as int + 1),
                            ));
                        }
                    },
                }
            } else {
                proof {
                    assert(acc@.map_values(|x: TxInChain| x@) =~= chain_txs_rec(
                        self.graph_view(),
                        self.index_view(),
                        chain.chain(),
                        self.graph_view().txs.take(i as int + 1),
                    ));
                }
            }
            i += 1;
        }
        proof {
            lemma_take_all(self.graph_view().txs);
        }
        Ok(acc)
    }

    /// As [`Self::try_list_chain_txs`], for an oracle that always answers.
    pub fn list_chain_txs<C: ChainOracle>(&self, chain: &C) -> (r: Vec<TxInChain>)
        requires
            self.wf(),
            chain.total(),
        ensures
            r@.map_values(|x: TxInChain| x@) == spec_chain_txs(
                self.graph_view(),
                self.index_view(),
                chain.chain(),
            ),
    {
        match self.try_list_chain_txs(chain) {
            Ok(v) => v,
            Err(_) => vstd::pervasive::unreached(),
        }
    }

    /// List the owned outputs with their resolved positions and spends; the
    /// first oracle error aborts the listing.
    pub fn try_list_chain_txouts<C: ChainOracle>(&self, chain: &C) -> (r: Result<
        Vec<FullTxOut>,
        C::Error,
    >)
        requires
            self.wf(),
        ensures
            r matches Ok(v) ==> v@ == spec_chain_txouts(
                self.graph_view(),
                self.index_view(),
                chain.chain(),
            ),
            chain.total() ==> r is Ok,
            self.graph_view().anchors.len() == 0 ==> r is Ok,
    {
        let txouts = self.graph.all_txouts();
        let mut acc: Vec<FullTxOut> = Vec::new();
        let mut i: usize = 0;
        while i < txouts.len()
            invariant
                i <= txouts.len(),
                self.wf(),
                txouts@ == txouts_enum(self.graph_view()),
                acc@ == chain_txouts_rec(
                    self.graph_view(),
                    self.index_view(),
                    chain.chain(),
                    txouts@.take(i as int),
                ),
            decreases txouts.len() - i,
        {
            let (op, out) = txouts[i];
            proof {
                lemma_take_push(txouts@, i as int);
                assert(txouts@.take(i as int + 1).drop_last() =~= txouts@.take(i as int));
                assert(txouts@.take(i as int + 1).last() == (op, out));
            }
            if self.index.is_spk_owned(out.script_pubkey) {
                match self.graph.get_tx(op.txid) {
                    Some(node) => {
                        let is_on_coinbase = node.tx.is_coin_base();
                        let pos = match self.graph.try_get_chain_position(chain, op.txid) {
                            Ok(p) => p,
                            Err(e) => {
                                return Err(e);
                            },
                        };
                        match pos {
                            Some(chain_position) => {
                                let spent_by = match self.graph.try_get_spend_in_chain(chain, op) {
                                    Ok(s) => s,
                                    Err(e) => {
                                        return Err(e);
                                    },
                                };
                                let item = FullTxOut {
                                    outpoint: op,
                                    txout: out,
                                    chain_position,
                                    spent_by,
                                    is_on_coinbase,
                                };
                                proof {
                                    assert(item == full_txout(
                                        self.graph_view(),
                                        chain.chain(),
                                        op,
                                        out,
                                        chain_position,
                                    ));
                                }
                                acc.push(item);
                            },
                            None => {},
                        }
                    },
                    None => {},
                }
            }
            i += 1;
        }
        proof {
            lemma_take_all(txouts@);
        }
        Ok(acc)
    }

    /// As [`Self::try_list_chain_txouts`], for an oracle that always answers.
    pub fn list_chain_txouts<C: ChainOracle>(&self, chain: &C) -> (r: Vec<FullTxOut>)
        requires
            self.wf(),
            chain.total(),
        ensures
            r@ == spec_chain_txouts(self.graph_view(), self.index_view(), chain.chain()),
    {
        match self.try_list_chain_txouts(chain) {
            Ok(v) => v,
            Err(_) => vstd::pervasive::unreached(),
        }
    }

    /// List the owned outputs no resolving transaction spends; the first
    /// oracle error aborts the listing.
    pub fn try_list_chain_utxos<C: ChainOracle>(&self, chain: &C) -> (r: Result<
        Vec<FullTxOut>,
        C::Error,
    >)
        requires
            self.wf(),
        ensures
            r matches Ok(v) ==> v@ == spec_chain_utxos(
                self.graph_view(),
                self.index_view(),
                chain.chain(),
            ),
            chain.total() ==> r is Ok,
            self.graph_view().anchors.len() == 0 ==> r is Ok,
    {
        let all = match self.try_list_chain_txouts(chain) {
            Ok(v) => v,
            Err(e) => {
                return Err(e);
            },
        };
        let mut acc: Vec<FullTxOut> = Vec::new();
        proof {
            reveal(Seq::filter);
            assert(all@.take(0).filter(|f: FullTxOut| f.spent_by is None) =~= Seq::<
                FullTxOut,
            >::empty());
        }
        let mut i: usize = 0;
        while i < all.len()
            invariant
                i <= all.len(),
                acc@ == all@.take(i as int).filter(|f: FullTxOut| f.spent_by is None),
            decreases all.len() - i,
        {
            let keep = match &all[i].spent_by {
                None => true,
                Some(_) => false,
            };
            proof {
                reveal(Seq::filter);
                lemma_take_push(all@, i as int);
                assert(all@.take(i as int + 1).drop_last() =~= all@.take(i as int));
            }
            if keep {
                acc.push(all[i]);
            }
            proof {
                reveal(Seq::filter);
                assert(acc@ =~= all@.take(i as int + 1).filter(|f: FullTxOut| f.spent_by is None));
            }
            i += 1;
        }
        proof {
            lemma_take_all(all@);
        }
        Ok(acc)
    }

    /// As [`Self::try_list_chain_utxos`], for an oracle that always answers.
    pub fn list_chain_utxos<C: ChainOracle>(&self, chain: &C) -> (r: Vec<FullTxOut>)
        requires
            self.wf(),
            chain.total(),
        ensures
            r@ == spec_chain_utxos(self.graph_view(), self.index_view(), chain.chain()),
    {
        match self.try_list_chain_utxos(chain) {
            Ok(v) => v,
            Err(_) => vstd::pervasive::unreached(),
        }
    }

    /// Derive the balance buckets at `tip` over the owned unspent outputs:
    /// confirmed coinbase value counts as confirmed once mature and immature
    /// before; unconfirmed value counts as trusted or untrusted pending by
    /// the policy's word on its script. An output whose spend resolves
    /// contributes to no bucket. The sums must fit the machine word; the
    /// first oracle error aborts the derivation.
    pub fn try_balance<C: ChainOracle>(&self, chain: &C, tip: u32, should_trust: &TrustPolicy) -> (
    r: Result<Balance, C::Error>)
        requires
            self.wf(),
            spec_balance(
                self.graph_view(),
                self.index_view(),
                chain.chain(),
                should_trust@,
                tip,
            ).0 <= u64::MAX as int,
            spec_balance(
                self.graph_view(),
                self.index_view(),
                chain.chain(),
                should_trust@,
                tip,
            ).1 <= u64::MAX as int,
            spec_balance(
                self.graph_view(),
                self.index_view(),
                chain.chain(),
                should_trust@,
                tip,
            ).2 <= u64::MAX as int,
            spec_balance(
                self.graph_view(),
                self.index_view(),
                chain.chain(),
                should_trust@,
                tip,
            ).3 <= u64::MAX as int,
        ensures
            r matches Ok(b) ==> {
                let s = spec_balance(
                    self.graph_view(),
                    self.index_view(),
                    chain.chain(),
                    should_trust@,
                    tip,
                );
                b.immature == s.0 && b.trusted_pending == s.1 && b.untrusted_pending == s.2
                    && b.confirmed == s.3
            },
            chain.total() ==> r is Ok,
            self.graph_view().anchors.len() == 0 ==> r is Ok,
    {
        let txouts = match self.try_list_chain_utxos(chain) {
            Ok(v) => v,
            Err(e) => {
                return Err(e);
            },
        };
        let ghost full = spec_balance(
            self.graph_view(),
            self.index_view(),
            chain.chain(),
            should_trust@,
            tip,
        );
        let mut immature: u64 = 0;
        let mut trusted_pending: u64 = 0;
        let mut untrusted_pending: u64 = 0;
        let mut confirmed: u64 = 0;
        let mut i: usize = 0;
        while i < txouts.len()
            invariant
                i <= txouts.len(),
                balance_rec(txouts@, should_trust@, tip) == full,
                full.0 <= u64::MAX as int,
                full.1 <= u64::MAX as int,
                full.2 <= u64::MAX as int,
                full.3 <= u64::MAX as int,
                (immature as int, trusted_pending as int, untrusted_pending as int,
                confirmed as int) == balance_rec(txouts@.take(i as int), should_trust@, tip),
            decreases txouts.len() - i,
        {
            let f = txouts[i];
            proof {
                lemma_take_push(txouts@, i as int);
                assert(txouts@.take(i as int + 1).drop_last() =~= txouts@.take(i as int));
                lemma_balance_rec_take(txouts@, should_trust@, tip, i as int + 1);
            }
            match f.chain_position {
                ObservedIn::Block(_) => {
                    if f.is_on_coinbase {
                        if f.is_mature(tip) {
                            confirmed = confirmed + f.txout.value;
                        } else {
                            immature = immature + f.txout.value;
                        }
                    }
                },
                ObservedIn::Mempool(_) => {
                    if should_trust.should_trust(f.txout.script_pubkey) {
                        trusted_pending = trusted_pending + f.txout.value;
                    } else {
                        untrusted_pending = untrusted_pending + f.txout.value;
                    }
                },
            }
            i += 1;
        }
        proof {
            lemma_take_all(txouts@);
        }
        Ok(Balance { immature, trusted_pending, untrusted_pending, confirmed })
    }

    /// As [`Self::try_balance`], for an oracle that always answers.
    pub fn balance<C: ChainOracle>(&self, chain: &C, tip: u32, should_trust: &TrustPolicy) -> (r:
        Balance)
        requires
            self.wf(),
            chain.total(),
            spec_balance(
                self.graph_view(),
                self.index_view(),
                chain.chain(),
                should_trust@,
                tip,
            ).0 <= u64::MAX as int,
            spec_balance(
                self.graph_view(),
                self.index_view(),
                chain.chain(),
                should_trust@,
                tip,
            ).1 <= u64::MAX as int,
            spec_balance(
                self.graph_view(),
                self.index_view(),
                chain.chain(),
                should_trust@,
                tip,
            ).2 <= u64::MAX as int,
            spec_balance(
                self.graph_view(),
                self.index_view(),
                chain.chain(),
                should_trust@,
                tip,
            ).3 <= u64::MAX as int,
        ensures
            ({
                let s = spec_balance(
                    self.graph_view(),
                    self.index_view(),
                    chain.chain(),
                    should_trust@,
                    tip,
                );
                r.immature == s.0 && r.trusted_pending == s.1 && r.untrusted_pending == s.2
                    && r.confirmed == s.3
            }),
    {
        match self.try_balance(chain, tip, should_trust) {
            Ok(b) => b,
            Err(_) => vstd::pervasive::unreached(),
        }
    }

    /// Sum the value of every owned output spendable at `height`: confirmed
    /// at or before it, mature by it if coinbase, and not spent by a
    /// transaction confirmed at or before it. The sum must fit the machine
    /// word; the first oracle error aborts the derivation.
    pub fn try_balance_at<C: ChainOracle>(&self, chain: &C, height: u32) -> (r: Result<
        u64,
        C::Error,
    >)
        requires
            self.wf(),
            spec_balance_at(self.graph_view(), self.index_view(), chain.chain(), height)
                <= u64::MAX as int,
        ensures
            r matches Ok(v) ==> v as int == spec_balance_at(
                self.graph_view(),
                self.index_view(),
                chain.chain(),
                height,
            ),
            chain.total() ==> r is Ok,
            self.graph_view().anchors.len() == 0 ==> r is Ok,
    {
        let txouts = match self.try_list_chain_txouts(chain) {
            Ok(v) => v,
            Err(e) => {
                return Err(e);
            },
        };
        let ghost full = spec_balance_at(
            self.graph_view(),
            self.index_view(),
            chain.chain(),
            height,
        );
        let mut sum: u64 = 0;
        let mut i: usize = 0;
        while i < txouts.len()
            invariant
                i <= txouts.len(),
                balance_at_rec(txouts@, height) == full,
                full <= u64::MAX as int,
                sum as int == balance_at_rec(txouts@.take(i as int), height),
            decreases txouts.len() - i,
        {
            let f = txouts[i];
            proof {
                lemma_take_push(txouts@, i as int);
                assert(txouts@.take(i as int + 1).drop_last() =~= txouts@.take(i as int));
                lemma_balance_at_rec_take(txouts@, height, i as int + 1);
            }
            if f.is_spendable_at(height) {
                sum = sum + f.txout.value;
            }
            i += 1;
        }
        proof {
            lemma_take_all(txouts@);
        }
        Ok(sum)
    }

    /// As [`Self::try_balance_at`], for an oracle that always answers.
    pub fn balance_at<C: ChainOracle>(&self, chain: &C, height: u32) -> (r: u64)
        requires
            self.wf(),
            chain.total(),
            spec_balance_at(self.graph_view(), self.index_view(), chain.chain(), height)
                <= u64::MAX as int,
        ensures
            r as int == spec_balance_at(
                self.graph_view(),
                self.index_view(),
                chain.chain(),
                height,
            ),
    {
        match self.try_balance_at(chain, height) {
            Ok(v) => v,
            Err(_) => vstd::pervasive::unreached(),
        }
    }
}

/// An outwards-facing view of a transaction that is part of the best
/// chain's history: where it was observed, and the transaction with its
/// anchors and latest sighting.
pub struct TxInChain {
    /// Where the transaction is observed (in a block or in mempool).
    pub observed_in: ObservedIn,
    /// The transaction with anchors and last seen timestamp.
    pub tx: TxNode,
}

/// Mathematical image of a [`TxInChain`].
#[verifier::ext_equal]
pub struct TxInChainRepr {
    /// Where the transaction is observed.
    pub observed_in: ObservedIn,
    /// Image of the transaction node.
    pub tx: TxNodeRepr,
}

impl View for TxInChain {
    type V = TxInChainRepr;

    open spec fn view(&self) -> TxInChainRepr {
        TxInChainRepr { observed_in: self.observed_in, tx: self.tx@ }
    }
}

/// The fully resolved output for an outpoint whose position resolved to `p`.
pub open spec fn full_txout(
    g: StoreRepr,
    chain: Map<u32, u64>,
    op: OutPoint,
    out: TxOut,
    p: ObservedIn,
) -> FullTxOut {
    FullTxOut {
        outpoint: op,
        txout: out,
        chain_position: p,
        spent_by: spec_spend(g, chain, op),
        is_on_coinbase: spec_is_coinbase(g.tx_map()[op.txid]),
    }
}

/// Resolution of a list of outputs: keep those on an owned script whose
/// transaction is stored and whose position resolves, each with its spend.
pub open spec fn chain_txouts_rec<I: TxIndex>(
    g: StoreRepr,
    index: I,
    chain: Map<u32, u64>,
    s: Seq<(OutPoint, TxOut)>,
) -> Seq<FullTxOut>
    decreases s.len(),
{
    if s.len() == 0 {
        Seq::empty()
    } else {
        let rest = chain_txouts_rec(g, index, chain, s.drop_last());
        if index.spk_owned(s.last().1.script_pubkey) && g.tx_map().dom().contains(s.last().0.txid) {
            match spec_position(g, chain, s.last().0.txid) {
                Some(p) => rest.push(full_txout(g, chain, s.last().0, s.last().1, p)),
                None => rest,
            }
        } else {
            rest
        }
    }
}

/// What listing the chain-resolved outputs returns.
pub open spec fn spec_chain_txouts<I: TxIndex>(g: StoreRepr, index: I, chain: Map<u32, u64>) -> Seq<
    FullTxOut,
> {
    chain_txouts_rec(g, index, chain, txouts_enum(g))
}

/// What listing the unspent chain-resolved outputs returns: those with no
/// resolving spender.
pub open spec fn spec_chain_utxos<I: TxIndex>(g: StoreRepr, index: I, chain: Map<u32, u64>) -> Seq<
    FullTxOut,
> {
    spec_chain_txouts(g, index, chain).filter(|f: FullTxOut| f.spent_by is None)
}

/// Resolution of a list of transactions: keep the relevant ones whose
/// position resolves.
pub open spec fn chain_txs_rec<I: TxIndex>(
    g: StoreRepr,
    index: I,
    chain: Map<u32, u64>,
    s: Seq<TxRepr>,
) -> Seq<TxInChainRepr>
    decreases s.len(),
{
    if s.len() == 0 {
        Seq::empty()
    } else {
        let rest = chain_txs_rec(g, index, chain, s.drop_last());
        if index.tx_relevant(s.last()) {
            match spec_position(g, chain, s.last().txid) {
                Some(p) => rest.push(TxInChainRepr { observed_in: p, tx: node_repr(g, s.last()) }),
                None => rest,
            }
        } else {
            rest
        }
    }
}

/// What listing the chain-resolved relevant transactions returns.
pub open spec fn spec_chain_txs<I: TxIndex>(g: StoreRepr, index: I, chain: Map<u32, u64>) -> Seq<
    TxInChainRepr,
> {
    chain_txs_rec(g, index, chain, g.txs)
}

/// Balance buckets of a list of resolved outputs, as unbounded integers:
/// (immature, trusted pending, untrusted pending, confirmed). Confirmed
/// coinbase value lands in `confirmed` once mature at `tip` and in
/// `immature` before; unconfirmed value lands in the pending bucket its
/// script's trust decides.
pub open spec fn balance_rec(s: Seq<FullTxOut>, trusted: Seq<u64>, tip: u32) -> (int, int, int, int)
    decreases s.len(),
{
    if s.len() == 0 {
        (0int, 0int, 0int, 0int)
    } else {
        let b = balance_rec(s.drop_last(), trusted, tip);
        let f = s.last();
        match f.chain_position {
            ObservedIn::Block(_) => if f.is_on_coinbase {
                if spec_is_mature(f, tip) {
                    (b.0, b.1, b.2, b.3 + f.txout.value)
                } else {
                    (b.0 + f.txout.value, b.1, b.2, b.3)
                }
            } else {
                b
            },
            ObservedIn::Mempool(_) => if trusted.contains(f.txout.script_pubkey) {
                (b.0, b.1 + f.txout.value, b.2, b.3)
            } else {
                (b.0, b.1, b.2 + f.txout.value, b.3)
            },
        }
    }
}

/// What the balance query returns, before the machine-width bound: only the
/// unspent owned outputs are tallied.
pub open spec fn spec_balance<I: TxIndex>(
    g: StoreRepr,
    index: I,
    chain: Map<u32, u64>,
    trusted: Seq<u64>,
    tip: u32,
) -> (int, int, int, int) {
    balance_rec(spec_chain_utxos(g, index, chain), trusted, tip)
}

/// Total value of the resolved outputs spendable at `height`.
pub open spec fn balance_at_rec(s: Seq<FullTxOut>, height: u32) -> int
    decreases s.len(),
{
    if s.len() == 0 {
        0int
    } else {
        balance_at_rec(s.drop_last(), height) + if spec_is_spendable_at(s.last(), height) {
            s.last().txout.value as int
        } else {
            0int
        }
    }
}

/// What the height-pinned balance query returns, before the machine-width
/// bound.
pub open spec fn spec_balance_at<I: TxIndex>(
    g: StoreRepr,
    index: I,
    chain: Map<u32, u64>,
    height: u32,
) -> int {
    balance_at_rec(spec_chain_txouts(g, index, chain), height)
}

/// Balance buckets never shrink along a prefix: the buckets of a prefix are
/// bounded by the buckets of the whole list, and never negative.
proof fn lemma_balance_rec_take(s: Seq<FullTxOut>, trusted: Seq<u64>, tip: u32, i: int)
    requires
        0 <= i <= s.len(),
    ensures
        0 <= balance_rec(s.take(i), trusted, tip).0 <= balance_rec(s, trusted, tip).0,
        0 <= balance_rec(s.take(i), trusted, tip).1 <= balance_rec(s, trusted, tip).1,
        0 <= balance_rec(s.take(i), trusted, tip).2 <= balance_rec(s, trusted, tip).2,
        0 <= balance_rec(s.take(i), trusted, tip).3 <= balance_rec(s, trusted, tip).3,
    decreases s.len() - i,
{
    lemma_balance_rec_nonneg(s.take(i), trusted, tip);
    if i == s.len() {
        lemma_take_all(s);
    } else {
        lemma_balance_rec_take(s, trusted, tip, i + 1);
        lemma_take_push(s, i);
        assert(s.take(i + 1).drop_last() =~= s.take(i));
    }
}

/// Balance buckets are never negative.
proof fn lemma_balance_rec_nonneg(s: Seq<FullTxOut>, trusted: Seq<u64>, tip: u32)
    ensures
        0 <= balance_rec(s, trusted, tip).0,
        0 <= balance_rec(s, trusted, tip).1,
        0 <= balance_rec(s, trusted, tip).2,
        0 <= balance_rec(s, trusted, tip).3,
    decreases s.len(),
{
    if s.len() > 0 {
        lemma_balance_rec_nonneg(s.drop_last(), trusted, tip);
    }
}

/// The spendable sum of a prefix is bounded by the sum of the whole list,
/// and never negative.
proof fn lemma_balance_at_rec_take(s: Seq<FullTxOut>, height: u32, i: int)
    requires
        0 <= i <= s.len(),
    ensures
        0 <= balance_at_rec(s.take(i), height) <= balance_at_rec(s, height),
    decreases s.len() - i,
{
    lemma_balance_at_rec_nonneg(s.take(i), height);
    if i == s.len() {
        lemma_take_all(s);
    } else {
        lemma_balance_at_rec_take(s, height, i + 1);
        lemma_take_push(s, i);
        assert(s.take(i + 1).drop_last() =~= s.take(i));
    }
}

/// The spendable sum is never negative.
proof fn lemma_balance_at_rec_nonneg(s: Seq<FullTxOut>, height: u32)
    ensures
        0 <= balance_at_rec(s, height),
    decreases s.len(),
{
    if s.len() > 0 {
        lemma_balance_at_rec_nonneg(s.drop_last(), height);
    }
}

impl<I: TxIndex + Default> Default for IndexedTxGraph<I> {
    fn default() -> (r: Self)
        ensures
            r.graph_view() == StoreRepr::empty(),
            r.wf(),
            r.watermark() == 0,
    {
        IndexedTxGraph::new(I::default())
    }
}

/// Effect of recording a floating output on the order-free graph state.
pub open spec fn insert_txout_maps(s: GraphState, op: OutPoint, out: TxOut) -> GraphState {
    if s.txouts.dom().contains(op) {
        s
    } else {
        GraphState { txouts: s.txouts.insert(op, out), ..s }
    }
}

/// The marginal diff of recording a floating output.
pub open spec fn insert_txout_diff(s: GraphState, op: OutPoint, out: TxOut) -> GraphState {
    if s.txouts.dom().contains(op) {
        empty_state()
    } else {
        GraphState { txouts: Map::empty().insert(op, out), ..empty_state() }
    }
}

/// The content of the empty store is the empty state.
pub proof fn lemma_empty_state()
    ensures
        StoreRepr::empty().state() == empty_state(),
{
    assert(crate::tx_graph::tx_pairs(StoreRepr::empty().txs) =~= Seq::<(u64, TxRepr)>::empty());
    assert(StoreRepr::empty().anchor_set() =~= Set::<(u64, BlockId)>::empty()) by {
        assert(forall|x: (u64, BlockId)| !StoreRepr::empty().anchors.contains(x));
    }
    assert(StoreRepr::empty().state() =~= empty_state());
}

/// The content of a diff holding one transaction.
pub proof fn lemma_single_tx_state(t: TxRepr)
    ensures
        (StoreRepr { txs: seq![t], ..StoreRepr::empty() }).state() == (GraphState {
            txs: Map::empty().insert(t.txid, t),
            ..empty_state()
        }),
{
    lemma_empty_state();
    let r = StoreRepr { txs: seq![t], ..StoreRepr::empty() };
    assert(crate::tx_graph::tx_pairs(r.txs) =~= seq![(t.txid, t)]);
    assert(seq![(t.txid, t)].drop_last() =~= Seq::<(u64, TxRepr)>::empty());
    assert(crate::kv::map_of(Seq::<(u64, TxRepr)>::empty()) == Map::<u64, TxRepr>::empty());
    assert(r.tx_map() =~= Map::empty().insert(t.txid, t));
    assert(r.state() =~= (GraphState { txs: Map::empty().insert(t.txid, t), ..empty_state() }));
}

/// The content of a diff holding one floating output.
pub proof fn lemma_single_txout_state(op: OutPoint, out: TxOut)
    ensures
        (StoreRepr { txouts: seq![(op, out)], ..StoreRepr::empty() }).state() == (GraphState {
            txouts: Map::empty().insert(op, out),
            ..empty_state()
        }),
{
    lemma_empty_state();
    let r = StoreRepr { txouts: seq![(op, out)], ..StoreRepr::empty() };
    assert(seq![(op, out)].drop_last() =~= Seq::<(OutPoint, TxOut)>::empty());
    assert(r.state() =~= (GraphState { txouts: Map::empty().insert(op, out), ..empty_state() }));
}

/// The content of a diff holding one anchor claim or one sighting.
pub proof fn lemma_single_observe_state(txid: u64, obs: ObservedIn)
    ensures
        obs matches ObservedIn::Block(b) ==> (StoreRepr {
            anchors: seq![(txid, b)],
            ..StoreRepr::empty()
        }).state() == (GraphState {
            anchors: Set::empty().insert((txid, b)),
            ..empty_state()
        }),
        obs matches ObservedIn::Mempool(t) ==> (StoreRepr {
            last_seen: seq![(txid, t)],
            ..StoreRepr::empty()
        }).state() == (GraphState { seen: Map::empty().insert(txid, t), ..empty_state() }),
{
    lemma_empty_state();
    match obs {
        ObservedIn::Block(b) => {
            let r = StoreRepr { anchors: seq![(txid, b)], ..StoreRepr::empty() };
            assert(r.anchor_set() =~= Set::empty().insert((txid, b))) by {
                assert(r.anchors[0] == (txid, b));
                assert(r.anchors.contains((txid, b)));
                assert forall|x: (u64, BlockId)| r.anchors.contains(x) implies x == (txid, b) by {
                    let j = choose|j: int| 0 <= j < r.anchors.len() && r.anchors[j] == x;
                }
            }
            assert(r.state() =~= (GraphState {
                anchors: Set::empty().insert((txid, b)),
                ..empty_state()
            }));
        },
        ObservedIn::Mempool(t) => {
            let r = StoreRepr { last_seen: seq![(txid, t)], ..StoreRepr::empty() };
            assert(seq![(txid, t)].drop_last() =~= Seq::<(u64, u64)>::empty());
            assert(r.state() =~= (GraphState {
                seen: Map::empty().insert(txid, t),
                ..empty_state()
            }));
        },
    }
}

} // verus!
