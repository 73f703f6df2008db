//! Append-only store of observed transactions, outputs, anchors and
//! mempool-seen timestamps, with its mergeable diff type.
//!
//! Every mutation returns the marginal [`Additions`] actually applied, and
//! applying a diff merges it into the state. At the level of the denoted
//! maps the merge is: transactions and floating outputs keep the first
//! recorded value, anchors accumulate as a set, and seen-timestamps keep the
//! latest. That merge is idempotent, and commutative where two diffs agree
//! on shared keys, which is what makes replaying a persisted diff stream
//! safe.

use vstd::prelude::*;
use crate::types::{OutPoint, TxOut, Transaction, TxRepr, BlockId, ObservedIn};
use crate::kv::{map_of, keys_unique, lemma_map_of_contains, lemma_map_of_push, lemma_map_of_update,
    lemma_take_push, lemma_take_all};
use vstd::map_lib::lemma_union_insert_left;
use crate::oracle::ChainOracle;

verus! {

/// Mathematical images of the stored transactions, in store order.
pub open spec fn reprs(s: Seq<Transaction>) -> Seq<TxRepr> {
    s.map_values(|t: Transaction| t@)
}

/// The stored transactions keyed by their id.
pub open spec fn tx_pairs(s: Seq<TxRepr>) -> Seq<(u64, TxRepr)> {
    s.map_values(|t: TxRepr| (t.txid, t))
}

/// Everything a store or a diff holds, as sequences in store order.
#[verifier::ext_equal]
pub struct StoreRepr {
    /// Whole transactions, in insertion order.
    pub txs: Seq<TxRepr>,
    /// Floating outputs recorded without their transaction, in insertion order.
    pub txouts: Seq<(OutPoint, TxOut)>,
    /// Anchor claims, as (transaction id, block) pairs, in insertion order.
    pub anchors: Seq<(u64, BlockId)>,
    /// Latest mempool-seen timestamp per transaction id, in insertion order.
    pub last_seen: Seq<(u64, u64)>,
}

/// The order-free content of a store or diff: what merging preserves.
#[verifier::ext_equal]
pub struct GraphState {
    /// Transactions by id.
    pub txs: Map<u64, TxRepr>,
    /// Floating outputs by outpoint.
    pub txouts: Map<OutPoint, TxOut>,
    /// The set of anchor claims.
    pub anchors: Set<(u64, BlockId)>,
    /// Latest seen-timestamp by transaction id.
    pub seen: Map<u64, u64>,
}

/// Pointwise maximum of two timestamp maps.
pub open spec fn max_merge(a: Map<u64, u64>, b: Map<u64, u64>) -> Map<u64, u64> {
    Map::new(
        |k: u64| a.dom().contains(k) || b.dom().contains(k),
        |k: u64|
            if a.dom().contains(k) && b.dom().contains(k) {
                if a[k] >= b[k] {
                    a[k]
                } else {
                    b[k]
                }
            } else if a.dom().contains(k) {
                a[k]
            } else {
                b[k]
            },
    )
}

impl GraphState {
    /// State after merging the facts of `d` into `self`: transactions and
    /// floating outputs already present keep their first recorded value,
    /// anchors accumulate, seen-timestamps keep the latest.
    pub open spec fn merged(self, d: GraphState) -> GraphState {
        GraphState {
            txs: d.txs.union_prefer_right(self.txs),
            txouts: d.txouts.union_prefer_right(self.txouts),
            anchors: self.anchors.union(d.anchors),
            seen: max_merge(self.seen, d.seen),
        }
    }
}

impl StoreRepr {
    /// Stored transactions keyed by id.
    pub open spec fn tx_map(self) -> Map<u64, TxRepr> {
        map_of(tx_pairs(self.txs))
    }

    /// Floating outputs keyed by outpoint.
    pub open spec fn txout_map(self) -> Map<OutPoint, TxOut> {
        map_of(self.txouts)
    }

    /// The set of anchor claims.
    pub open spec fn anchor_set(self) -> Set<(u64, BlockId)> {
        self.anchors.to_set()
    }

    /// Latest seen-timestamp per transaction id.
    pub open spec fn seen_map(self) -> Map<u64, u64> {
        map_of(self.last_seen)
    }

    /// The order-free content.
    pub open spec fn state(self) -> GraphState {
        GraphState {
            txs: self.tx_map(),
            txouts: self.txout_map(),
            anchors: self.anchor_set(),
            seen: self.seen_map(),
        }
    }

    /// Each kind of fact is recorded at most once.
    pub open spec fn wf(self) -> bool {
        &&& keys_unique(tx_pairs(self.txs))
        &&& keys_unique(self.txouts)
        &&& self.anchors.no_duplicates()
        &&& keys_unique(self.last_seen)
    }

    /// The content of a fresh store.
    pub open spec fn empty() -> StoreRepr {
        StoreRepr {
            txs: Seq::empty(),
            txouts: Seq::empty(),
            anchors: Seq::empty(),
            last_seen: Seq::empty(),
        }
    }
}

/// Keep the diff transactions whose id the store does not hold yet.
pub open spec fn keeps_tx(g: StoreRepr) -> spec_fn(TxRepr) -> bool {
    |t: TxRepr| !g.tx_map().dom().contains(t.txid)
}

/// Keep the diff outputs whose outpoint the store does not hold yet.
pub open spec fn keeps_txout(g: StoreRepr) -> spec_fn((OutPoint, TxOut)) -> bool {
    |p: (OutPoint, TxOut)| !g.txout_map().dom().contains(p.0)
}

/// Keep the diff anchor claims the store does not hold yet.
pub open spec fn keeps_anchor(g: StoreRepr) -> spec_fn((u64, BlockId)) -> bool {
    |q: (u64, BlockId)| !g.anchor_set().contains(q)
}

/// Shared backing of the graph store and of its diff: four fact lists.

pub(crate) struct Store {
    pub(crate) txs: Vec<Transaction>,
    pub(crate) txouts: Vec<(OutPoint, TxOut)>,
    pub(crate) anchors: Vec<(u64, BlockId)>,
    pub(crate) last_seen: Vec<(u64, u64)>,
}

impl View for Store {
    type V = StoreRepr;

    closed spec fn view(&self) -> StoreRepr {
        StoreRepr {
            txs: reprs(self.txs@),
            txouts: self.txouts@,
            anchors: self.anchors@,
            last_seen: self.last_seen@,
        }
    }
}

/// A copy of the transaction with the same mathematical image.
fn clone_tx(t: &Transaction) -> (r: Transaction)
    ensures
        r@ == t@,
{
    let mut inputs: Vec<OutPoint> = Vec::new();
    let mut i: usize = 0;
    while i < t.inputs.len()
        invariant
            i <= t.inputs.len(),
            inputs@ == t.inputs@.take(i as int),
        decreases t.inputs.len() - i,
    {
        inputs.push(t.inputs[i]);
        proof {
            lemma_take_push(t.inputs@, i as int);
        }
        i += 1;
    }
    let mut outputs: Vec<TxOut> = Vec::new();
    let mut j: usize = 0;
    while j < t.outputs.len()
        invariant
            j <= t.outputs.len(),
            outputs@ == t.outputs@.take(j as int),
        decreases t.outputs.len() - j,
    {
        outputs.push(t.outputs[j]);
        proof {
            lemma_take_push(t.outputs@, j as int);
        }
        j += 1;
    }
    proof {
        lemma_take_all(t.inputs@);
        lemma_take_all(t.outputs@);
    }
    let r = Transaction { txid: t.txid, inputs, outputs };
    proof {
        assert(r@ =~= t@);
    }
    r
}

impl Store {
    fn new() -> (r: Self)
        ensures
            r@ == StoreRepr::empty(),
            r@.wf(),
    {
        let r = Store { txs: Vec::new(), txouts: Vec::new(), anchors: Vec::new(), last_seen: Vec::new() };
        proof {
            assert(r@ =~= StoreRepr::empty());
        }
        r
    }

    /// Whether a transaction with this id is stored.
    fn contains_tx(&self, txid: u64) -> (r: bool)
        ensures
            r == self@.tx_map().dom().contains(txid),
    {
        let mut i: usize = 0;
        while i < self.txs.len()
            invariant
                i <= self.txs.len(),
                forall|j: int| 0 <= j < i ==> (#[trigger] self.txs@[j]).txid != txid,
        decreases self.txs.len() - i,
        {
            if self.txs[i].txid == txid {
                proof {
                    lemma_map_of_contains(tx_pairs(self@.txs), txid);
                    assert(tx_pairs(self@.txs)[i as int].0 == txid);
                }
                return true;
            }
            i += 1;
        }
        proof {
            lemma_map_of_contains(tx_pairs(self@.txs), txid);
        }
        assert forall|j: int| 0 <= j < tx_pairs(self@.txs).len() implies (#[trigger] tx_pairs(
            self@.txs,
        )[j]).0 != txid by {
            assert(self.txs@[j].txid != txid);
        }
        false
    }

    /// Record the transaction unless its id is already stored; say whether it
    /// was new.
    fn insert_tx(&mut self, tx: &Transaction) -> (added: bool)
        requires
            old(self)@.wf(),
        ensures
            final(self)@.wf(),
            added == !old(self)@.tx_map().dom().contains(tx.txid),
            !added ==> final(self)@ == old(self)@,
            added ==> final(self)@ == (StoreRepr {
                txs: old(self)@.txs.push(tx@),
                ..old(self)@
            }),
            added ==> final(self)@.tx_map() == old(self)@.tx_map().insert(tx.txid, tx@),
    {
        if self.contains_tx(tx.txid) {
            proof {
                assert(final(self)@ =~= old(self)@);
            }
            return false;
        }
        self.txs.push(clone_tx(tx));
        proof {
            let s0 = old(self)@.txs;
            assert(reprs(self.txs@) =~= s0.push(tx@));
            assert(final(self)@ =~= (StoreRepr { txs: s0.push(tx@), ..old(self)@ }));
            assert(tx_pairs(s0.push(tx@)) =~= tx_pairs(s0).push((tx.txid, tx@)));
            lemma_map_of_push(tx_pairs(s0), tx.txid, tx@);
            lemma_map_of_contains(tx_pairs(s0), tx.txid);
            assert(keys_unique(tx_pairs(s0).push((tx.txid, tx@)))) by {
                assert(forall|j: int| 0 <= j < tx_pairs(s0).len() ==> (#[trigger] tx_pairs(
                    s0,
                )[j]).0 != tx.txid);
            }
        }
        true
    }

    /// Whether a floating output is recorded at this outpoint.
    fn contains_txout(&self, outpoint: OutPoint) -> (r: bool)
        ensures
            r == self@.txout_map().dom().contains(outpoint),
    {
        let mut i: usize = 0;
        while i < self.txouts.len()
            invariant
                i <= self.txouts.len(),
                forall|j: int| 0 <= j < i ==> (#[trigger] self.txouts@[j]).0 != outpoint,
            decreases self.txouts.len() - i,
        {
            if self.txouts[i].0 == outpoint {
                proof {
                    lemma_map_of_contains(self@.txouts, outpoint);
                    assert((#[trigger] self@.txouts[i as int]).0 == outpoint);
                }
                return true;
            }
            i += 1;
        }
        proof {
            lemma_map_of_contains(self@.txouts, outpoint);
        }
        false
    }

    /// Record a floating output unless its outpoint is already recorded.
    fn insert_txout(&mut self, outpoint: OutPoint, txout: TxOut) -> (added: bool)
        requires
            old(self)@.wf(),
        ensures
            final(self)@.wf(),
            added == !old(self)@.txout_map().dom().contains(outpoint),
            !added ==> final(self)@ == old(self)@,
            added ==> final(self)@ == (StoreRepr {
                txouts: old(self)@.txouts.push((outpoint, txout)),
                ..old(self)@
            }),
            added ==> final(self)@.txout_map() == old(self)@.txout_map().insert(outpoint, txout),
    {
        if self.contains_txout(outpoint) {
            proof {
                assert(final(self)@ =~= old(self)@);
            }
            return false;
        }
        self.txouts.push((outpoint, txout));
        proof {
            assert(final(self)@ =~= (StoreRepr {
                txouts: old(self)@.txouts.push((outpoint, txout)),
                ..old(self)@
            }));
            lemma_map_of_push(old(self)@.txouts, outpoint, txout);
            lemma_map_of_contains(old(self)@.txouts, outpoint);
        }
        true
    }

    /// Whether this anchor claim is recorded.
    fn contains_anchor(&self, txid: u64, anchor: BlockId) -> (r: bool)
        ensures
            r == self@.anchor_set().contains((txid, anchor)),
    {
        let mut i: usize = 0;
        while i < self.anchors.len()
            invariant
                i <= self.anchors.len(),
                forall|j: int| 0 <= j < i ==> (#[trigger] self.anchors@[j]) != (txid, anchor),
            decreases self.anchors.len() - i,
        {
            if self.anchors[i].0 == txid && self.anchors[i].1 == anchor {
                assert(self.anchors@[i as int] == (txid, anchor));
                assert(self@.anchors.contains((txid, anchor)));
                return true;
            }
            i += 1;
        }
        assert(!self@.anchors.contains((txid, anchor)));
        false
    }

    /// Record an anchor claim unless it is already recorded.
    fn insert_anchor(&mut self, txid: u64, anchor: BlockId) -> (added: bool)
        requires
            old(self)@.wf(),
        ensures
            final(self)@.wf(),
            added == !old(self)@.anchor_set().contains((txid, anchor)),
            !added ==> final(self)@ == old(self)@,
            added ==> final(self)@ == (StoreRepr {
                anchors: old(self)@.anchors.push((txid, anchor)),
                ..old(self)@
            }),
            added ==> final(self)@.anchor_set() == old(self)@.anchor_set().insert((txid, anchor)),
    {
        if self.contains_anchor(txid, anchor) {
            proof {
                assert(final(self)@ =~= old(self)@);
            }
            return false;
        }
        self.anchors.push((txid, anchor));
        proof {
            assert(final(self)@ =~= (StoreRepr {
                anchors: old(self)@.anchors.push((txid, anchor)),
                ..old(self)@
            }));
            old(self)@.anchors.lemma_push_to_set_commute((txid, anchor));
            assert(final(self)@.anchor_set() =~= old(self)@.anchor_set().insert((txid, anchor)));
        }
        true
    }

    /// Index of a seen-timestamp entry for this id, under unique keys.
    fn find_seen(&self, txid: u64) -> (r: Option<usize>)
        requires
            self@.wf(),
        ensures
            match r {
                Some(i) => i < self@.last_seen.len() && self@.last_seen[i as int].0 == txid
                    && self@.seen_map().dom().contains(txid) && self@.seen_map()[txid]
                    == self@.last_seen[i as int].1,
                None => !self@.seen_map().dom().contains(txid),
            },
    {
        let mut i: usize = 0;
        while i < self.last_seen.len()
            invariant
                i <= self.last_seen.len(),
                self@.wf(),
                forall|j: int| 0 <= j < i ==> (#[trigger] self.last_seen@[j]).0 != txid,
            decreases self.last_seen.len() - i,
        {
            if self.last_seen[i].0 == txid {
                proof {
                    lemma_map_of_contains(self@.last_seen, txid);
                    assert((#[trigger] self@.last_seen[i as int]).0 == txid);
                }
                return Some(i);
            }
            i += 1;
        }
        proof {
            lemma_map_of_contains(self@.last_seen, txid);
        }
        None
    }

    /// Record that the transaction was seen at `seen_at`; a timestamp at or
    /// below the recorded one changes nothing.
    fn insert_seen(&mut self, txid: u64, seen_at: u64) -> (raised: bool)
        requires
            old(self)@.wf(),
        ensures
            final(self)@.wf(),
            raised == (!old(self)@.seen_map().dom().contains(txid) || old(self)@.seen_map()[txid]
                < seen_at),
            !raised ==> final(self)@ == old(self)@,
            raised ==> final(self)@.seen_map() == old(self)@.seen_map().insert(txid, seen_at)
                && final(self)@.txs == old(self)@.txs && final(self)@.txouts == old(self)@.txouts
                && final(self)@.anchors == old(self)@.anchors,
            raised && !old(self)@.seen_map().dom().contains(txid) ==> final(self)@.last_seen
                == old(self)@.last_seen.push((txid, seen_at)),
            raised && old(self)@.seen_map().dom().contains(txid) ==> exists|i: int|
                0 <= i < old(self)@.last_seen.len() && (#[trigger] old(self)@.last_seen[i]).0
                    == txid && final(self)@.last_seen == old(self)@.last_seen.update(
                    i,
                    (txid, seen_at),
                ),
    {
        match self.find_seen(txid) {
            Some(i) => {
                if self.last_seen[i].1 >= seen_at {
                    proof {
                        assert(final(self)@ =~= old(self)@);
                    }
                    false
                } else {
                    self.last_seen[i] = (txid, seen_at);
                    proof {
                        lemma_map_of_update(old(self)@.last_seen, i as int, seen_at);
                        assert((#[trigger] old(self)@.last_seen[i as int]).0 == txid
                            && self@.last_seen == old(self)@.last_seen.update(
                            i as int,
                            (txid, seen_at),
                        ));
                    }
                    true
                }
            },
            None => {
                self.last_seen.push((txid, seen_at));
                proof {
                    lemma_map_of_push(old(self)@.last_seen, txid, seen_at);
                    lemma_map_of_contains(old(self)@.last_seen, txid);
                }
                true
            },
        }
    }

    /// Merge every fact of `other` into `self`.
    fn merge_from(&mut self, other: &Store)
        requires
            old(self)@.wf(),
            other@.wf(),
        ensures
            final(self)@.wf(),
            final(self)@.state() == old(self)@.state().merged(other@.state()),
            final(self)@.txs == old(self)@.txs + other@.txs.filter(
                keeps_tx(old(self)@),
            ),
            final(self)@.txouts == old(self)@.txouts + other@.txouts.filter(
                keeps_txout(old(self)@),
            ),
            final(self)@.anchors == old(self)@.anchors + other@.anchors.filter(
                keeps_anchor(old(self)@),
            ),
    {
        let ghost base = old(self)@;
        proof {
            reveal(Seq::filter);
            assert(reprs(other.txs@.take(0)) =~= Seq::<TxRepr>::empty());
            assert(self@.txs =~= base.txs + reprs(other.txs@.take(0)).filter(
                keeps_tx(old(self)@),
            ));
        }
        let mut i: usize = 0;
        while i < other.txs.len()
            invariant
                base == old(self)@,
                i <= other.txs.len(),
                self@.wf(),
                other@.wf(),
                self@.tx_map() == map_of(tx_pairs(reprs(other.txs@.take(i as int))))
                    .union_prefer_right(base.tx_map()),
                self@.txs == base.txs + reprs(other.txs@.take(i as int)).filter(
                    keeps_tx(old(self)@),
                ),
                self@.txouts == base.txouts,
                self@.anchors == base.anchors,
                self@.last_seen == base.last_seen,
            decreases other.txs.len() - i,
        {
            let ghost pre = map_of(tx_pairs(reprs(other.txs@.take(i as int))));
            let ghost k = other.txs@[i as int].txid;
            let ghost v = other.txs@[i as int]@;
            proof {
                lemma_take_push(other.txs@, i as int);
                assert(reprs(other.txs@.take(i as int + 1)) =~= reprs(other.txs@.take(i as int))
                    .push(v));
                assert(tx_pairs(reprs(other.txs@.take(i as int + 1))) =~= tx_pairs(reprs(
                    other.txs@.take(i as int),
                )).push((k, v)));
                lemma_map_of_push(tx_pairs(reprs(other.txs@.take(i as int))), k, v);
                // the diff's keys are unique, so k is not in the prefix map
                lemma_map_of_contains(tx_pairs(reprs(other.txs@.take(i as int))), k);
                assert forall|j: int| 0 <= j < tx_pairs(reprs(other.txs@.take(i as int))).len()
                    implies (#[trigger] tx_pairs(reprs(other.txs@.take(i as int)))[j]).0 != k by {
                    assert(tx_pairs(reprs(other.txs@))[j].0 == tx_pairs(reprs(other.txs@.take(
                        i as int,
                    )))[j].0);
                    assert(tx_pairs(reprs(other.txs@))[i as int].0 == k);
                }
            }
            let added = self.insert_tx(&other.txs[i]);
            proof {
                if added {
                    lemma_union_insert_left(pre, base.tx_map(), k, v);
                } else {
                    assert(pre.insert(k, v).union_prefer_right(base.tx_map()) =~= pre
                        .union_prefer_right(base.tx_map()));
                }
                reveal(Seq::filter);
                assert(pre.union_prefer_right(base.tx_map()).dom().contains(k) == (pre.dom()
                    .contains(k) || base.tx_map().dom().contains(k))) by {
                    broadcast use vstd::map_lib::lemma_union_dom;
                }
                assert(added == !base.tx_map().dom().contains(k));
                assert(reprs(other.txs@.take(i as int + 1)).drop_last() =~= reprs(
                    other.txs@.take(i as int),
                ));
                assert(reprs(other.txs@.take(i as int + 1)).last() == v);
                assert(v.txid == k);
                if added {
                    assert(reprs(other.txs@.take(i as int + 1)).filter(
                        keeps_tx(old(self)@),
                    ) =~= reprs(other.txs@.take(i as int)).filter(
                        keeps_tx(old(self)@),
                    ).push(v));
                    assert(self@.txs =~= base.txs + reprs(other.txs@.take(i as int + 1)).filter(
                        keeps_tx(old(self)@),
                    ));
                } else {
                    assert(reprs(other.txs@.take(i as int + 1)).filter(
                        keeps_tx(old(self)@),
                    ) =~= reprs(other.txs@.take(i as int)).filter(
                        keeps_tx(old(self)@),
                    ));
                    assert(self@.txs =~= base.txs + reprs(other.txs@.take(i as int + 1)).filter(
                        keeps_tx(old(self)@),
                    ));
                }
            }
            i += 1;
        }
        proof {
            lemma_take_all(other.txs@);
            assert(reprs(other.txs@.take(other.txs@.len() as int)) =~= reprs(other.txs@));
            reveal(Seq::filter);
            assert(self@.txouts =~= base.txouts + other.txouts@.take(0).filter(
                keeps_txout(old(self)@),
            ));
        }
        let mut i: usize = 0;
        while i < other.txouts.len()
            invariant
                base == old(self)@,
                i <= other.txouts.len(),
                self@.wf(),
                other@.wf(),
                self@.tx_map() == other@.tx_map().union_prefer_right(base.tx_map()),
                self@.txs == base.txs + other@.txs.filter(
                    keeps_tx(old(self)@),
                ),
                self@.txout_map() == map_of(other.txouts@.take(i as int)).union_prefer_right(
                    base.txout_map(),
                ),
                self@.txouts == base.txouts + other.txouts@.take(i as int).filter(
                    keeps_txout(old(self)@),
                ),
                self@.anchors == base.anchors,
                self@.last_seen == base.last_seen,
            decreases other.txouts.len() - i,
        {
            let ghost pre = map_of(other.txouts@.take(i as int));
            let ghost k = other.txouts@[i as int].0;
            let ghost v = other.txouts@[i as int].1;
            proof {
                lemma_take_push(other.txouts@, i as int);
                lemma_map_of_push(other.txouts@.take(i as int), k, v);
                lemma_map_of_contains(other.txouts@.take(i as int), k);
                assert forall|j: int| 0 <= j < i implies (#[trigger] other.txouts@.take(
                    i as int,
                )[j]).0 != k by {
                    assert(other.txouts@[j].0 == other.txouts@.take(i as int)[j].0);
                }
            }
            let added = self.insert_txout(other.txouts[i].0, other.txouts[i].1);
            proof {
                if added {
                    lemma_union_insert_left(pre, base.txout_map(), k, v);
                } else {
                    assert(pre.insert(k, v).union_prefer_right(base.txout_map()) =~= pre
                        .union_prefer_right(base.txout_map()));
                }
                reveal(Seq::filter);
                assert(pre.union_prefer_right(base.txout_map()).dom().contains(k) == (pre.dom()
                    .contains(k) || base.txout_map().dom().contains(k))) by {
                    broadcast use vstd::map_lib::lemma_union_dom;
                }
                assert(added == !base.txout_map().dom().contains(k));
                assert(other.txouts@.take(i as int + 1).drop_last() =~= other.txouts@.take(
                    i as int,
                ));
                assert(other.txouts@.take(i as int + 1).last() == (k, v));
                if added {
                    assert(other.txouts@.take(i as int + 1).filter(
                        keeps_txout(old(self)@),
                    ) =~= other.txouts@.take(i as int).filter(
                        keeps_txout(old(self)@),
                    ).push((k, v)));
                } else {
                    assert(other.txouts@.take(i as int + 1).filter(
                        keeps_txout(old(self)@),
                    ) =~= other.txouts@.take(i as int).filter(
                        keeps_txout(old(self)@),
                    ));
                }
                assert(self@.txouts =~= base.txouts + other.txouts@.take(i as int + 1).filter(
                    keeps_txout(old(self)@),
                ));
            }
            i += 1;
        }
        proof {
            lemma_take_all(other.txouts@);
            reveal(Seq::filter);
            assert(self@.anchors =~= base.anchors + other.anchors@.take(0).filter(
                keeps_anchor(old(self)@),
            ));
        }
        let mut i: usize = 0;
        while i < other.anchors.len()
            invariant
                base == old(self)@,
                i <= other.anchors.len(),
                self@.wf(),
                other@.wf(),
                self@.tx_map() == other@.tx_map().union_prefer_right(base.tx_map()),
                self@.txs == base.txs + other@.txs.filter(
                    keeps_tx(old(self)@),
                ),
                self@.txout_map() == other@.txout_map().union_prefer_right(base.txout_map()),
                self@.txouts == base.txouts + other@.txouts.filter(
                    keeps_txout(old(self)@),
                ),
                self@.anchor_set() == base.anchor_set().union(other.anchors@.take(i as int)
                    .to_set()),
                self@.anchors == base.anchors + other.anchors@.take(i as int).filter(
                    keeps_anchor(old(self)@),
                ),
                self@.last_seen == base.last_seen,
            decreases other.anchors.len() - i,
        {
            let ghost p = other.anchors@[i as int];
            proof {
                lemma_take_push(other.anchors@, i as int);
                assert(other.anchors@.take(i as int + 1).to_set() =~= other.anchors@.take(
                    i as int,
                ).to_set().insert(p)) by {
                    let s = other.anchors@;
                    assert forall|x: (u64, BlockId)| s.take(i as int + 1).contains(
                        x,
                    ) implies s.take(i as int).to_set().insert(p).contains(x) by {
                        let j = choose|j: int| 0 <= j < i + 1 && (#[trigger] s.take(
                            i as int + 1,
                        )[j]) == x;
                        if j < i {
                            assert(s.take(i as int)[j] == x);
                        }
                    }
                    assert forall|x: (u64, BlockId)| s.take(i as int).to_set().insert(p).contains(
                        x,
                    ) implies s.take(i as int + 1).contains(x) by {
                        if x == p {
                            assert(s.take(i as int + 1)[i as int] == x);
                        } else {
                            let j = choose|j: int| 0 <= j < i && (#[trigger] s.take(
                                i as int,
                            )[j]) == x;
                            assert(s.take(i as int + 1)[j] == x);
                        }
                    }
                }
            }
            let added = self.insert_anchor(other.anchors[i].0, other.anchors[i].1);
            proof {
                assert(other.anchors@[i as int] == (other.anchors@[i as int].0, other.anchors@[
                    i as int].1));
                if added {
                    assert(self@.anchor_set() =~= base.anchor_set().union(other.anchors@.take(
                        i as int,
                    ).to_set().insert(p)));
                } else {
                    assert(self@.anchor_set() =~= base.anchor_set().union(other.anchors@.take(
                        i as int,
                    ).to_set().insert(p)));
                }
                // the claim is not among the earlier diff entries, so whether
                // it was added depends on the base alone
                assert(!other.anchors@.take(i as int).to_set().contains(p)) by {
                    if other.anchors@.take(i as int).to_set().contains(p) {
                        let j = choose|j: int| 0 <= j < i && (#[trigger] other.anchors@.take(
                            i as int,
                        )[j]) == p;
                        assert(other.anchors@[j] == p);
                        assert(other.anchors@[j] != other.anchors@[i as int]);
                    }
                }
                reveal(Seq::filter);
                assert(added == !base.anchor_set().contains(p));
                assert(other.anchors@.take(i as int + 1).drop_last() =~= other.anchors@.take(
                    i as int,
                ));
                assert(other.anchors@.take(i as int + 1).last() == p);
                if added {
                    assert(other.anchors@.take(i as int + 1).filter(
                        keeps_anchor(old(self)@),
                    ) =~= other.anchors@.take(i as int).filter(
                        keeps_anchor(old(self)@),
                    ).push(p));
                } else {
                    assert(other.anchors@.take(i as int + 1).filter(
                        keeps_anchor(old(self)@),
                    ) =~= other.anchors@.take(i as int).filter(
                        keeps_anchor(old(self)@),
                    ));
                }
                assert(self@.anchors =~= base.anchors + other.anchors@.take(i as int + 1).filter(
                    keeps_anchor(old(self)@),
                ));
            }
            i += 1;
        }
        proof {
            lemma_take_all(other.anchors@);
        }
        let mut i: usize = 0;
        while i < other.last_seen.len()
            invariant
                base == old(self)@,
                i <= other.last_seen.len(),
                self@.wf(),
                other@.wf(),
                self@.tx_map() == other@.tx_map().union_prefer_right(base.tx_map()),
                self@.txs == base.txs + other@.txs.filter(
                    keeps_tx(old(self)@),
                ),
                self@.txout_map() == other@.txout_map().union_prefer_right(base.txout_map()),
                self@.txouts == base.txouts + other@.txouts.filter(
                    keeps_txout(old(self)@),
                ),
                self@.anchor_set() == base.anchor_set().union(other@.anchor_set()),
                self@.anchors == base.anchors + other@.anchors.filter(
                    keeps_anchor(old(self)@),
                ),
                self@.seen_map() == max_merge(base.seen_map(), map_of(other.last_seen@.take(
                    i as int,
                ))),
            decreases other.last_seen.len() - i,
        {
            let ghost pre = map_of(other.last_seen@.take(i as int));
            let ghost k = other.last_seen@[i as int].0;
            let ghost t = other.last_seen@[i as int].1;
            proof {
                lemma_take_push(other.last_seen@, i as int);
                lemma_map_of_push(other.last_seen@.take(i as int), k, t);
                lemma_map_of_contains(other.last_seen@.take(i as int), k);
                assert forall|j: int| 0 <= j < i implies (#[trigger] other.last_seen@.take(
                    i as int,
                )[j]).0 != k by {
                    assert(other.last_seen@[j].0 == other.last_seen@.take(i as int)[j].0);
                }
                assert(!pre.dom().contains(k));
            }
            let _ = self.insert_seen(other.last_seen[i].0, other.last_seen[i].1);
            proof {
                assert(self@.seen_map() =~= max_merge(base.seen_map(), pre.insert(k, t)));
            }
            i += 1;
        }
        proof {
            lemma_take_all(other.last_seen@);
            assert(final(self)@.state() =~= old(self)@.state().merged(other@.state()));
        }
    }

    fn len_all(&self) -> (r: usize)
        ensures
            r == 0 <==> (self@.txs.len() == 0 && self@.txouts.len() == 0 && self@.anchors.len()
                == 0 && self@.last_seen.len() == 0),
    {
        let a = if self.txs.len() > 0 { 1usize } else { 0usize };
        let b = if self.txouts.len() > 0 { 1usize } else { 0usize };
        let c = if self.anchors.len() > 0 { 1usize } else { 0usize };
        let d = if self.last_seen.len() > 0 { 1usize } else { 0usize };
        a + b + c + d
    }
}

// ---------------------------------------------------------------------------
// resolution specifications
// ---------------------------------------------------------------------------

/// Blocks the store anchors this transaction to, in store order.
pub open spec fn anchors_for(s: Seq<(u64, BlockId)>, txid: u64) -> Seq<BlockId>
    decreases s.len(),
{
    if s.len() == 0 {
        Seq::empty()
    } else if s.last().0 == txid {
        anchors_for(s.drop_last(), txid).push(s.last().1)
    } else {
        anchors_for(s.drop_last(), txid)
    }
}

/// Whether the oracle snapshot confirms this anchor claim for this transaction.
pub open spec fn anchor_confirmed(chain: Map<u32, u64>, p: (u64, BlockId), txid: u64) -> bool {
    p.0 == txid && chain.dom().contains(p.1.height) && chain[p.1.height] == p.1.hash
}

/// The confirmed anchor of lowest height among the claims for this
/// transaction: the earliest, most settled confirmation.
pub open spec fn confirmed_pick(s: Seq<(u64, BlockId)>, chain: Map<u32, u64>, txid: u64) -> Option<
    BlockId,
>
    decreases s.len(),
{
    if s.len() == 0 {
        None
    } else {
        let prev = confirmed_pick(s.drop_last(), chain, txid);
        if anchor_confirmed(chain, s.last(), txid) && (match prev {
            None => true,
            Some(b) => s.last().1.height < b.height,
        }) {
            Some(s.last().1)
        } else {
            prev
        }
    }
}

/// Resolved chain position of a transaction: a confirmed anchor if the oracle
/// confirms one (the lowest-height one), else the latest mempool sighting,
/// else nothing.
pub open spec fn spec_position(g: StoreRepr, chain: Map<u32, u64>, txid: u64) -> Option<ObservedIn> {
    match confirmed_pick(g.anchors, chain, txid) {
        Some(b) => Some(ObservedIn::Block(b)),
        None => if g.seen_map().dom().contains(txid) {
            Some(ObservedIn::Mempool(g.seen_map()[txid]))
        } else {
            None
        },
    }
}

/// Strict order on resolved positions: confirmed beats mempool; among
/// confirmed the lower height wins; among mempool the later timestamp wins.
pub open spec fn pos_better(a: ObservedIn, b: ObservedIn) -> bool {
    match (a, b) {
        (ObservedIn::Block(x), ObservedIn::Block(y)) => x.height < y.height,
        (ObservedIn::Block(_), ObservedIn::Mempool(_)) => true,
        (ObservedIn::Mempool(_), ObservedIn::Block(_)) => false,
        (ObservedIn::Mempool(s), ObservedIn::Mempool(t)) => s > t,
    }
}

/// The spender of `outpoint` with the best resolved position, scanning the
/// stored transactions in order and replacing only on a strictly better
/// position.
pub open spec fn spend_pick(
    g: StoreRepr,
    chain: Map<u32, u64>,
    s: Seq<TxRepr>,
    outpoint: OutPoint,
) -> Option<(ObservedIn, u64)>
    decreases s.len(),
{
    if s.len() == 0 {
        None
    } else {
        let prev = spend_pick(g, chain, s.drop_last(), outpoint);
        let t = s.last();
        if t.inputs.contains(outpoint) {
            match spec_position(g, chain, t.txid) {
                Some(p) => match prev {
                    None => Some((p, t.txid)),
                    Some(q) => if pos_better(p, q.0) {
                        Some((p, t.txid))
                    } else {
                        prev
                    },
                },
                None => prev,
            }
        } else {
            prev
        }
    }
}

/// Best-positioned spender of `outpoint` among all stored transactions.
pub open spec fn spec_spend(g: StoreRepr, chain: Map<u32, u64>, outpoint: OutPoint) -> Option<
    (ObservedIn, u64),
> {
    spend_pick(g, chain, g.txs, outpoint)
}

// ---------------------------------------------------------------------------
// enumeration specifications
// ---------------------------------------------------------------------------

/// The outputs a stored transaction contributes, with their outpoints.
pub open spec fn outputs_enum(t: TxRepr) -> Seq<(OutPoint, TxOut)> {
    Seq::new(t.outputs.len(), |i: int| (OutPoint { txid: t.txid, vout: i as usize }, t.outputs[i]))
}

/// Outputs contributed by the stored transactions, in store order.
pub open spec fn derived_txouts(txs: Seq<TxRepr>) -> Seq<(OutPoint, TxOut)>
    decreases txs.len(),
{
    if txs.len() == 0 {
        Seq::empty()
    } else {
        derived_txouts(txs.drop_last()) + outputs_enum(txs.last())
    }
}

/// Whether a stored transaction already accounts for this outpoint.
pub open spec fn covered(g: StoreRepr, op: OutPoint) -> bool {
    g.tx_map().dom().contains(op.txid) && op.vout < g.tx_map()[op.txid].outputs.len()
}

/// Every known output with its outpoint: those of stored transactions first,
/// then the floating ones a stored transaction does not account for.
pub open spec fn txouts_enum(g: StoreRepr) -> Seq<(OutPoint, TxOut)> {
    derived_txouts(g.txs) + g.txouts.filter(|p: (OutPoint, TxOut)| !covered(g, p.0))
}

// ---------------------------------------------------------------------------
// read view of one transaction
// ---------------------------------------------------------------------------

/// A transaction together with everything the store knows about it.
pub struct TxNode {
    /// The transaction itself.
    pub tx: Transaction,
    /// Blocks it is anchored to, in store order.
    pub anchors: Vec<BlockId>,
    /// Latest mempool-seen timestamp, if any.
    pub last_seen: Option<u64>,
}

/// Mathematical image of a [`TxNode`].
#[verifier::ext_equal]
pub struct TxNodeRepr {
    /// Image of the transaction.
    pub tx: TxRepr,
    /// Blocks it is anchored to.
    pub anchors: Seq<BlockId>,
    /// Latest mempool-seen timestamp, if any.
    pub last_seen: Option<u64>,
}

impl View for TxNode {
    type V = TxNodeRepr;

    open spec fn view(&self) -> TxNodeRepr {
        TxNodeRepr { tx: self.tx@, anchors: self.anchors@, last_seen: self.last_seen }
    }
}

impl TxNode {
    /// A copy of the node with the same mathematical image.
    pub fn duplicate(&self) -> (r: TxNode)
        ensures
            r@ == self@,
    {
        let mut anchors: Vec<BlockId> = Vec::new();
        let mut i: usize = 0;
        while i < self.anchors.len()
            invariant
                i <= self.anchors.len(),
                anchors@ == self.anchors@.take(i as int),
            decreases self.anchors.len() - i,
        {
            anchors.push(self.anchors[i]);
            proof {
                lemma_take_push(self.anchors@, i as int);
            }
            i += 1;
        }
        proof {
            lemma_take_all(self.anchors@);
        }
        let r = TxNode { tx: clone_tx(&self.tx), anchors, last_seen: self.last_seen };
        proof {
            assert(r@ =~= self@);
        }
        r
    }
}

/// What [`TxGraph::get_tx`] returns for a stored transaction.
pub open spec fn node_repr(g: StoreRepr, t: TxRepr) -> TxNodeRepr {
    TxNodeRepr {
        tx: t,
        anchors: anchors_for(g.anchors, t.txid),
        last_seen: if g.seen_map().dom().contains(t.txid) {
            Some(g.seen_map()[t.txid])
        } else {
            None
        },
    }
}

// ---------------------------------------------------------------------------
// the graph store and its diff
// ---------------------------------------------------------------------------

/// The append-only graph store.
pub struct TxGraph {
    store: Store,
}

/// A mergeable diff of graph facts: what one or more insertions added.
pub struct Additions {
    store: Store,
}

impl View for TxGraph {
    type V = StoreRepr;

    closed spec fn view(&self) -> StoreRepr {
        self.store@
    }
}

impl View for Additions {
    type V = StoreRepr;

    closed spec fn view(&self) -> StoreRepr {
        self.store@
    }
}

impl Additions {
    /// The empty diff.
    pub fn new() -> (r: Self)
        ensures
            r@ == StoreRepr::empty(),
            r@.wf(),
    {
        Additions { store: Store::new() }
    }

    /// Merge another diff into this one: first-recorded transactions and
    /// outputs win, anchors accumulate, seen-timestamps keep the latest.
    pub fn append(&mut self, other: &Additions)
        requires
            old(self)@.wf(),
            other@.wf(),
        ensures
            final(self)@.wf(),
            final(self)@.state() == old(self)@.state().merged(other@.state()),
            final(self)@.txs == old(self)@.txs + other@.txs.filter(keeps_tx(old(self)@)),
            final(self)@.txouts == old(self)@.txouts + other@.txouts.filter(
                keeps_txout(old(self)@),
            ),
            final(self)@.anchors == old(self)@.anchors + other@.anchors.filter(
                keeps_anchor(old(self)@),
            ),
    {
        self.store.merge_from(&other.store);
    }

    /// Whether the diff carries no fact at all.
    pub fn is_empty(&self) -> (r: bool)
        ensures
            r <==> (self@.txs.len() == 0 && self@.txouts.len() == 0 && self@.anchors.len() == 0
                && self@.last_seen.len() == 0),
    {
        self.store.len_all() == 0
    }

    /// The transactions the diff adds.
    pub fn txs(&self) -> (r: &Vec<Transaction>)
        ensures
            reprs(r@) == self@.txs,
    {
        &self.store.txs
    }

    /// The floating outputs the diff adds.
    pub fn txouts(&self) -> (r: &Vec<(OutPoint, TxOut)>)
        ensures
            r@ == self@.txouts,
    {
        &self.store.txouts
    }

    /// The anchor claims the diff adds.
    pub fn anchors(&self) -> (r: &Vec<(u64, BlockId)>)
        ensures
            r@ == self@.anchors,
    {
        &self.store.anchors
    }

    /// The seen-timestamps the diff raises.
    pub fn last_seen(&self) -> (r: &Vec<(u64, u64)>)
        ensures
            r@ == self@.last_seen,
    {
        &self.store.last_seen
    }
}

impl Default for Additions {
    fn default() -> (r: Self)
        ensures
            r@ == StoreRepr::empty(),
            r@.wf(),
    {
        Additions::new()
    }
}

impl TxGraph {
    /// A fresh, empty store.
    pub fn new() -> (r: Self)
        ensures
            r@ == StoreRepr::empty(),
            r@.wf(),
    {
        TxGraph { store: Store::new() }
    }

    /// Record a transaction; the marginal diff is empty when its id was
    /// already stored, else it carries exactly this transaction.
    pub fn insert_tx(&mut self, tx: &Transaction) -> (r: Additions)
        requires
            old(self)@.wf(),
        ensures
            final(self)@.wf(),
            r@.wf(),
            old(self)@.tx_map().dom().contains(tx.txid) ==> final(self)@ == old(self)@ && r@
                == StoreRepr::empty(),
            !old(self)@.tx_map().dom().contains(tx.txid) ==> final(self)@ == (StoreRepr {
                txs: old(self)@.txs.push(tx@),
                ..old(self)@
            }) && final(self)@.tx_map() == old(self)@.tx_map().insert(tx.txid, tx@) && r@
                == (StoreRepr { txs: seq![tx@], ..StoreRepr::empty() }),
    {
        let added = self.store.insert_tx(tx);
        let mut diff = Store::new();
        if added {
            let _ = diff.insert_tx(tx);
            proof {
                assert(diff@ =~= (StoreRepr { txs: seq![tx@], ..StoreRepr::empty() }));
                assert(StoreRepr::empty().txs.push(tx@) =~= seq![tx@]);
            }
        }
        Additions { store: diff }
    }

    /// Record a floating output; the marginal diff is empty when the
    /// outpoint was already recorded, else it carries exactly this output.
    pub fn insert_txout(&mut self, outpoint: OutPoint, txout: &TxOut) -> (r: Additions)
        requires
            old(self)@.wf(),
        ensures
            final(self)@.wf(),
            r@.wf(),
            old(self)@.txout_map().dom().contains(outpoint) ==> final(self)@ == old(self)@ && r@
                == StoreRepr::empty(),
            !old(self)@.txout_map().dom().contains(outpoint) ==> final(self)@ == (StoreRepr {
                txouts: old(self)@.txouts.push((outpoint, *txout)),
                ..old(self)@
            }) && final(self)@.txout_map() == old(self)@.txout_map().insert(outpoint, *txout)
                && r@ == (StoreRepr { txouts: seq![(outpoint, *txout)], ..StoreRepr::empty() }),
    {
        let added = self.store.insert_txout(outpoint, *txout);
        let mut diff = Store::new();
        if added {
            let _ = diff.insert_txout(outpoint, *txout);
            proof {
                assert(diff@ =~= (StoreRepr {
                    txouts: seq![(outpoint, *txout)],
                    ..StoreRepr::empty()
                }));
            }
        }
        Additions { store: diff }
    }

    /// Record an anchor claim; the marginal diff is empty when the claim was
    /// already recorded.
    pub fn insert_anchor(&mut self, txid: u64, anchor: BlockId) -> (r: Additions)
        requires
            old(self)@.wf(),
        ensures
            final(self)@.wf(),
            r@.wf(),
            old(self)@.anchor_set().contains((txid, anchor)) ==> final(self)@ == old(self)@ && r@
                == StoreRepr::empty(),
            !old(self)@.anchor_set().contains((txid, anchor)) ==> final(self)@ == (StoreRepr {
                anchors: old(self)@.anchors.push((txid, anchor)),
                ..old(self)@
            }) && final(self)@.anchor_set() == old(self)@.anchor_set().insert((txid, anchor))
                && r@ == (StoreRepr { anchors: seq![(txid, anchor)], ..StoreRepr::empty() }),
    {
        let added = self.store.insert_anchor(txid, anchor);
        let mut diff = Store::new();
        if added {
            let _ = diff.insert_anchor(txid, anchor);
            proof {
                assert(diff@ =~= (StoreRepr {
                    anchors: seq![(txid, anchor)],
                    ..StoreRepr::empty()
                }));
            }
        }
        Additions { store: diff }
    }

    /// Record a mempool sighting; the marginal diff is empty unless the
    /// timestamp is later than the recorded one.
    pub fn insert_seen_at(&mut self, txid: u64, seen_at: u64) -> (r: Additions)
        requires
            old(self)@.wf(),
        ensures
            final(self)@.wf(),
            r@.wf(),
            old(self)@.seen_map().dom().contains(txid) && old(self)@.seen_map()[txid] >= seen_at
                ==> final(self)@ == old(self)@ && r@ == StoreRepr::empty(),
            (!old(self)@.seen_map().dom().contains(txid) || old(self)@.seen_map()[txid] < seen_at)
                ==> final(self)@.seen_map() == old(self)@.seen_map().insert(txid, seen_at)
                && final(self)@.txs == old(self)@.txs && final(self)@.txouts == old(self)@.txouts
                && final(self)@.anchors == old(self)@.anchors && r@ == (StoreRepr {
                last_seen: seq![(txid, seen_at)],
                ..StoreRepr::empty()
            }),
            !old(self)@.seen_map().dom().contains(txid) ==> final(self)@.last_seen == old(
                self,
            )@.last_seen.push((txid, seen_at)),
            (old(self)@.seen_map().dom().contains(txid) && old(self)@.seen_map()[txid] < seen_at)
                ==> exists|i: int|
                0 <= i < old(self)@.last_seen.len() && (#[trigger] old(self)@.last_seen[i]).0
                    == txid && final(self)@.last_seen == old(self)@.last_seen.update(
                    i,
                    (txid, seen_at),
                ),
    {
        let raised = self.store.insert_seen(txid, seen_at);
        let mut diff = Store::new();
        if raised {
            let _ = diff.insert_seen(txid, seen_at);
            proof {
                assert(diff@ =~= (StoreRepr {
                    last_seen: seq![(txid, seen_at)],
                    ..StoreRepr::empty()
                }));
                assert(StoreRepr::empty().last_seen.push((txid, seen_at)) =~= seq![
                    (txid, seen_at),
                ]);
            }
        }
        Additions { store: diff }
    }

    /// Merge a diff into the store: transactions and outputs already stored
    /// keep their first recorded value, anchors accumulate, seen-timestamps
    /// keep the latest. Applying the same diff again changes nothing.
    pub fn apply_additions(&mut self, additions: &Additions)
        requires
            old(self)@.wf(),
            additions@.wf(),
        ensures
            final(self)@.wf(),
            final(self)@.state() == old(self)@.state().merged(additions@.state()),
            final(self)@.txs == old(self)@.txs + additions@.txs.filter(keeps_tx(old(self)@)),
            final(self)@.txouts == old(self)@.txouts + additions@.txouts.filter(
                keeps_txout(old(self)@),
            ),
            final(self)@.anchors == old(self)@.anchors + additions@.anchors.filter(
                keeps_anchor(old(self)@),
            ),
    {
        self.store.merge_from(&additions.store);
    }
}

/// Whether one of the outpoints equals `op`.
fn contains_outpoint(v: &Vec<OutPoint>, op: OutPoint) -> (r: bool)
    ensures
        r == v@.contains(op),
{
    let mut i: usize = 0;
    while i < v.len()
        invariant
            i <= v.len(),
            forall|j: int| 0 <= j < i ==> (#[trigger] v@[j]) != op,
        decreases v.len() - i,
    {
        if v[i] == op {
            assert(v@[i as int] == op);
            return true;
        }
        i += 1;
    }
    proof {
        if v@.contains(op) {
            let j = choose|j: int| 0 <= j < v@.len() && (#[trigger] v@[j]) == op;
        }
    }
    false
}

/// Whether `a` is a strictly better resolved position than `b`.
fn better_position(a: &ObservedIn, b: &ObservedIn) -> (r: bool)
    ensures
        r == pos_better(*a, *b),
{
    match (a, b) {
        (ObservedIn::Block(x), ObservedIn::Block(y)) => x.height < y.height,
        (ObservedIn::Block(_), ObservedIn::Mempool(_)) => true,
        (ObservedIn::Mempool(_), ObservedIn::Block(_)) => false,
        (ObservedIn::Mempool(s), ObservedIn::Mempool(t)) => *s > *t,
    }
}

impl TxGraph {
    /// Blocks the store anchors this transaction to, in store order.
    fn collect_anchors(&self, txid: u64) -> (r: Vec<BlockId>)
        ensures
            r@ == anchors_for(self@.anchors, txid),
    {
        let mut acc: Vec<BlockId> = Vec::new();
        let mut i: usize = 0;
        while i < self.store.anchors.len()
            invariant
                i <= self.store.anchors.len(),
                acc@ == anchors_for(self@.anchors.take(i as int), txid),
            decreases self.store.anchors.len() - i,
        {
            proof {
                lemma_take_push(self@.anchors, i as int);
                assert(self@.anchors.take(i as int + 1).drop_last() =~= self@.anchors.take(
                    i as int,
                ));
            }
            if self.store.anchors[i].0 == txid {
                acc.push(self.store.anchors[i].1);
            }
            i += 1;
        }
        proof {
            lemma_take_all(self@.anchors);
        }
        acc
    }

    /// Latest mempool-seen timestamp recorded for this transaction.
    fn seen_of(&self, txid: u64) -> (r: Option<u64>)
        requires
            self@.wf(),
        ensures
            r == (if self@.seen_map().dom().contains(txid) {
                Some(self@.seen_map()[txid])
            } else {
                None::<u64>
            }),
    {
        match self.store.find_seen(txid) {
            Some(i) => Some(self.store.last_seen[i].1),
            None => None,
        }
    }

    /// Everything the store knows about this transaction, if it is stored.
    pub fn get_tx(&self, txid: u64) -> (r: Option<TxNode>)
        requires
            self@.wf(),
        ensures
            match r {
                Some(node) => self@.tx_map().dom().contains(txid) && node@ == node_repr(
                    self@,
                    self@.tx_map()[txid],
                ),
                None => !self@.tx_map().dom().contains(txid),
            },
    {
        proof {
            lemma_map_of_contains(tx_pairs(self@.txs), txid);
        }
        let mut i: usize = 0;
        while i < self.store.txs.len()
            invariant
                i <= self.store.txs.len(),
                self@.wf(),
                forall|j: int| 0 <= j < i ==> (#[trigger] self.store.txs@[j]).txid != txid,
            decreases self.store.txs.len() - i,
        {
            if self.store.txs[i].txid == txid {
                let node = TxNode {
                    tx: clone_tx(&self.store.txs[i]),
                    anchors: self.collect_anchors(txid),
                    last_seen: self.seen_of(txid),
                };
                proof {
                    lemma_map_of_contains(tx_pairs(self@.txs), txid);
                    assert(tx_pairs(self@.txs)[i as int].0 == txid);
                    assert(tx_pairs(self@.txs)[i as int].1 == self@.txs[i as int]);
                    assert(node@ =~= node_repr(self@, self@.tx_map()[txid]));
                }
                return Some(node);
            }
            i += 1;
        }
        proof {
            lemma_map_of_contains(tx_pairs(self@.txs), txid);
            assert forall|j: int| 0 <= j < tx_pairs(self@.txs).len() implies (#[trigger] tx_pairs(
                self@.txs,
            )[j]).0 != txid by {
                assert(self.store.txs@[j].txid != txid);
            }
        }
        None
    }

    /// A fresh traversal of every stored transaction, with its anchors and
    /// latest sighting, in store order.
    pub fn full_transactions(&self) -> (r: Vec<TxNode>)
        requires
            self@.wf(),
        ensures
            r@.len() == self@.txs.len(),
            forall|i: int| 0 <= i < r@.len() ==> (#[trigger] r@[i])@ == node_repr(
                self@,
                self@.txs[i],
            ),
    {
        let mut acc: Vec<TxNode> = Vec::new();
        let mut i: usize = 0;
        while i < self.store.txs.len()
            invariant
                i <= self.store.txs.len(),
                self@.wf(),
                acc@.len() == i,
                forall|j: int| 0 <= j < i ==> (#[trigger] acc@[j])@ == node_repr(
                    self@,
                    self@.txs[j],
                ),
            decreases self.store.txs.len() - i,
        {
            let txid = self.store.txs[i].txid;
            let node = TxNode {
                tx: clone_tx(&self.store.txs[i]),
                anchors: self.collect_anchors(txid),
                last_seen: self.seen_of(txid),
            };
            proof {
                assert(node@ =~= node_repr(self@, self@.txs[i as int]));
            }
            acc.push(node);
            i += 1;
        }
        acc
    }

    /// A fresh traversal of every known output with its outpoint: outputs of
    /// stored transactions first, then the floating ones no stored
    /// transaction accounts for.
    pub fn all_txouts(&self) -> (r: Vec<(OutPoint, TxOut)>)
        requires
            self@.wf(),
        ensures
            r@ == txouts_enum(self@),
    {
        let mut acc: Vec<(OutPoint, TxOut)> = Vec::new();
        let mut i: usize = 0;
        while i < self.store.txs.len()
            invariant
                i <= self.store.txs.len(),
                self@.wf(),
                acc@ == derived_txouts(self@.txs.take(i as int)),
            decreases self.store.txs.len() - i,
        {
            let tx = &self.store.txs[i];
            let ghost trep = self@.txs[i as int];
            let mut j: usize = 0;
            while j < tx.outputs.len()
                invariant
                    j <= tx.outputs.len(),
                    tx@ == trep,
                    acc@ == derived_txouts(self@.txs.take(i as int)) + outputs_enum(trep).take(
                        j as int,
                    ),
                decreases tx.outputs.len() - j,
            {
                acc.push((OutPoint { txid: tx.txid, vout: j }, tx.outputs[j]));
                proof {
                    assert(outputs_enum(trep).take(j + 1 as int) =~= outputs_enum(trep).take(
                        j as int,
                    ).push((OutPoint { txid: trep.txid, vout: j as usize }, trep.outputs[j as int])));
                    assert(acc@ =~= derived_txouts(self@.txs.take(i as int)) + outputs_enum(
                        trep,
                    ).take(j + 1 as int));
                }
                j += 1;
            }
            proof {
                lemma_take_push(self@.txs, i as int);
                assert(self@.txs.take(i as int + 1).drop_last() =~= self@.txs.take(i as int));
                assert(outputs_enum(trep).take(outputs_enum(trep).len() as int) =~= outputs_enum(
                    trep,
                ));
            }
            i += 1;
        }
        proof {
            lemma_take_all(self@.txs);
            reveal(Seq::filter);
            assert(self@.txouts.take(0).filter(|p: (OutPoint, TxOut)| !covered(self@, p.0))
                =~= Seq::<(OutPoint, TxOut)>::empty());
            assert(acc@ =~= derived_txouts(self@.txs) + self@.txouts.take(0).filter(
                |p: (OutPoint, TxOut)| !covered(self@, p.0),
            ));
        }
        let mut i: usize = 0;
        while i < self.store.txouts.len()
            invariant
                i <= self.store.txouts.len(),
                self@.wf(),
                acc@ == derived_txouts(self@.txs) + self@.txouts.take(i as int).filter(
                    |p: (OutPoint, TxOut)| !covered(self@, p.0),
                ),
            decreases self.store.txouts.len() - i,
        {
            let (op, out) = self.store.txouts[i];
            let is_covered = self.tx_covers(op);
            proof {
                reveal(Seq::filter);
                lemma_take_push(self@.txouts, i as int);
                assert(self@.txouts.take(i as int + 1).drop_last() =~= self@.txouts.take(
                    i as int,
                ));
                assert(self@.txouts.take(i as int + 1).last() == (op, out));
            }
            if !is_covered {
                acc.push((op, out));
            }
            proof {
                reveal(Seq::filter);
                assert(acc@ =~= derived_txouts(self@.txs) + self@.txouts.take(i as int + 1).filter(
                    |p: (OutPoint, TxOut)| !covered(self@, p.0),
                ));
            }
            i += 1;
        }
        proof {
            lemma_take_all(self@.txouts);
        }
        acc
    }

    /// Whether a stored transaction accounts for this outpoint.
    fn tx_covers(&self, op: OutPoint) -> (r: bool)
        requires
            self@.wf(),
        ensures
            r == covered(self@, op),
    {
        let mut i: usize = 0;
        while i < self.store.txs.len()
            invariant
                i <= self.store.txs.len(),
                self@.wf(),
                forall|j: int| 0 <= j < i ==> (#[trigger] self.store.txs@[j]).txid != op.txid,
            decreases self.store.txs.len() - i,
        {
            if self.store.txs[i].txid == op.txid {
                proof {
                    lemma_map_of_contains(tx_pairs(self@.txs), op.txid);
                    assert(tx_pairs(self@.txs)[i as int].0 == op.txid);
                    assert(tx_pairs(self@.txs)[i as int].1 == self@.txs[i as int]);
                }
                return op.vout < self.store.txs[i].outputs.len();
            }
            i += 1;
        }
        proof {
            lemma_map_of_contains(tx_pairs(self@.txs), op.txid);
            assert forall|j: int| 0 <= j < tx_pairs(self@.txs).len() implies (#[trigger] tx_pairs(
                self@.txs,
            )[j]).0 != op.txid by {
                assert(self.store.txs@[j].txid != op.txid);
            }
        }
        false
    }

    /// Resolve this transaction's chain position against the oracle: the
    /// confirmed anchor of lowest height if the oracle confirms one, else the
    /// latest mempool sighting, else no position. The first oracle error
    /// aborts the resolution.
    pub fn try_get_chain_position<C: ChainOracle>(&self, chain: &C, txid: u64) -> (r: Result<
        Option<ObservedIn>,
        C::Error,
    >)
        requires
            self@.wf(),
        ensures
            r matches Ok(p) ==> p == spec_position(self@, chain.chain(), txid),
            chain.total() ==> r is Ok,
            (forall|i: int| 0 <= i < self@.anchors.len() ==> (#[trigger] self@.anchors[i]).0
                != txid) ==> r is Ok,
    {
        let mut best: Option<BlockId> = None;
        let mut i: usize = 0;
        while i < self.store.anchors.len()
            invariant
                i <= self.store.anchors.len(),
                self@.wf(),
                best == confirmed_pick(self@.anchors.take(i as int), chain.chain(), txid),
            decreases self.store.anchors.len() - i,
        {
            let (atx, ablk) = self.store.anchors[i];
            proof {
                lemma_take_push(self@.anchors, i as int);
                assert(self@.anchors.take(i as int + 1).drop_last() =~= self@.anchors.take(
                    i as int,
                ));
                assert(self@.anchors.take(i as int + 1).last() == (atx, ablk));
            }
            if atx == txid {
                let got = match chain.get_block_in_best_chain(ablk.height) {
                    Ok(v) => v,
                    Err(e) => {
                        // an anchor claim for this transaction exists, so no
                        // answer was owed without the oracle
                        assert(self@.anchors[i as int].0 == txid);
                        return Err(e);
                    },
                };
                let confirmed = match got {
                    Some(h) => h == ablk.hash,
                    None => false,
                };
                if confirmed {
                    let replace = match &best {
                        None => true,
                        Some(b) => ablk.height < b.height,
                    };
                    if replace {
                        best = Some(ablk);
                    }
                }
            }
            i += 1;
        }
        proof {
            lemma_take_all(self@.anchors);
        }
        match best {
            Some(b) => Ok(Some(ObservedIn::Block(b))),
            None => Ok(match self.seen_of(txid) {
                Some(t) => Some(ObservedIn::Mempool(t)),
                None => None,
            }),
        }
    }

    /// As [`Self::try_get_chain_position`], for an oracle that always answers.
    pub fn get_chain_position<C: ChainOracle>(&self, chain: &C, txid: u64) -> (r: Option<
        ObservedIn,
    >)
        requires
            self@.wf(),
            chain.total(),
        ensures
            r == spec_position(self@, chain.chain(), txid),
    {
        match self.try_get_chain_position(chain, txid) {
            Ok(p) => p,
            Err(_) => vstd::pervasive::unreached(),
        }
    }

    /// Resolve the best-positioned spender of this outpoint: confirmed beats
    /// mempool, among confirmed the lowest height wins, among mempool the
    /// latest timestamp; on equal positions the transaction stored first is
    /// kept. The first oracle error aborts the resolution.
    pub fn try_get_spend_in_chain<C: ChainOracle>(&self, chain: &C, outpoint: OutPoint) -> (r:
        Result<Option<(ObservedIn, u64)>, C::Error>)
        requires
            self@.wf(),
        ensures
            r matches Ok(s) ==> s == spec_spend(self@, chain.chain(), outpoint),
            chain.total() ==> r is Ok,
            self@.anchors.len() == 0 ==> r is Ok,
    {
        let mut best: Option<(ObservedIn, u64)> = None;
        let mut i: usize = 0;
        while i < self.store.txs.len()
            invariant
                i <= self.store.txs.len(),
                self@.wf(),
                best == spend_pick(self@, chain.chain(), self@.txs.take(i as int), outpoint),
            decreases self.store.txs.len() - i,
        {
            let tx = &self.store.txs[i];
            proof {
                lemma_take_push(self@.txs, i as int);
                assert(self@.txs.take(i as int + 1).drop_last() =~= self@.txs.take(i as int));
                assert(self@.txs.take(i as int + 1).last() == self@.txs[i as int]);
            }
            if contains_outpoint(&tx.inputs, outpoint) {
                let pos = match self.try_get_chain_position(chain, tx.txid) {
                    Ok(p) => p,
                    Err(e) => {
                        return Err(e);
                    },
                };
                match pos {
                    Some(p) => {
                        let replace = match &best {
                            None => true,
                            Some(q) => better_position(&p, &q.0),
                        };
                        if replace {
                            best = Some((p, tx.txid));
                        }
                    },
                    None => {},
                }
            }
            i += 1;
        }
        proof {
            lemma_take_all(self@.txs);
        }
        Ok(best)
    }

    /// As [`Self::try_get_spend_in_chain`], for an oracle that always answers.
    pub fn get_spend_in_chain<C: ChainOracle>(&self, chain: &C, outpoint: OutPoint) -> (r: Option<
        (ObservedIn, u64),
    >)
        requires
            self@.wf(),
            chain.total(),
        ensures
            r == spec_spend(self@, chain.chain(), outpoint),
    {
        match self.try_get_spend_in_chain(chain, outpoint) {
            Ok(s) => s,
            Err(_) => vstd::pervasive::unreached(),
        }
    }
}

impl Default for TxGraph {
    fn default() -> (r: Self)
        ensures
            r@ == StoreRepr::empty(),
            r@.wf(),
    {
        TxGraph::new()
    }
}

} // verus!
