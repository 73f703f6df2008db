//! The pluggable relevance index consumed by the orchestrator, and a plain
//! script-set implementation of it.

use vstd::prelude::*;
use crate::types::{OutPoint, TxOut, Transaction, TxRepr};

verus! {

/// A diff type with an explicit merge: `merged_spec` says what merging
/// means, and `merge` performs it.
pub trait Merge: Sized {
    /// The merge of two diffs.
    spec fn merged_spec(self, other: Self) -> Self;

    /// The diff that adds nothing.
    spec fn empty_spec() -> Self;

    /// Build the diff that adds nothing.
    fn empty() -> (r: Self)
        ensures
            r == Self::empty_spec(),
    ;

    /// Merge another diff into this one.
    fn merge(&mut self, other: Self)
        ensures
            *final(self) == old(self).merged_spec(other),
    ;

    /// The merge is a union: order does not matter, grouping does not
    /// matter, merging a diff into itself adds nothing, and the empty diff
    /// is the identity. Every diff type owes these laws; they are what makes
    /// replaying a persisted diff stream in any grouping safe.
    proof fn merge_laws(a: Self, b: Self, c: Self)
        ensures
            a.merged_spec(b) == b.merged_spec(a),
            a.merged_spec(b).merged_spec(c) == a.merged_spec(b.merged_spec(c)),
            a.merged_spec(a) == a,
            a.merged_spec(Self::empty_spec()) == a,
    ;
}

/// Classifier deciding which transactions and scripts matter to the wallet.
/// The orchestrator feeds every new fact through it and filters queries by
/// its answers; its diff type and its indexing policy are its own.
pub trait TxIndex: Sized {
    /// The index's own diff type.
    type Additions: Merge;

    /// Whether the index counts this transaction as relevant.
    spec fn tx_relevant(&self, t: TxRepr) -> bool;

    /// Whether the index counts this script as owned.
    spec fn spk_owned(&self, spk: u64) -> bool;

    /// The index after accounting for a transaction.
    spec fn indexed_tx(self, t: TxRepr) -> Self;

    /// The diff emitted for a transaction.
    spec fn tx_diff(self, t: TxRepr) -> Self::Additions;

    /// The index after accounting for an output.
    spec fn indexed_txout(self, op: OutPoint, out: TxOut) -> Self;

    /// The diff emitted for an output.
    spec fn txout_diff(self, op: OutPoint, out: TxOut) -> Self::Additions;

    /// The index after replaying one of its own diffs.
    spec fn applied(self, d: Self::Additions) -> Self;

    /// Account for a newly stored transaction.
    fn index_tx(&mut self, tx: &Transaction) -> (r: Self::Additions)
        ensures
            *final(self) == old(self).indexed_tx(tx@),
            r == old(self).tx_diff(tx@),
    ;

    /// Account for a newly stored output.
    fn index_txout(&mut self, outpoint: OutPoint, txout: &TxOut) -> (r: Self::Additions)
        ensures
            *final(self) == old(self).indexed_txout(outpoint, *txout),
            r == old(self).txout_diff(outpoint, *txout),
    ;

    /// Merge a previously emitted diff back into the index.
    fn apply_additions(&mut self, additions: Self::Additions)
        ensures
            *final(self) == old(self).applied(additions),
    ;

    /// Decide relevance of a transaction.
    fn is_tx_relevant(&self, tx: &Transaction) -> (r: bool)
        ensures
            r == self.tx_relevant(tx@),
    ;

    /// Decide ownership of a script.
    fn is_spk_owned(&self, spk: u64) -> (r: bool)
        ensures
            r == self.spk_owned(spk),
    ;

    /// Replaying index diffs is a union on the index's state: two diffs land
    /// the same in either order or as one merged diff, and a replay repeated
    /// is a no-op. Every index owes these laws.
    proof fn applied_laws(idx: Self, d1: Self::Additions, d2: Self::Additions)
        ensures
            idx.applied(d1).applied(d2) == idx.applied(d2).applied(d1),
            idx.applied(d1).applied(d2) == idx.applied(d1.merged_spec(d2)),
            idx.applied(d1).applied(d1) == idx.applied(d1),
    ;
}

/// The diff of [`SpkIndex`]: the index watches a fixed script set, so its
/// diffs carry nothing.
#[derive(Clone, Copy, Debug, PartialEq, Eq, Structural)]
pub struct SpkAdditions;

impl Merge for SpkAdditions {
    open spec fn merged_spec(self, other: Self) -> Self {
        SpkAdditions
    }

    open spec fn empty_spec() -> Self {
        SpkAdditions
    }

    fn empty() -> (r: Self) {
        SpkAdditions
    }

    fn merge(&mut self, other: Self) {
    }

    proof fn merge_laws(a: Self, b: Self, c: Self) {
    }
}

/// A relevance index over a fixed set of owned script ids: a script is owned
/// when it is in the set, and a transaction is relevant when one of its
/// outputs pays an owned script. The set never changes, so indexing leaves
/// the index as it is and every diff it emits is empty.
pub struct SpkIndex {
    /// The owned script ids.
    pub spks: Vec<u64>,
}

impl SpkIndex {
    /// Index owning exactly these script ids.
    pub fn new(spks: Vec<u64>) -> (r: Self)
        ensures
            r.spks@ == spks@,
            forall|s: u64| r.spk_owned(s) == spks@.contains(s),
            forall|t: TxRepr| r.tx_relevant(t) <==> exists|i: int|
                0 <= i < t.outputs.len() && spks@.contains(
                    (#[trigger] t.outputs[i]).script_pubkey,
                ),
    {
        SpkIndex { spks }
    }
}

impl Default for SpkIndex {
    /// The index owning no script at all.
    fn default() -> (r: Self)
        ensures
            r.spks@ == Seq::<u64>::empty(),
    {
        SpkIndex { spks: Vec::new() }
    }
}

/// Whether one of the ids equals `spk`.
fn contains_spk(v: &Vec<u64>, spk: u64) -> (r: bool)
    ensures
        r == v@.contains(spk),
{
    let mut i: usize = 0;
    while i < v.len()
        invariant
            i <= v.len(),
            forall|j: int| 0 <= j < i ==> (#[trigger] v@[j]) != spk,
        decreases v.len() - i,
    {
        if v[i] == spk {
            assert(v@[i as int] == spk);
            return true;
        }
        i += 1;
    }
    proof {
        if v@.contains(spk) {
            let j = choose|j: int| 0 <= j < v@.len() && (#[trigger] v@[j]) == spk;
        }
    }
    false
}

impl TxIndex for SpkIndex {
    type Additions = SpkAdditions;

    open spec fn tx_relevant(&self, t: TxRepr) -> bool {
        exists|i: int| 0 <= i < t.outputs.len() && self.spks@.contains(
            (#[trigger] t.outputs[i]).script_pubkey,
        )
    }

    open spec fn spk_owned(&self, spk: u64) -> bool {
        self.spks@.contains(spk)
    }

    open spec fn indexed_tx(self, t: TxRepr) -> Self {
        self
    }

    open spec fn tx_diff(self, t: TxRepr) -> SpkAdditions {
        SpkAdditions
    }

    open spec fn indexed_txout(self, op: OutPoint, out: TxOut) -> Self {
        self
    }

    open spec fn txout_diff(self, op: OutPoint, out: TxOut) -> SpkAdditions {
        SpkAdditions
    }

    open spec fn applied(self, d: SpkAdditions) -> Self {
        self
    }

    fn index_tx(&mut self, tx: &Transaction) -> (r: SpkAdditions) {
        SpkAdditions
    }

    fn index_txout(&mut self, outpoint: OutPoint, txout: &TxOut) -> (r: SpkAdditions) {
        SpkAdditions
    }

    fn apply_additions(&mut self, additions: SpkAdditions) {
    }

    proof fn applied_laws(idx: Self, d1: SpkAdditions, d2: SpkAdditions) {
    }

    fn is_tx_relevant(&self, tx: &Transaction) -> (r: bool) {
        let mut i: usize = 0;
        while i < tx.outputs.len()
            invariant
                i <= tx.outputs.len(),
                forall|j: int| 0 <= j < i ==> !self.spks@.contains(
                    (#[trigger] tx.outputs@[j]).script_pubkey,
                ),
            decreases tx.outputs.len() - i,
        {
            if contains_spk(&self.spks, tx.outputs[i].script_pubkey) {
                assert(self.spks@.contains(tx@.outputs[i as int].script_pubkey));
                return true;
            }
            i += 1;
        }
        false
    }

    fn is_spk_owned(&self, spk: u64) -> (r: bool) {
        contains_spk(&self.spks, spk)
    }
}

/// Which scripts the caller trusts to pay it: decides whether unconfirmed
/// value counts as trusted or untrusted pending.
pub struct TrustPolicy {
    trusted: Vec<u64>,
}

impl View for TrustPolicy {
    type V = Seq<u64>;

    closed spec fn view(&self) -> Seq<u64> {
        self.trusted@
    }
}

impl TrustPolicy {
    /// Trust exactly these script ids.
    pub fn new(trusted: Vec<u64>) -> (r: Self)
        ensures
            r@ == trusted@,
    {
        TrustPolicy { trusted }
    }

    /// Whether a script is trusted.
    pub fn should_trust(&self, spk: u64) -> (r: bool)
        ensures
            r == self@.contains(spk),
    {
        contains_spk(&self.trusted, spk)
    }
}

} // verus!
