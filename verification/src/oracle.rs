//! The best-chain authority consumed by the store, and two local backings.

use vstd::prelude::*;
use crate::kv::{map_of, lemma_map_of_contains, lemma_map_of_last};

verus! {

/// External authority answering "which block hash sits at height `h` of the
/// best chain". `chain()` is the snapshot the oracle answers from: the heights
/// it knows a block for, each with that block's hash. A call may fail instead
/// of answering, but an answer always agrees with the snapshot, so successive
/// calls within one query batch are mutually consistent. An oracle that is
/// `total()` cannot fail; the convenience queries that return bare values
/// instead of results ask for such an oracle.
pub trait ChainOracle {
    /// Error the oracle may fail with.
    type Error;

    /// The snapshot of the best chain the oracle answers from.
    spec fn chain(&self) -> Map<u32, u64>;

    /// Whether this oracle promises to always answer.
    spec fn total(&self) -> bool;

    /// Hash of the best-chain block at `height`, `None` if the chain has no
    /// block there, or an error.
    fn get_block_in_best_chain(&self, height: u32) -> (r: Result<Option<u64>, Self::Error>)
        ensures
            r matches Ok(h) ==> h == (if self.chain().dom().contains(height) {
                Some(self.chain()[height])
            } else {
                None::<u64>
            }),
            self.total() ==> r is Ok,
    ;
}

/// An in-memory oracle that always answers: a list of `(height, hash)`
/// entries; where a height is repeated, the later entry wins.
pub struct LocalOracle {
    blocks: Vec<(u32, u64)>,
}

impl LocalOracle {
    /// Build the oracle from `(height, hash)` entries.
    pub fn new(blocks: Vec<(u32, u64)>) -> (r: Self)
        ensures
            r.chain() == map_of(blocks@),
            r.total(),
    {
        LocalOracle { blocks }
    }
}

/// Hash of the last entry for a height, `None` if the height is absent:
/// exactly the height's value in the denoted map.
fn lookup_height(blocks: &Vec<(u32, u64)>, height: u32) -> (r: Option<u64>)
    ensures
        r == (if map_of(blocks@).dom().contains(height) {
            Some(map_of(blocks@)[height])
        } else {
            None::<u64>
        }),
{
    proof {
        lemma_map_of_contains(blocks@, height);
    }
    let mut i: usize = blocks.len();
    while i > 0
        invariant
            i <= blocks.len(),
            forall|j: int| i <= j < blocks@.len() ==> (#[trigger] blocks@[j]).0 != height,
        decreases i,
    {
        i -= 1;
        if blocks[i].0 == height {
            proof {
                lemma_map_of_last(blocks@, i as int);
            }
            return Some(blocks[i].1);
        }
    }
    None
}

impl ChainOracle for LocalOracle {
    type Error = ();

    closed spec fn chain(&self) -> Map<u32, u64> {
        map_of(self.blocks@)
    }

    closed spec fn total(&self) -> bool {
        true
    }

    fn get_block_in_best_chain(&self, height: u32) -> (r: Result<Option<u64>, ()>) {
        Ok(lookup_height(&self.blocks, height))
    }
}

/// An oracle that answers only up to a horizon and fails above it: a test
/// double for a backing source that has not synced far enough.
pub struct BoundedOracle {
    inner: LocalOracle,
    horizon: u32,
}

/// Error of [`BoundedOracle`]: the height that lay beyond its horizon.
#[derive(Clone, Copy, Debug, PartialEq, Eq, Structural)]
pub struct BeyondHorizon(pub u32);

impl BoundedOracle {
    /// The highest height the oracle answers for.
    pub closed spec fn horizon_spec(&self) -> u32 {
        self.horizon
    }

    /// Oracle answering from `blocks` for heights up to `horizon`.
    pub fn new(blocks: Vec<(u32, u64)>, horizon: u32) -> (r: Self)
        ensures
            r.chain() == map_of(blocks@),
            r.horizon_spec() == horizon,
    {
        BoundedOracle { inner: LocalOracle::new(blocks), horizon }
    }
}

impl ChainOracle for BoundedOracle {
    type Error = BeyondHorizon;

    closed spec fn chain(&self) -> Map<u32, u64> {
        self.inner.chain()
    }

    closed spec fn total(&self) -> bool {
        false
    }

    fn get_block_in_best_chain(&self, height: u32) -> (r: Result<Option<u64>, BeyondHorizon>)
        ensures
            height <= self.horizon_spec() <==> r is Ok,
    {
        if height > self.horizon {
            Err(BeyondHorizon(height))
        } else {
            match self.inner.get_block_in_best_chain(height) {
                Ok(h) => Ok(h),
                Err(_) => vstd::pervasive::unreached(),
            }
        }
    }
}

} // verus!
