//! Decisions of the chain-scan event loop.
//!
//! A networked chain source reports raw node events: filters processed,
//! blocks matched, headers synced. Which of them the wallet should act on —
//! hand over a matched block, or declare the scan finished — is bookkeeping
//! over three pieces of state: the last processed block, the set of matched
//! blocks whose contents are still awaited, and whether the header chain has
//! caught up. This module holds those decisions as a verified step function;
//! the unverified shell runs the loop, performs the network work, and feeds
//! each event in.

use vstd::prelude::*;
use crate::types::BlockId;

verus! {

/// A raw event the chain source reports.
pub enum NodeEvent {
    /// The contents of a matched block arrived.
    BlockMatched(BlockId),
    /// The compact filter of a block was processed; `matched` says whether
    /// the block holds something the scan watches for.
    FilterProcessed(BlockId, bool),
    /// The source's header chain reached `height` of a tip at `tip`.
    Synced(u32, u32),
    /// Anything else the source may report; the scan ignores it.
    Other,
}

/// What the wallet should act on.
pub enum ScanEvent {
    /// Process this matched block's transactions.
    BlockMatched(BlockId),
    /// The scan is finished up to the recorded block.
    ChainSynced(Option<BlockId>),
}

/// The scan's bookkeeping state.
pub struct SyncTracker {
    processed: Option<BlockId>,
    matched: Vec<u64>,
    chain_synced: bool,
}

/// Whether one of the hashes equals `h`.
fn contains_hash(v: &Vec<u64>, h: u64) -> (r: bool)
    ensures
        r == v@.contains(h),
{
    let mut i: usize = 0;
    while i < v.len()
        invariant
            i <= v.len(),
            forall|j: int| 0 <= j < i ==> (#[trigger] v@[j]) != h,
        decreases v.len() - i,
    {
        if v[i] == h {
            assert(v@[i as int] == h);
            return true;
        }
        i += 1;
    }
    proof {
        if v@.contains(h) {
            let j = choose|j: int| 0 <= j < v@.len() && (#[trigger] v@[j]) == h;
        }
    }
    false
}

impl SyncTracker {
    /// The last processed block.
    pub closed spec fn processed_spec(&self) -> Option<BlockId> {
        self.processed
    }

    /// Hashes of matched blocks whose contents are still awaited.
    pub closed spec fn matched_spec(&self) -> Set<u64> {
        self.matched@.to_set()
    }

    /// Whether the header chain has caught up.
    pub closed spec fn synced_spec(&self) -> bool {
        self.chain_synced
    }

    /// No hash is awaited twice.
    pub closed spec fn wf(&self) -> bool {
        self.matched@.no_duplicates()
    }

    /// A tracker that starts a scan from `processed`, awaiting nothing.
    pub fn new(processed: Option<BlockId>) -> (r: Self)
        ensures
            r.wf(),
            r.processed_spec() == processed,
            r.matched_spec() == Set::<u64>::empty(),
            !r.synced_spec(),
    {
        let r = SyncTracker { processed, matched: Vec::new(), chain_synced: false };
        proof {
            assert(r.matched@.to_set() =~= Set::<u64>::empty());
        }
        r
    }

    /// Advance the scan by one raw event and say what to act on: a matched
    /// block is handed over and no longer awaited; a processed filter moves
    /// the processed mark and, when it matched, awaits the block; the scan
    /// is finished once the headers have caught up and nothing is awaited.
    pub fn step(&mut self, event: NodeEvent) -> (r: Option<ScanEvent>)
        requires
            old(self).wf(),
        ensures
            final(self).wf(),
            match event {
                NodeEvent::BlockMatched(b) => {
                    &&& final(self).matched_spec() == old(self).matched_spec().remove(b.hash)
                    &&& final(self).processed_spec() == old(self).processed_spec()
                    &&& final(self).synced_spec() == old(self).synced_spec()
                    &&& r matches Some(ScanEvent::BlockMatched(got)) && got == b
                },
                NodeEvent::FilterProcessed(b, matched) => {
                    &&& final(self).processed_spec() == Some(b)
                    &&& final(self).matched_spec() == (if matched {
                        old(self).matched_spec().insert(b.hash)
                    } else {
                        old(self).matched_spec()
                    })
                    &&& final(self).synced_spec() == old(self).synced_spec()
                    &&& r == (if old(self).synced_spec() && final(self).matched_spec()
                        =~= Set::<u64>::empty() {
                        Some(ScanEvent::ChainSynced(Some(b)))
                    } else {
                        None::<ScanEvent>
                    })
                },
                NodeEvent::Synced(height, tip) => {
                    &&& final(self).processed_spec() == old(self).processed_spec()
                    &&& final(self).matched_spec() == old(self).matched_spec()
                    &&& (height == tip ==> (r matches Some(ScanEvent::ChainSynced(p)) && p == old(
                        self,
                    ).processed_spec() && final(self).synced_spec() == old(self).synced_spec()))
                    &&& (height != tip ==> r is None && final(self).synced_spec())
                },
                NodeEvent::Other => *final(self) == *old(self) && r is None,
            },
    {
        match event {
            NodeEvent::BlockMatched(b) => {
                self.remove_hash(b.hash);
                Some(ScanEvent::BlockMatched(b))
            },
            NodeEvent::FilterProcessed(b, matched) => {
                self.processed = Some(b);
                if matched {
                    if !contains_hash(&self.matched, b.hash) {
                        let ghost s0 = self.matched@;
                        self.matched.push(b.hash);
                        proof {
                            s0.lemma_push_to_set_commute(b.hash);
                            assert(self.matched@.to_set() == s0.to_set().insert(b.hash));
                        }
                    } else {
                        proof {
                            assert(self.matched@.to_set() =~= self.matched@.to_set().insert(
                                b.hash,
                            ));
                        }
                    }
                }
                if self.chain_synced && self.matched.len() == 0 {
                    proof {
                        assert(self.matched@.to_set() =~= Set::<u64>::empty());
                    }
                    Some(ScanEvent::ChainSynced(self.processed))
                } else {
                    proof {
                        if self.chain_synced && self.matched@.to_set() =~= Set::<u64>::empty() {
                            assert(self.matched@.len() > 0);
                            assert(self.matched@.to_set().contains(self.matched@[0]));
                        }
                    }
                    None
                }
            },
            NodeEvent::Synced(height, tip) => {
                if height == tip {
                    Some(ScanEvent::ChainSynced(self.processed))
                } else {
                    self.chain_synced = true;
                    None
                }
            },
            NodeEvent::Other => None,
        }
    }

    /// Stop awaiting a hash, if it was awaited.
    fn remove_hash(&mut self, h: u64)
        requires
            old(self).wf(),
        ensures
            final(self).wf(),
            final(self).matched_spec() == old(self).matched_spec().remove(h),
            final(self).processed == old(self).processed,
            final(self).chain_synced == old(self).chain_synced,
    {
        let mut i: usize = 0;
        while i < self.matched.len()
            invariant
                i <= self.matched.len(),
                self.wf(),
                self.processed == old(self).processed,
                self.chain_synced == old(self).chain_synced,
                self.matched == old(self).matched,
                forall|j: int| 0 <= j < i ==> (#[trigger] self.matched@[j]) != h,
            decreases self.matched.len() - i,
        {
            if self.matched[i] == h {
                let ghost s = self.matched@;
                self.matched.remove(i);
                proof {
                    lemma_remove_to_set(s, i as int);
                }
                return ;
            }
            i += 1;
        }
        proof {
            assert(!self.matched@.contains(h));
            assert(self.matched@.to_set() =~= self.matched@.to_set().remove(h));
        }
    }
}

/// Removing the entry at `i` from a duplicate-free sequence removes exactly
/// its element from the denoted set, and keeps the sequence duplicate-free.
proof fn lemma_remove_to_set(s: Seq<u64>, i: int)
    requires
        0 <= i < s.len(),
        s.no_duplicates(),
    ensures
        s.remove(i).no_duplicates(),
        s.remove(i).to_set() == s.to_set().remove(s[i]),
{
    let t = s.remove(i);
    assert(t.to_set() =~= s.to_set().remove(s[i])) by {
        assert forall|x: u64| t.contains(x) implies s.to_set().remove(s[i]).contains(x) by {
            let j = choose|j: int| 0 <= j < t.len() && t[j] == x;
            if j < i {
                assert(s[j] == x);
            } else {
                assert(s[j + 1] == x);
            }
        }
        assert forall|x: u64| s.to_set().remove(s[i]).contains(x) implies t.contains(x) by {
            let j = choose|j: int| 0 <= j < s.len() && s[j] == x;
            if j < i {
                assert(t[j] == x);
            } else {
                assert(j != i);
                assert(t[j - 1] == x);
            }
        }
    }
}

} // verus!
