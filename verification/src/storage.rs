//! The store as the engine relies on it: a table from output references to range lists, and
//! the height of the last checkpoint, which change together or not at all.

use crate::indexer::Deltas;
use vstd::prelude::*;

verus! {

/// What the store holds after a checkpoint.
pub struct Store {
    /// The range list of every output that was unspent at the last checkpoint.
    pub ranges: Map<Seq<u8>, Seq<u8>>,
    /// The height of the last checkpoint, if there was one.
    pub height: Option<u64>,
}

impl Store {
    /// A store before its first checkpoint.
    pub open spec fn fresh() -> Store {
        Store { ranges: Map::empty(), height: None }
    }

    /// The height of the last block whose effects the store holds.
    pub open spec fn last_committed_height(self) -> Option<u64> {
        self.height
    }

    /// The range list of an output, if the store holds one.
    pub open spec fn get_range_bytes(self, outpoint: Seq<u8>) -> Option<Seq<u8>> {
        if self.ranges.contains_key(outpoint) {
            Some(self.ranges[outpoint])
        } else {
            None
        }
    }

    /// The store after a checkpoint at `height` that takes `deltas`: every cached output is
    /// written, over what the store held for it, then every spent output is deleted, and the
    /// height is set.
    pub open spec fn commit(self, deltas: Deltas, height: u64) -> Store {
        Store {
            ranges: Map::new(
                |outpoint: Seq<u8>|
                    (self.ranges.contains_key(outpoint) || deltas.cache.contains_key(outpoint))
                        && !deltas.spent.contains(outpoint),
                |outpoint: Seq<u8>|
                    if deltas.cache.contains_key(outpoint) {
                        deltas.cache[outpoint]
                    } else {
                        self.ranges[outpoint]
                    },
            ),
            height: Some(height),
        }
    }

    /// The range list of every unspent output, as the store and the deltas show it together:
    /// what is cached, and what is stored and not spent.
    pub open spec fn unspent(self, deltas: Deltas) -> Map<Seq<u8>, Seq<u8>> {
        Map::new(
            |outpoint: Seq<u8>|
                deltas.cache.contains_key(outpoint) || (self.ranges.contains_key(outpoint)
                    && !deltas.spent.contains(outpoint)),
            |outpoint: Seq<u8>|
                if deltas.cache.contains_key(outpoint) {
                    deltas.cache[outpoint]
                } else {
                    self.ranges[outpoint]
                },
        )
    }
}

/// The height at which a run starts: the one after the last committed, or 0 on a fresh store.
pub open spec fn next_height(committed: Option<u64>) -> int {
    match committed {
        Some(height) => height + 1,
        None => 0,
    }
}

/// The height at which a run starts, if there is such a height: the one after the last
/// committed, or 0 on a fresh store.
pub fn get_next_height(committed: Option<u64>) -> (next: Option<u64>)
    ensures
        match next {
            Some(height) => height == next_height(committed),
            None => next_height(committed) > u64::MAX,
        },
{
    match committed {
        Some(height) => height.checked_add(1),
        None => Some(0),
    }
}

/// **A checkpoint moves, it does not change.** Where no cached output is on the spent list,
/// the unspent outputs are the same before a checkpoint, in the store and the deltas together,
/// and after it, in the store alone; and the store's height is the checkpoint's.
pub proof fn lemma_checkpoint(store: Store, deltas: Deltas, height: u64)
    requires
        forall|outpoint: Seq<u8>|
            deltas.cache.contains_key(outpoint) ==> !deltas.spent.contains(outpoint),
    ensures
        store.commit(deltas, height).unspent(Deltas::none()) == store.unspent(deltas),
        store.commit(deltas, height).last_committed_height() == Some(height),
{
    assert(store.commit(deltas, height).unspent(Deltas::none()) =~= store.unspent(deltas));
}

/// Before anything was cached or spent, the unspent outputs are what the store holds.
pub proof fn lemma_unspent_of_store(store: Store)
    ensures
        store.unspent(Deltas::none()) == store.ranges,
{
    assert(store.unspent(Deltas::none()) =~= store.ranges);
}

} // verus!
