//! What indexing a block reads of the store: why it is enough to fetch, with the block, what
//! the store holds for the outputs that the block spends.

use crate::block::{lookups, spent_by, txid_of, Block, Transaction, TxIn, TxOut};
use crate::entry::{outpoint_bytes, ranges_bytes, ranges_of_bytes, SatRange};
use crate::indexer::{
    distribute_spec, index_block_spec, minted, output_key, resolve_spec, spend_spec, uncached,
    Deltas,
};
use crate::queue::take_spec;
use vstd::prelude::*;

verus! {

/// Two tables hold the same for every reference of the list: both nothing, or both the same
/// range list.
pub open spec fn agree_on(
    first: Map<Seq<u8>, Seq<u8>>,
    second: Map<Seq<u8>, Seq<u8>>,
    outpoints: Seq<Seq<u8>>,
) -> bool {
    forall|at: int|
        0 <= at < outpoints.len() ==> first.contains_key(#[trigger] outpoints[at])
            == second.contains_key(outpoints[at]) && (first.contains_key(outpoints[at])
            ==> first[outpoints[at]] == second[outpoints[at]])
}

/// Spending the inputs of a transaction reads the store only at the outputs they spend.
proof fn lemma_resolve_reads(
    deltas: Deltas,
    stored: Map<Seq<u8>, Seq<u8>>,
    snapshot: Map<Seq<u8>, Seq<u8>>,
    inputs: Seq<TxIn>,
    at: int,
    queue: Seq<SatRange>,
)
    requires
        0 <= at <= inputs.len(),
        forall|k: int|
            at <= k < inputs.len() ==> agree_on(
                stored,
                snapshot,
                seq![#[trigger] outpoint_bytes(inputs[k].previous_output@)],
            ),
    ensures
        resolve_spec(deltas, snapshot, inputs, at, queue) == resolve_spec(
            deltas,
            stored,
            inputs,
            at,
            queue,
        ),
    decreases inputs.len() - at,
{
    if at < inputs.len() {
        let key = outpoint_bytes(inputs[at].previous_output@);
        assert(agree_on(stored, snapshot, seq![key]));
        assert(seq![key][0] == key);
        if deltas.cache.contains_key(key) {
            lemma_resolve_reads(
                Deltas { cache: deltas.cache.remove(key), spent: deltas.spent },
                stored,
                snapshot,
                inputs,
                at + 1,
                queue + ranges_of_bytes(deltas.cache[key]),
            );
        } else if stored.contains_key(key) {
            lemma_resolve_reads(
                Deltas { cache: deltas.cache, spent: deltas.spent.push(key) },
                stored,
                snapshot,
                inputs,
                at + 1,
                queue + ranges_of_bytes(stored[key]),
            );
        }
    }
}

/// The transactions of a block read the store only at the outputs they spend.
proof fn lemma_spend_reads(
    deltas: Deltas,
    stored: Map<Seq<u8>, Seq<u8>>,
    snapshot: Map<Seq<u8>, Seq<u8>>,
    txdata: Seq<Transaction>,
    at: int,
    fees: Seq<SatRange>,
)
    requires
        1 <= at,
        agree_on(stored, snapshot, lookups(txdata, at)),
    ensures
        spend_spec(deltas, snapshot, txdata, at, fees) == spend_spec(
            deltas,
            stored,
            txdata,
            at,
            fees,
        ),
    decreases txdata.len() - at,
{
    if at < txdata.len() {
        let inputs = txdata[at].input@;
        let here = Seq::new(inputs.len(), |k: int| outpoint_bytes(inputs[k].previous_output@));
        let later = lookups(txdata, at + 1);
        assert(lookups(txdata, at) == here + later);
        assert forall|k: int| 0 <= k < inputs.len() implies agree_on(
            stored,
            snapshot,
            seq![#[trigger] outpoint_bytes(inputs[k].previous_output@)],
        ) by {
            assert((here + later)[k] == outpoint_bytes(inputs[k].previous_output@));
        }
        assert(agree_on(stored, snapshot, later)) by {
            assert forall|k: int| 0 <= k < later.len() implies stored.contains_key(
                #[trigger] later[k],
            ) == snapshot.contains_key(later[k]) && (stored.contains_key(later[k]) ==> stored[later[k]]
                == snapshot[later[k]]) by {
                assert((here + later)[here.len() + k] == later[k]);
            }
        }
        lemma_resolve_reads(deltas, stored, snapshot, inputs, 0, Seq::empty());
        match resolve_spec(deltas, stored, inputs, 0, Seq::empty()) {
            Err(_) => {},
            Ok((resolved, queue)) => match distribute_spec(
                resolved.cache,
                txid_of(txdata[at]@),
                txdata[at].output@,
                0,
                queue,
            ) {
                Err(_) => {},
                Ok((cache, left)) => {
                    lemma_spend_reads(
                        Deltas { cache, spent: resolved.spent },
                        stored,
                        snapshot,
                        txdata,
                        at + 1,
                        fees + left,
                    );
                },
            },
        }
    }
}

/// **What is fetched with a block is enough.** A block is indexed against a table that holds
/// what the store holds for the outputs that the block spends exactly as against the store
/// itself.
pub proof fn lemma_snapshot_suffices(
    deltas: Deltas,
    stored: Map<Seq<u8>, Seq<u8>>,
    snapshot: Map<Seq<u8>, Seq<u8>>,
    block: Block,
    height: nat,
)
    requires
        agree_on(stored, snapshot, lookups(block.txdata@, 1)),
    ensures
        index_block_spec(deltas, snapshot, block, height) == index_block_spec(
            deltas,
            stored,
            block,
            height,
        ),
{
    lemma_spend_reads(deltas, stored, snapshot, block.txdata@, 1, minted(height));
}

/// What the cache does not hold of a list is in the list of what it does not hold.
proof fn lemma_uncached_holds(cache: Map<Seq<u8>, Seq<u8>>, outpoints: Seq<Seq<u8>>, at: int)
    requires
        0 <= at < outpoints.len(),
        !cache.contains_key(outpoints[at]),
    ensures
        uncached(cache, outpoints).contains(outpoints[at]),
    decreases outpoints.len(),
{
    let rest = uncached(cache, outpoints.skip(1));
    if at == 0 {
        assert((seq![outpoints[0]] + rest)[0] == outpoints[0]);
    } else {
        lemma_uncached_holds(cache, outpoints.skip(1), at - 1);
        let found = choose|k: int| 0 <= k < rest.len() && rest[k] == outpoints[at];
        if !cache.contains_key(outpoints[0]) {
            assert((seq![outpoints[0]] + rest)[found + 1] == outpoints[at]);
        }
    }
}

/// Paying outputs takes nothing out of the cache.
proof fn lemma_distribute_keeps(
    cache: Map<Seq<u8>, Seq<u8>>,
    txid: Seq<u8>,
    outputs: Seq<TxOut>,
    vout: int,
    queue: Seq<SatRange>,
)
    requires
        0 <= vout,
    ensures
        distribute_spec(cache, txid, outputs, vout, queue) matches Ok((paid, _)) ==> forall|
            outpoint: Seq<u8>,
        |
            cache.contains_key(outpoint) ==> paid.contains_key(outpoint),
    decreases outputs.len() - vout,
{
    if vout < outputs.len() {
        match take_spec(queue, outputs[vout].value as nat) {
            None => {},
            Some((taken, rest)) => {
                lemma_distribute_keeps(
                    cache.insert(output_key(txid, vout), ranges_bytes(taken)),
                    txid,
                    outputs,
                    vout + 1,
                    rest,
                );
            },
        }
    }
}

/// What is still to be spent and was cached at first is cached still, and the two tables hold
/// the same for what is still to be spent and was not cached at first.
spec fn still_served(
    first: Map<Seq<u8>, Seq<u8>>,
    cache: Map<Seq<u8>, Seq<u8>>,
    stored: Map<Seq<u8>, Seq<u8>>,
    snapshot: Map<Seq<u8>, Seq<u8>>,
    ahead: Seq<Seq<u8>>,
) -> bool {
    &&& ahead.no_duplicates()
    &&& forall|at: int|
        0 <= at < ahead.len() && first.contains_key(#[trigger] ahead[at]) ==> cache.contains_key(
            ahead[at],
        )
    &&& forall|at: int|
        0 <= at < ahead.len() && !first.contains_key(#[trigger] ahead[at])
            ==> stored.contains_key(ahead[at]) == snapshot.contains_key(ahead[at]) && (
        stored.contains_key(ahead[at]) ==> stored[ahead[at]] == snapshot[ahead[at]])
}

/// Where nothing is spent twice, spending the inputs of a transaction reads the store only at
/// outputs that were not cached at first.
proof fn lemma_resolve_reads_uncached(
    first: Map<Seq<u8>, Seq<u8>>,
    deltas: Deltas,
    stored: Map<Seq<u8>, Seq<u8>>,
    snapshot: Map<Seq<u8>, Seq<u8>>,
    transaction: Transaction,
    later: Seq<Seq<u8>>,
    at: int,
    queue: Seq<SatRange>,
)
    requires
        0 <= at <= transaction.input@.len(),
        still_served(first, deltas.cache, stored, snapshot, spent_by(transaction).skip(at) + later),
    ensures
        resolve_spec(deltas, snapshot, transaction.input@, at, queue) == resolve_spec(
            deltas,
            stored,
            transaction.input@,
            at,
            queue,
        ),
        resolve_spec(deltas, stored, transaction.input@, at, queue) matches Ok((resolved, _))
            ==> still_served(first, resolved.cache, stored, snapshot, later),
    decreases transaction.input@.len() - at,
{
    let inputs = transaction.input@;
    let ahead = spent_by(transaction).skip(at) + later;
    if at < inputs.len() {
        let key = outpoint_bytes(inputs[at].previous_output@);
        assert(ahead[0] == key);
        let rest = spent_by(transaction).skip(at + 1) + later;
        assert forall|k: int| 0 <= k < rest.len() implies #[trigger] rest[k] == ahead[k + 1] && rest[k]
            != key by {
            assert(ahead[0] != ahead[k + 1]);
        }
        let next = if deltas.cache.contains_key(key) {
            Deltas { cache: deltas.cache.remove(key), spent: deltas.spent }
        } else {
            Deltas { cache: deltas.cache, spent: deltas.spent.push(key) }
        };
        assert(still_served(first, next.cache, stored, snapshot, rest)) by {
            assert forall|j: int, k: int| 0 <= j < rest.len() && 0 <= k < rest.len() && j
                != k implies rest[j] != rest[k] by {
                assert(ahead[j + 1] != ahead[k + 1]);
            }
        }
        let bytes = if deltas.cache.contains_key(key) {
            deltas.cache[key]
        } else {
            stored[key]
        };
        lemma_resolve_reads_uncached(
            first,
            next,
            stored,
            snapshot,
            transaction,
            later,
            at + 1,
            queue + ranges_of_bytes(bytes),
        );
    } else {
        assert(ahead =~= later);
    }
}

/// Where nothing is spent twice, the transactions of a block read the store only at outputs
/// that were not cached at first.
proof fn lemma_spend_reads_uncached(
    first: Map<Seq<u8>, Seq<u8>>,
    deltas: Deltas,
    stored: Map<Seq<u8>, Seq<u8>>,
    snapshot: Map<Seq<u8>, Seq<u8>>,
    txdata: Seq<Transaction>,
    at: int,
    fees: Seq<SatRange>,
)
    requires
        1 <= at,
        still_served(first, deltas.cache, stored, snapshot, lookups(txdata, at)),
    ensures
        spend_spec(deltas, snapshot, txdata, at, fees) == spend_spec(
            deltas,
            stored,
            txdata,
            at,
            fees,
        ),
    decreases txdata.len() - at,
{
    if at < txdata.len() {
        let later = lookups(txdata, at + 1);
        assert(spent_by(txdata[at]).skip(0) =~= spent_by(txdata[at]));
        lemma_resolve_reads_uncached(
            first,
            deltas,
            stored,
            snapshot,
            txdata[at],
            later,
            0,
            Seq::empty(),
        );
        match resolve_spec(deltas, stored, txdata[at].input@, 0, Seq::empty()) {
            Err(_) => {},
            Ok((resolved, queue)) => {
                lemma_distribute_keeps(
                    resolved.cache,
                    txid_of(txdata[at]@),
                    txdata[at].output@,
                    0,
                    queue,
                );
                match distribute_spec(
                    resolved.cache,
                    txid_of(txdata[at]@),
                    txdata[at].output@,
                    0,
                    queue,
                ) {
                    Err(_) => {},
                    Ok((cache, left)) => {
                        lemma_spend_reads_uncached(
                            first,
                            Deltas { cache, spent: resolved.spent },
                            stored,
                            snapshot,
                            txdata,
                            at + 1,
                            fees + left,
                        );
                    },
                }
            },
        }
    }
}

/// **What the cache holds need not be fetched.** Where a block spends nothing twice, it is
/// indexed against a table that holds what the store holds for the spent outputs that are
/// not cached exactly as against the store itself.
pub proof fn lemma_uncached_snapshot_suffices(
    deltas: Deltas,
    stored: Map<Seq<u8>, Seq<u8>>,
    snapshot: Map<Seq<u8>, Seq<u8>>,
    block: Block,
    height: nat,
)
    requires
        lookups(block.txdata@, 1).no_duplicates(),
        agree_on(stored, snapshot, uncached(deltas.cache, lookups(block.txdata@, 1))),
    ensures
        index_block_spec(deltas, snapshot, block, height) == index_block_spec(
            deltas,
            stored,
            block,
            height,
        ),
{
    let all = lookups(block.txdata@, 1);
    let asked = uncached(deltas.cache, all);
    assert forall|at: int| 0 <= at < all.len() && !deltas.cache.contains_key(
        #[trigger] all[at],
    ) implies stored.contains_key(all[at]) == snapshot.contains_key(all[at]) && (
    stored.contains_key(all[at]) ==> stored[all[at]] == snapshot[all[at]]) by {
        lemma_uncached_holds(deltas.cache, all, at);
        let found = choose|k: int| 0 <= k < asked.len() && asked[k] == all[at];
        assert(asked[found] == all[at]);
    }
    lemma_spend_reads_uncached(
        deltas.cache,
        deltas,
        stored,
        snapshot,
        block.txdata@,
        1,
        minted(height),
    );
}

} // verus!
