//! What outputs claim and what they leave: when a transaction can be paid, and where the
//! rest of its inputs goes.

use crate::block::{txid_of, Transaction, TxIn, TxOut};
use crate::entry::{
    all_ordered, lemma_ranges_bytes_round_trip, outpoint_bytes, ranges_bytes, ranges_of_bytes,
    SatRange,
};
use crate::indexer::{
    claimed, distribute_spec, output_key, resolve_spec, spend_spec, Deltas, IndexError,
};
use crate::queue::{lemma_joined, lemma_take, sats_of, take_spec, total_len};
use vstd::prelude::*;

verus! {

/// **Outputs are paid in full or not at all.** The outputs of a transaction can be paid from
/// a queue exactly when the queue holds what they claim together. What is left of the queue
/// are then its last units, in their order.
pub proof fn lemma_distribute(
    cache: Map<Seq<u8>, Seq<u8>>,
    txid: Seq<u8>,
    outputs: Seq<TxOut>,
    vout: int,
    queue: Seq<SatRange>,
)
    requires
        all_ordered(queue),
        0 <= vout <= outputs.len(),
    ensures
        distribute_spec(cache, txid, outputs, vout, queue) is Ok <==> claimed(outputs, vout)
            <= total_len(queue),
        distribute_spec(cache, txid, outputs, vout, queue) is Err ==> distribute_spec(
            cache,
            txid,
            outputs,
            vout,
            queue,
        ) == Err::<(Map<Seq<u8>, Seq<u8>>, Seq<SatRange>), IndexError>(
            IndexError::InsufficientInputs,
        ),
        distribute_spec(cache, txid, outputs, vout, queue) matches Ok((_, left)) ==> {
            &&& all_ordered(left)
            &&& total_len(left) == total_len(queue) - claimed(outputs, vout)
            &&& sats_of(left) == sats_of(queue).skip(claimed(outputs, vout) as int)
        },
    decreases outputs.len() - vout,
{
    if vout >= outputs.len() {
        assert(sats_of(queue).skip(0) =~= sats_of(queue));
    } else {
        let value = outputs[vout].value as nat;
        lemma_take(queue, value);
        match take_spec(queue, value) {
            None => {},
            Some((taken, rest)) => {
                lemma_distribute(
                    cache.insert(output_key(txid, vout), ranges_bytes(taken)),
                    txid,
                    outputs,
                    vout + 1,
                    rest,
                );
                let later = claimed(outputs, vout + 1);
                if later <= total_len(rest) {
                    lemma_joined(queue, Seq::empty());
                    lemma_joined(rest, Seq::empty());
                    assert(sats_of(queue).skip(value as int).skip(later as int) =~= sats_of(
                        queue,
                    ).skip((value + later) as int));
                }
            },
        }
    }
}

/// Ranges that come out of the store are ordered, so a queue of spent inputs is.
pub proof fn lemma_resolved(
    deltas: Deltas,
    stored: Map<Seq<u8>, Seq<u8>>,
    inputs: Seq<TxIn>,
    at: int,
    queue: Seq<SatRange>,
)
    requires
        all_ordered(queue),
        0 <= at <= inputs.len(),
    ensures
        resolve_spec(deltas, stored, inputs, at, queue) matches Ok((_, resolved))
            ==> all_ordered(resolved),
    decreases inputs.len() - at,
{
    if at < inputs.len() {
        let key = outpoint_bytes(inputs[at].previous_output@);
        if deltas.cache.contains_key(key) {
            if deltas.cache[key].len() % 11 == 0 {
                lemma_loaded_ordered(queue, deltas.cache[key]);
                lemma_resolved(
                    Deltas { cache: deltas.cache.remove(key), spent: deltas.spent },
                    stored,
                    inputs,
                    at + 1,
                    queue + ranges_of_bytes(deltas.cache[key]),
                );
            }
        } else if stored.contains_key(key) {
            if stored[key].len() % 11 == 0 {
                lemma_loaded_ordered(queue, stored[key]);
                lemma_resolved(
                    Deltas { cache: deltas.cache, spent: deltas.spent.push(key) },
                    stored,
                    inputs,
                    at + 1,
                    queue + ranges_of_bytes(stored[key]),
                );
            }
        }
    }
}

/// An ordered queue stays ordered when a stored range list is read to its back.
proof fn lemma_loaded_ordered(queue: Seq<SatRange>, bytes: Seq<u8>)
    requires
        all_ordered(queue),
        bytes.len() % 11 == 0,
    ensures
        all_ordered(queue + ranges_of_bytes(bytes)),
{
    lemma_ranges_bytes_round_trip(bytes);
    let loaded = ranges_of_bytes(bytes);
    assert forall|at: int| 0 <= at < (queue + loaded).len() implies (#[trigger] (queue
        + loaded)[at]).ordered() by {
        if at >= queue.len() {
            assert(loaded[at - queue.len()].packable());
        }
    }
}

/// What transactions leave only ever goes to the back of the queue that the coinbase is paid
/// from: the queue as it was stays at the front.
pub proof fn lemma_fees_kept(
    deltas: Deltas,
    stored: Map<Seq<u8>, Seq<u8>>,
    txdata: Seq<Transaction>,
    at: int,
    fees: Seq<SatRange>,
)
    requires
        1 <= at,
    ensures
        spend_spec(deltas, stored, txdata, at, fees) matches Ok((_, coinbase_inputs))
            ==> fees.is_prefix_of(coinbase_inputs),
    decreases txdata.len() - at,
{
    if at < txdata.len() {
        match resolve_spec(deltas, stored, txdata[at].input@, 0, Seq::empty()) {
            Err(_) => {},
            Ok((resolved, queue)) => match distribute_spec(
                resolved.cache,
                txid_of(txdata[at]@),
                txdata[at].output@,
                0,
                queue,
            ) {
                Err(_) => {},
                Ok((cache, left)) => {
                    lemma_fees_kept(
                        Deltas { cache, spent: resolved.spent },
                        stored,
                        txdata,
                        at + 1,
                        fees + left,
                    );
                    match spend_spec(deltas, stored, txdata, at, fees) {
                        Ok((_, coinbase_inputs)) => {
                            assert((fees + left).is_prefix_of(coinbase_inputs));
                            assert(fees =~= coinbase_inputs.subrange(0, fees.len() as int)) by {
                                assert((fees + left) =~= coinbase_inputs.subrange(
                                    0,
                                    (fees + left).len() as int,
                                ));
                            }
                        },
                        Err(_) => {},
                    }
                },
            },
        }
    }
}

/// **Fees go to the coinbase.** Where the inputs of a transaction that is not the coinbase
/// carry more units than its outputs claim, its outputs are paid, and what is left are the
/// last units of its inputs, in their order. They go behind what earlier transactions left,
/// in the queue that the coinbase of the block is paid from, and stay there, in that place,
/// until the coinbase is paid.
pub proof fn lemma_fees_forwarded(
    deltas: Deltas,
    stored: Map<Seq<u8>, Seq<u8>>,
    txdata: Seq<Transaction>,
    at: int,
    fees: Seq<SatRange>,
)
    requires
        1 <= at < txdata.len(),
        resolve_spec(deltas, stored, txdata[at].input@, 0, Seq::empty()) matches Ok((_, queue))
            && claimed(txdata[at].output@, 0) < total_len(queue),
    ensures
        ({
            let (resolved, queue) = resolve_spec(
                deltas,
                stored,
                txdata[at].input@,
                0,
                Seq::empty(),
            )->Ok_0;
            let paid = distribute_spec(
                resolved.cache,
                txid_of(txdata[at]@),
                txdata[at].output@,
                0,
                queue,
            );
            &&& paid matches Ok((cache, left))
            &&& total_len(left) == total_len(queue) - claimed(txdata[at].output@, 0) > 0
            &&& sats_of(left) == sats_of(queue).skip(claimed(txdata[at].output@, 0) as int)
            &&& spend_spec(deltas, stored, txdata, at, fees) == spend_spec(
                Deltas { cache: paid->Ok_0.0, spent: resolved.spent },
                stored,
                txdata,
                at + 1,
                fees + paid->Ok_0.1,
            )
            &&& spend_spec(deltas, stored, txdata, at, fees) matches Ok((_, coinbase_inputs)) ==> (
            fees + paid->Ok_0.1).is_prefix_of(coinbase_inputs)
        }),
{
    let (resolved, queue) = resolve_spec(deltas, stored, txdata[at].input@, 0, Seq::empty())->Ok_0;
    lemma_resolved(deltas, stored, txdata[at].input@, 0, Seq::empty());
    lemma_distribute(resolved.cache, txid_of(txdata[at]@), txdata[at].output@, 0, queue);
    let paid = distribute_spec(resolved.cache, txid_of(txdata[at]@), txdata[at].output@, 0, queue);
    lemma_fees_kept(
        Deltas { cache: paid->Ok_0.0, spent: resolved.spent },
        stored,
        txdata,
        at + 1,
        fees + paid->Ok_0.1,
    );
}

} // verus!
