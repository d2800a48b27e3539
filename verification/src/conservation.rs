//! Conservation: every unit that was minted is held by exactly one unspent output, unless a
//! coinbase left it unclaimed.

use crate::block::{txid_of, Block, Transaction, TxIn, TxOut};
use crate::entry::{
    all_packable, le_bytes_of_u32, lemma_ranges_bytes_round_trip, lemma_ranges_round_trip,
    outpoint_bytes, ranges_bytes, ranges_of_bytes, u32_of_le_bytes, SatRange, START_LIMIT,
};
use crate::indexer::{
    checkpoint_due, distribute_spec, index_block_spec, minted, output_key, resolve_spec,
    spend_spec, Deltas, IndexError,
};
use crate::queue::{count_of, lemma_joined, lemma_single, take_spec};
use crate::storage::Store;
use crate::subsidy::{lemma_starting_sat_step, lemma_supply_bound, starting_sat_at, subsidy_at};
use vstd::prelude::*;

verus! {

/// How many ranges of the outputs hold the sequence number `sat`, over all outputs.
pub open spec fn held(outputs: Map<Seq<u8>, Seq<u8>>, sat: int) -> nat
    decreases outputs.dom().len(),
{
    if outputs.dom().finite() && outputs.dom().len() > 0 {
        let outpoint = outputs.dom().choose();
        count_of(ranges_of_bytes(outputs[outpoint]), sat) + held(outputs.remove(outpoint), sat)
    } else {
        0
    }
}

/// Any output can be counted first.
pub proof fn lemma_held_remove(outputs: Map<Seq<u8>, Seq<u8>>, outpoint: Seq<u8>, sat: int)
    requires
        outputs.dom().finite(),
        outputs.contains_key(outpoint),
    ensures
        held(outputs, sat) == count_of(ranges_of_bytes(outputs[outpoint]), sat) + held(
            outputs.remove(outpoint),
            sat,
        ),
    decreases outputs.dom().len(),
{
    let first = outputs.dom().choose();
    if first != outpoint {
        lemma_held_remove(outputs.remove(first), outpoint, sat);
        lemma_held_remove(outputs.remove(outpoint), first, sat);
        assert(outputs.remove(first).remove(outpoint) =~= outputs.remove(outpoint).remove(first));
    }
}

/// An output that was not there counts for what its ranges hold.
pub proof fn lemma_held_insert(
    outputs: Map<Seq<u8>, Seq<u8>>,
    outpoint: Seq<u8>,
    ranges: Seq<u8>,
    sat: int,
)
    requires
        outputs.dom().finite(),
        !outputs.contains_key(outpoint),
    ensures
        held(outputs.insert(outpoint, ranges), sat) == count_of(ranges_of_bytes(ranges), sat)
            + held(outputs, sat),
{
    lemma_held_remove(outputs.insert(outpoint, ranges), outpoint, sat);
    assert(outputs.insert(outpoint, ranges).remove(outpoint) =~= outputs);
}

/// The deltas fit the store: both are finite, nothing is cached that the store holds, and
/// what is on the spent list is in the store.
pub open spec fn sound(store: Store, deltas: Deltas) -> bool {
    &&& store.ranges.dom().finite()
    &&& deltas.cache.dom().finite()
    &&& forall|outpoint: Seq<u8>|
        deltas.cache.contains_key(outpoint) ==> !store.ranges.contains_key(outpoint)
    &&& forall|at: int|
        0 <= at < deltas.spent.len() ==> store.ranges.contains_key(#[trigger] deltas.spent[at])
}

/// The unspent outputs of a finite store and finite deltas are finitely many.
proof fn lemma_unspent_finite(store: Store, deltas: Deltas)
    requires
        store.ranges.dom().finite(),
        deltas.cache.dom().finite(),
    ensures
        store.unspent(deltas).dom().finite(),
{
    let both = store.ranges.dom().union(deltas.cache.dom());
    vstd::set_lib::lemma_len_subset(store.unspent(deltas).dom(), both);
}

/// The stored reference that input `at` spends.
pub open spec fn input_key(inputs: Seq<TxIn>, at: int) -> Seq<u8> {
    outpoint_bytes(inputs[at].previous_output@)
}

/// The ranges of a list that is read from the store hold, one by one, what the list holds.
proof fn lemma_held_by_queue(queue: Seq<SatRange>, bytes: Seq<u8>)
    requires
        all_packable(queue),
        bytes.len() % 11 == 0,
    ensures
        all_packable(queue + ranges_of_bytes(bytes)),
        forall|sat: int|
            #[trigger] count_of(queue + ranges_of_bytes(bytes), sat) == count_of(queue, sat)
                + count_of(ranges_of_bytes(bytes), sat),
{
    lemma_ranges_bytes_round_trip(bytes);
    lemma_joined(queue, ranges_of_bytes(bytes));
    let loaded = ranges_of_bytes(bytes);
    assert forall|at: int| 0 <= at < (queue + loaded).len() implies (#[trigger] (queue
        + loaded)[at]).packable() by {
        if at >= queue.len() {
            assert(loaded[at - queue.len()].packable());
        }
    }
}

/// **Spending moves units, it makes none.** Where no input is spent twice, the units that the
/// inputs of a transaction held are in its queue, each as often as before, and no longer with
/// the unspent outputs.
pub proof fn lemma_resolve_conserves(
    store: Store,
    deltas: Deltas,
    inputs: Seq<TxIn>,
    at: int,
    queue: Seq<SatRange>,
)
    requires
        sound(store, deltas),
        all_packable(queue),
        0 <= at <= inputs.len(),
        forall|k: int| at <= k < inputs.len() ==> !deltas.spent.contains(#[trigger] input_key(inputs, k)),
        forall|j: int, k: int|
            at <= j < k < inputs.len() ==> #[trigger] input_key(inputs, j) != #[trigger] input_key(
                inputs,
                k,
            ),
        resolve_spec(deltas, store.ranges, inputs, at, queue) is Ok,
    ensures
        ({
            let (resolved, filled) = resolve_spec(deltas, store.ranges, inputs, at, queue)->Ok_0;
            &&& sound(store, resolved)
            &&& all_packable(filled)
            &&& forall|sat: int|
                #[trigger] held(store.unspent(resolved), sat) + count_of(filled, sat) == held(
                    store.unspent(deltas),
                    sat,
                ) + count_of(queue, sat)
            &&& forall|outpoint: Seq<u8>|
                resolved.cache.contains_key(outpoint) ==> deltas.cache.contains_key(outpoint)
            &&& forall|outpoint: Seq<u8>|
                resolved.spent.contains(outpoint) ==> deltas.spent.contains(outpoint) || exists|
                    k: int,
                |
                    at <= k < inputs.len() && #[trigger] input_key(inputs, k) == outpoint
        }),
    decreases inputs.len() - at,
{
    if at < inputs.len() {
        let key = input_key(inputs, at);
        let unspent = store.unspent(deltas);
        lemma_unspent_finite(store, deltas);
        let (next, bytes) = if deltas.cache.contains_key(key) {
            (Deltas { cache: deltas.cache.remove(key), spent: deltas.spent }, deltas.cache[key])
        } else {
            (Deltas { cache: deltas.cache, spent: deltas.spent.push(key) }, store.ranges[key])
        };
        assert(unspent.contains_key(key) && unspent[key] == bytes);
        assert(store.unspent(next) =~= unspent.remove(key)) by {
            assert forall|other: Seq<u8>|
                next.spent.contains(other) <==> (deltas.spent.contains(other) || (
                !deltas.cache.contains_key(key) && other == key)) by {
                if !deltas.cache.contains_key(key) {
                    lemma_pushed(deltas.spent, key, other);
                }
            }
        }
        assert(sound(store, next)) by {
            assert forall|k: int| 0 <= k < next.spent.len() implies store.ranges.contains_key(
                #[trigger] next.spent[k],
            ) by {
                if k < deltas.spent.len() {
                    assert(next.spent[k] == deltas.spent[k]);
                }
            }
        }
        lemma_held_by_queue(queue, bytes);
        assert forall|k: int| at + 1 <= k < inputs.len() implies !next.spent.contains(
            #[trigger] input_key(inputs, k),
        ) by {
            assert(input_key(inputs, at) != input_key(inputs, k));
            lemma_pushed(deltas.spent, key, input_key(inputs, k));
        }
        lemma_resolve_conserves(store, next, inputs, at + 1, queue + ranges_of_bytes(bytes));
        let (resolved, filled) = resolve_spec(deltas, store.ranges, inputs, at, queue)->Ok_0;
        assert forall|sat: int|
            #[trigger] held(store.unspent(resolved), sat) + count_of(filled, sat) == held(
                store.unspent(deltas),
                sat,
            ) + count_of(queue, sat) by {
            lemma_held_remove(unspent, key, sat);
            assert(held(store.unspent(resolved), sat) + count_of(filled, sat) == held(
                store.unspent(next),
                sat,
            ) + count_of(queue + ranges_of_bytes(bytes), sat));
        }
        assert forall|outpoint: Seq<u8>| resolved.spent.contains(outpoint) implies deltas.spent.contains(
            outpoint,
        ) || exists|k: int| at <= k < inputs.len() && #[trigger] input_key(inputs, k) == outpoint by {
            if next.spent.contains(outpoint) {
                lemma_pushed(deltas.spent, key, outpoint);
                if !deltas.spent.contains(outpoint) {
                    assert(input_key(inputs, at) == outpoint);
                }
            } else {
                let k = choose|k: int|
                    at + 1 <= k < inputs.len() && #[trigger] input_key(inputs, k) == outpoint;
                assert(at <= k < inputs.len() && input_key(inputs, k) == outpoint);
            }
        }
    }
}

/// What a list holds after a push is what it held, and what was pushed.
proof fn lemma_pushed(list: Seq<Seq<u8>>, pushed: Seq<u8>, other: Seq<u8>)
    ensures
        list.push(pushed).contains(other) <==> list.contains(other) || other == pushed,
{
    if list.contains(other) {
        let at = choose|at: int| 0 <= at < list.len() && list[at] == other;
        assert(list.push(pushed)[at] == other);
    }
    if other == pushed {
        assert(list.push(pushed)[list.len() as int] == other);
    }
}

/// Two outputs of one transaction have two stored references.
pub proof fn lemma_output_keys_differ(txid: Seq<u8>, first: int, second: int)
    requires
        0 <= first <= u32::MAX,
        0 <= second <= u32::MAX,
        first != second,
    ensures
        output_key(txid, first) != output_key(txid, second),
{
    let (a, b) = (first as u32, second as u32);
    if output_key(txid, first) == output_key(txid, second) {
        let len = txid.len() as int;
        assert(output_key(txid, first).subrange(len, len + 4) =~= le_bytes_of_u32(a));
        assert(output_key(txid, second).subrange(len, len + 4) =~= le_bytes_of_u32(b));
        lemma_index_of_bytes(a);
        lemma_index_of_bytes(b);
    }
}

/// The four bytes of an index read back as the index.
proof fn lemma_index_of_bytes(index: u32)
    ensures
        u32_of_le_bytes(le_bytes_of_u32(index)) == index,
{
    let c0 = (index & 0xff) as u8;
    let c1 = ((index >> 8) & 0xff) as u8;
    let c2 = ((index >> 16) & 0xff) as u8;
    let c3 = ((index >> 24) & 0xff) as u8;
    assert((c0 as u32) | (c1 as u32) << 8 | (c2 as u32) << 16 | (c3 as u32) << 24 == index)
        by (bit_vector)
        requires
            c0 == (index & 0xff) as u8,
            c1 == ((index >> 8) & 0xff) as u8,
            c2 == ((index >> 16) & 0xff) as u8,
            c3 == ((index >> 24) & 0xff) as u8,
    ;
}

/// Every sequence number that the list holds lies below `bound`.
pub open spec fn below(ranges: Seq<SatRange>, bound: int) -> bool {
    forall|sat: int| count_of(ranges, sat) > 0 ==> sat < bound
}

/// What is cut off a queue of packable ranges that hold no number beyond 51 bits is packable,
/// and so is what is left.
proof fn lemma_take_packable(queue: Seq<SatRange>, amount: nat)
    requires
        all_packable(queue),
        below(queue, START_LIMIT as int),
    ensures
        take_spec(queue, amount) matches Some((taken, rest)) ==> all_packable(taken)
            && all_packable(rest),
    decreases queue.len(),
{
    if amount == 0 || queue.len() == 0 {
    } else if queue[0].len() > amount {
        let front = queue[0];
        let middle = (front.start + amount) as u64;
        let head = SatRange { start: front.start, end: middle };
        let tail = SatRange { start: middle, end: front.end };
        assert(front.packable());
        assert(count_of(queue, middle as int) > 0);
        let rest = seq![tail] + queue.skip(1);
        assert forall|at: int| 0 <= at < rest.len() implies (#[trigger] rest[at]).packable() by {
            if at > 0 {
                assert(rest[at] == queue[at]);
            }
        }
    } else {
        let less = (amount - queue[0].len()) as nat;
        assert forall|at: int| 0 <= at < queue.skip(1).len() implies (#[trigger] queue.skip(
            1,
        )[at]).packable() by {
            assert(queue.skip(1)[at] == queue[at + 1]);
        }
        assert forall|sat: int| count_of(queue.skip(1), sat) > 0 implies sat < START_LIMIT by {
            assert(count_of(queue, sat) > 0);
        }
        lemma_take_packable(queue.skip(1), less);
        match take_spec(queue.skip(1), less) {
            Some((more, rest)) => {
                let taken = seq![queue[0]] + more;
                assert forall|at: int| 0 <= at < taken.len() implies (
                #[trigger] taken[at]).packable() by {
                    if at > 0 {
                        assert(taken[at] == more[at - 1]);
                    }
                }
            },
            None => {},
        }
    }
}

/// **Paying moves units, it makes none.** Where the outputs of a transaction are new, the
/// units that its outputs take from the queue are with the unspent outputs, each as often as
/// it was in the queue, and no longer in the queue.
pub proof fn lemma_distribute_conserves(
    store: Store,
    deltas: Deltas,
    txid: Seq<u8>,
    outputs: Seq<TxOut>,
    vout: int,
    queue: Seq<SatRange>,
)
    requires
        sound(store, deltas),
        all_packable(queue),
        below(queue, START_LIMIT as int),
        0 <= vout <= outputs.len() <= u32::MAX,
        forall|k: int|
            vout <= k < outputs.len() ==> !store.ranges.contains_key(#[trigger] output_key(txid, k))
                && !deltas.cache.contains_key(output_key(txid, k)),
        distribute_spec(deltas.cache, txid, outputs, vout, queue) is Ok,
    ensures
        ({
            let (cache, left) = distribute_spec(deltas.cache, txid, outputs, vout, queue)->Ok_0;
            let paid = Deltas { cache, spent: deltas.spent };
            &&& sound(store, paid)
            &&& all_packable(left)
            &&& forall|sat: int|
                #[trigger] held(store.unspent(paid), sat) + count_of(left, sat) == held(
                    store.unspent(deltas),
                    sat,
                ) + count_of(queue, sat)
            &&& forall|outpoint: Seq<u8>|
                cache.contains_key(outpoint) ==> deltas.cache.contains_key(outpoint) || exists|
                    k: int,
                |
                    vout <= k < outputs.len() && #[trigger] output_key(txid, k) == outpoint
        }),
    decreases outputs.len() - vout,
{
    if vout < outputs.len() {
        let value = outputs[vout].value as nat;
        let key = output_key(txid, vout);
        let (taken, rest) = take_spec(queue, value)->Some_0;
        crate::queue::lemma_take(queue, value);
        lemma_take_packable(queue, value);
        lemma_ranges_round_trip(taken);
        let next = Deltas { cache: deltas.cache.insert(key, ranges_bytes(taken)), spent: deltas.spent };
        let unspent = store.unspent(deltas);
        lemma_unspent_finite(store, deltas);
        assert(!unspent.contains_key(key));
        assert(store.unspent(next) =~= unspent.insert(key, ranges_bytes(taken)));
        assert forall|sat: int| count_of(rest, sat) > 0 implies sat < START_LIMIT by {
            assert(count_of(taken, sat) + count_of(rest, sat) == count_of(queue, sat));
        }
        assert forall|k: int| vout + 1 <= k < outputs.len() implies !store.ranges.contains_key(
            #[trigger] output_key(txid, k),
        ) && !next.cache.contains_key(output_key(txid, k)) by {
            lemma_output_keys_differ(txid, vout, k);
        }
        lemma_distribute_conserves(store, next, txid, outputs, vout + 1, rest);
        let (cache, left) = distribute_spec(deltas.cache, txid, outputs, vout, queue)->Ok_0;
        let paid = Deltas { cache, spent: deltas.spent };
        assert forall|sat: int|
            #[trigger] held(store.unspent(paid), sat) + count_of(left, sat) == held(
                store.unspent(deltas),
                sat,
            ) + count_of(queue, sat) by {
            lemma_held_insert(unspent, key, ranges_bytes(taken), sat);
            assert(count_of(taken, sat) + count_of(rest, sat) == count_of(queue, sat));
            assert(held(store.unspent(paid), sat) + count_of(left, sat) == held(
                store.unspent(next),
                sat,
            ) + count_of(rest, sat));
        }
        assert forall|outpoint: Seq<u8>| cache.contains_key(outpoint) implies deltas.cache.contains_key(
            outpoint,
        ) || exists|k: int| vout <= k < outputs.len() && #[trigger] output_key(txid, k) == outpoint by {
            if next.cache.contains_key(outpoint) {
                if !deltas.cache.contains_key(outpoint) {
                    assert(output_key(txid, vout) == outpoint);
                }
            } else {
                let k = choose|k: int|
                    vout + 1 <= k < outputs.len() && #[trigger] output_key(txid, k) == outpoint;
                assert(vout <= k < outputs.len() && output_key(txid, k) == outpoint);
            }
        }
    }
}

/// The stored reference that input `at` of transaction `tx` spends.
pub open spec fn spent_key(txdata: Seq<Transaction>, tx: int, at: int) -> Seq<u8> {
    input_key(txdata[tx].input@, at)
}

/// The stored reference of output `vout` of transaction `tx`.
pub open spec fn made_key(txdata: Seq<Transaction>, tx: int, vout: int) -> Seq<u8> {
    output_key(txid_of(txdata[tx]@), vout)
}

/// No input of the transactions from `from` on spends what is on the spent list, or what
/// another input of them spends.
pub open spec fn spends_once(txdata: Seq<Transaction>, from: int, spent: Seq<Seq<u8>>) -> bool {
    &&& forall|tx: int, at: int|
        from <= tx < txdata.len() && 0 <= at < txdata[tx].input@.len() ==> !spent.contains(
            #[trigger] spent_key(txdata, tx, at),
        )
    &&& forall|tx: int, at: int, other: int, place: int|
        from <= tx < txdata.len() && 0 <= at < txdata[tx].input@.len() && from <= other
            < txdata.len() && 0 <= place < txdata[other].input@.len() && (tx != other || at
            != place) ==> #[trigger] spent_key(txdata, tx, at) != #[trigger] spent_key(
            txdata,
            other,
            place,
        )
}

/// Whether transaction `tx` is the coinbase or one of those from `from` on.
pub open spec fn ahead(txdata: Seq<Transaction>, from: int, tx: int) -> bool {
    0 <= tx < txdata.len() && (tx == 0 || from <= tx)
}

/// The outputs of the coinbase and of the transactions from `from` on are new: neither the
/// store nor the cache knows their references, and no two of these transactions share one.
pub open spec fn makes_new(
    txdata: Seq<Transaction>,
    from: int,
    store: Store,
    cache: Map<Seq<u8>, Seq<u8>>,
) -> bool {
    &&& forall|tx: int, vout: int|
        ahead(txdata, from, tx) && 0 <= vout < txdata[tx].output@.len()
            ==> !store.ranges.contains_key(#[trigger] made_key(txdata, tx, vout))
            && !cache.contains_key(made_key(txdata, tx, vout))
    &&& forall|tx: int, vout: int, other: int, index: int|
        ahead(txdata, from, tx) && 0 <= vout < txdata[tx].output@.len() && ahead(
            txdata,
            from,
            other,
        ) && 0 <= index < txdata[other].output@.len() && tx != other ==> #[trigger] made_key(
            txdata,
            tx,
            vout,
        ) != #[trigger] made_key(txdata, other, index)
}

/// One if `sat` is a sequence number below `issued`, else zero.
pub open spec fn minted_once(sat: int, issued: nat) -> nat {
    if 0 <= sat < issued {
        1
    } else {
        0
    }
}

/// The transactions of a block that are not the coinbase move units and make none: every
/// unit is afterwards with the unspent outputs or in the queue of the coinbase, as often as
/// it was before.
proof fn lemma_spend_conserves(
    store: Store,
    deltas: Deltas,
    txdata: Seq<Transaction>,
    at: int,
    fees: Seq<SatRange>,
    lost: Seq<SatRange>,
    issued: nat,
)
    requires
        1 <= at,
        issued <= START_LIMIT,
        sound(store, deltas),
        all_packable(fees),
        forall|tx: int| 0 <= tx < txdata.len() ==> (#[trigger] txdata[tx]).indexable(),
        forall|sat: int|
            #[trigger] held(store.unspent(deltas), sat) + count_of(fees, sat) + count_of(lost, sat)
                == minted_once(sat, issued),
        spends_once(txdata, at, deltas.spent),
        makes_new(txdata, at, store, deltas.cache),
        spend_spec(deltas, store.ranges, txdata, at, fees) is Ok,
    ensures
        ({
            let (spent, coinbase_inputs) = spend_spec(deltas, store.ranges, txdata, at, fees)->Ok_0;
            &&& sound(store, spent)
            &&& all_packable(coinbase_inputs)
            &&& forall|sat: int|
                #[trigger] held(store.unspent(spent), sat) + count_of(coinbase_inputs, sat)
                    + count_of(lost, sat) == minted_once(sat, issued)
            &&& txdata.len() > 0 ==> forall|vout: int|
                0 <= vout < txdata[0].output@.len() ==> !store.ranges.contains_key(
                    #[trigger] made_key(txdata, 0, vout),
                ) && !spent.cache.contains_key(made_key(txdata, 0, vout))
        }),
    decreases txdata.len() - at,
{
    if at < txdata.len() {
        let inputs = txdata[at].input@;
        let outputs = txdata[at].output@;
        let txid = txid_of(txdata[at]@);
        assert forall|k: int| 0 <= k < inputs.len() implies !deltas.spent.contains(
            #[trigger] input_key(inputs, k),
        ) by {
            assert(input_key(inputs, k) == spent_key(txdata, at, k));
        }
        assert forall|j: int, k: int| 0 <= j < k < inputs.len() implies #[trigger] input_key(
            inputs,
            j,
        ) != #[trigger] input_key(inputs, k) by {
            assert(spent_key(txdata, at, j) != spent_key(txdata, at, k));
        }
        lemma_resolve_conserves(store, deltas, inputs, 0, Seq::empty());
        let (resolved, queue) = resolve_spec(deltas, store.ranges, inputs, 0, Seq::empty())->Ok_0;
        assert forall|sat: int| count_of(queue, sat) > 0 implies sat < START_LIMIT by {
            assert(held(store.unspent(resolved), sat) + count_of(queue, sat) == held(
                store.unspent(deltas),
                sat,
            ) + count_of(Seq::<SatRange>::empty(), sat));
            assert(held(store.unspent(deltas), sat) + count_of(fees, sat) + count_of(lost, sat)
                == minted_once(sat, issued));
        }
        assert(txdata[at].indexable());
        assert forall|k: int| 0 <= k < outputs.len() implies !store.ranges.contains_key(
            #[trigger] output_key(txid, k),
        ) && !resolved.cache.contains_key(output_key(txid, k)) by {
            assert(ahead(txdata, at, at));
            assert(output_key(txid, k) == made_key(txdata, at, k));
        }
        lemma_distribute_conserves(store, resolved, txid, outputs, 0, queue);
        let (cache, left) = distribute_spec(resolved.cache, txid, outputs, 0, queue)->Ok_0;
        let paid = Deltas { cache, spent: resolved.spent };
        let more = fees + left;
        lemma_joined(fees, left);
        assert forall|k: int| 0 <= k < more.len() implies (#[trigger] more[k]).packable() by {
            if k < fees.len() {
                assert(more[k] == fees[k]);
            } else {
                assert(more[k] == left[k - fees.len()]);
            }
        }
        assert forall|sat: int|
            #[trigger] held(store.unspent(paid), sat) + count_of(more, sat) + count_of(lost, sat)
                == minted_once(sat, issued) by {
            assert(held(store.unspent(paid), sat) + count_of(left, sat) == held(
                store.unspent(resolved),
                sat,
            ) + count_of(queue, sat));
            assert(held(store.unspent(resolved), sat) + count_of(queue, sat) == held(
                store.unspent(deltas),
                sat,
            ) + count_of(Seq::<SatRange>::empty(), sat));
            assert(held(store.unspent(deltas), sat) + count_of(fees, sat) + count_of(lost, sat)
                == minted_once(sat, issued));
            assert(count_of(more, sat) == count_of(fees, sat) + count_of(left, sat));
        }
        assert(spends_once(txdata, at + 1, paid.spent)) by {
            assert forall|tx: int, place: int|
                at + 1 <= tx < txdata.len() && 0 <= place
                    < txdata[tx].input@.len() implies !paid.spent.contains(
                #[trigger] spent_key(txdata, tx, place),
            ) by {
                let key = spent_key(txdata, tx, place);
                if paid.spent.contains(key) {
                    assert(!deltas.spent.contains(key));
                    let k = choose|k: int|
                        0 <= k < inputs.len() && #[trigger] input_key(inputs, k) == key;
                    assert(spent_key(txdata, at, k) != spent_key(txdata, tx, place));
                }
            }
        }
        assert(makes_new(txdata, at + 1, store, paid.cache)) by {
            assert forall|tx: int, vout: int|
                ahead(txdata, at + 1, tx) && 0 <= vout
                    < txdata[tx].output@.len() implies !store.ranges.contains_key(
                #[trigger] made_key(txdata, tx, vout),
            ) && !paid.cache.contains_key(made_key(txdata, tx, vout)) by {
                let key = made_key(txdata, tx, vout);
                assert(ahead(txdata, at, tx));
                assert(ahead(txdata, at, at));
                if paid.cache.contains_key(key) {
                    assert(!resolved.cache.contains_key(key));
                    let k = choose|k: int|
                        0 <= k < outputs.len() && #[trigger] output_key(txid, k) == key;
                    assert(made_key(txdata, at, k) != made_key(txdata, tx, vout));
                }
            }
            assert forall|tx: int, vout: int, other: int, index: int|
                ahead(txdata, at + 1, tx) && 0 <= vout < txdata[tx].output@.len() && ahead(
                    txdata,
                    at + 1,
                    other,
                ) && 0 <= index < txdata[other].output@.len() && tx != other implies #[trigger] made_key(
                txdata,
                tx,
                vout,
            ) != #[trigger] made_key(txdata, other, index) by {
                assert(ahead(txdata, at, tx));
                assert(ahead(txdata, at, other));
            }
        }
        lemma_spend_conserves(store, paid, txdata, at + 1, more, lost, issued);
    } else {
        if txdata.len() > 0 {
            assert forall|vout: int| 0 <= vout < txdata[0].output@.len() implies !store.ranges.contains_key(
                #[trigger] made_key(txdata, 0, vout),
            ) && !deltas.cache.contains_key(made_key(txdata, 0, vout)) by {
                assert(ahead(txdata, at, 0));
            }
        }
    }
}

/// What the coinbase of the block at `height` leaves unclaimed of what the height mints and
/// the other transactions leave.
pub open spec fn unclaimed(deltas: Deltas, store: Store, block: Block, height: nat) -> Seq<
    SatRange,
> {
    match spend_spec(deltas, store.ranges, block.txdata@, 1, minted(height)) {
        Err(_) => Seq::empty(),
        Ok((spent, coinbase_inputs)) => match distribute_spec(
            spent.cache,
            txid_of(block.txdata@[0]@),
            block.txdata@[0].output@,
            0,
            coinbase_inputs,
        ) {
            Err(_) => Seq::empty(),
            Ok((_, left)) => left,
        },
    }
}

/// Every unit minted below `height` is held by exactly one range of one unspent output or was
/// left unclaimed, in `lost`; no range holds anything else; and the deltas fit the store.
pub open spec fn conserved(store: Store, deltas: Deltas, lost: Seq<SatRange>, height: nat) -> bool {
    &&& sound(store, deltas)
    &&& forall|sat: int|
        #[trigger] held(store.unspent(deltas), sat) + count_of(lost, sat) == minted_once(
            sat,
            starting_sat_at(height),
        )
}

/// **Conservation begins.** A fresh store with no deltas conserves at height 0: nothing is
/// minted, nothing is held, nothing is lost.
pub proof fn lemma_conserved_at_first()
    ensures
        conserved(Store::fresh(), Deltas::none(), Seq::empty(), 0),
{
    assert(Store::fresh().unspent(Deltas::none()) =~= Map::<Seq<u8>, Seq<u8>>::empty());
}

/// **Conservation goes on, block by block.** Let every minted unit be held once or lost
/// before the block at `height`. Let the block spend nothing twice and make only outputs
/// whose references are new. If the block is indexed, every unit minted up to and with this
/// height is held once or lost: held by the range of an unspent output, in the store or in the
/// deltas, or left unclaimed by a coinbase, this one or an earlier one. Where no coinbase
/// leaves anything, the ranges of the unspent outputs hold the minted units without gap and
/// without repeat.
pub proof fn lemma_block_conserves(
    store: Store,
    deltas: Deltas,
    lost: Seq<SatRange>,
    block: Block,
    height: nat,
)
    requires
        conserved(store, deltas, lost, height),
        spends_once(block.txdata@, 1, deltas.spent),
        makes_new(block.txdata@, 1, store, deltas.cache),
        index_block_spec(deltas, store.ranges, block, height) is Ok,
    ensures
        conserved(
            store,
            index_block_spec(deltas, store.ranges, block, height)->Ok_0,
            lost + unclaimed(deltas, store, block, height),
            height + 1,
        ),
{
    let txdata = block.txdata@;
    let issued = starting_sat_at(height + 1);
    lemma_supply_bound(height);
    lemma_starting_sat_step(height);
    let fees = minted(height);
    assert(all_packable(fees) && forall|sat: int|
        #[trigger] count_of(fees, sat) + minted_once(sat, starting_sat_at(height)) == minted_once(
            sat,
            issued,
        )) by {
        if subsidy_at(height) > 0 {
            crate::subsidy::lemma_subsidy_bound(height);
            lemma_single(fees[0]);
        }
    }
    assert forall|sat: int|
        #[trigger] held(store.unspent(deltas), sat) + count_of(fees, sat) + count_of(lost, sat)
            == minted_once(sat, issued) by {
        assert(held(store.unspent(deltas), sat) + count_of(lost, sat) == minted_once(
            sat,
            starting_sat_at(height),
        ));
        assert(count_of(fees, sat) + minted_once(sat, starting_sat_at(height)) == minted_once(
            sat,
            issued,
        ));
    }
    lemma_spend_conserves(store, deltas, txdata, 1, fees, lost, issued);
    let (spent, coinbase_inputs) = spend_spec(deltas, store.ranges, txdata, 1, fees)->Ok_0;
    let txid = txid_of(txdata[0]@);
    assert forall|sat: int| count_of(coinbase_inputs, sat) > 0 implies sat < START_LIMIT by {
        assert(held(store.unspent(spent), sat) + count_of(coinbase_inputs, sat) + count_of(
            lost,
            sat,
        ) == minted_once(sat, issued));
    }
    assert(txdata[0].indexable());
    assert forall|k: int| 0 <= k < txdata[0].output@.len() implies !store.ranges.contains_key(
        #[trigger] output_key(txid, k),
    ) && !spent.cache.contains_key(output_key(txid, k)) by {
        assert(output_key(txid, k) == made_key(txdata, 0, k));
    }
    lemma_distribute_conserves(store, spent, txid, txdata[0].output@, 0, coinbase_inputs);
    let (cache, left) = distribute_spec(spent.cache, txid, txdata[0].output@, 0, coinbase_inputs)->Ok_0;
    let after = Deltas { cache, spent: spent.spent };
    lemma_joined(lost, left);
    assert forall|sat: int|
        #[trigger] held(store.unspent(after), sat) + count_of(lost + left, sat) == minted_once(
            sat,
            issued,
        ) by {
        assert(held(store.unspent(after), sat) + count_of(left, sat) == held(
            store.unspent(spent),
            sat,
        ) + count_of(coinbase_inputs, sat));
        assert(held(store.unspent(spent), sat) + count_of(coinbase_inputs, sat) + count_of(
            lost,
            sat,
        ) == minted_once(sat, issued));
        assert(count_of(lost + left, sat) == count_of(lost, sat) + count_of(left, sat));
    }
}

/// **Conservation survives the checkpoint.** Where every minted unit is held once or lost, it
/// is so after the deltas have been committed to the store, with no deltas left.
pub proof fn lemma_checkpoint_conserves(
    store: Store,
    deltas: Deltas,
    lost: Seq<SatRange>,
    height: nat,
    at: u64,
)
    requires
        conserved(store, deltas, lost, height),
    ensures
        conserved(store.commit(deltas, at), Deltas::none(), lost, height),
{
    assert forall|outpoint: Seq<u8>| deltas.cache.contains_key(outpoint) implies !deltas.spent.contains(
        outpoint,
    ) by {
        if deltas.spent.contains(outpoint) {
            let k = choose|k: int| 0 <= k < deltas.spent.len() && deltas.spent[k] == outpoint;
            assert(store.ranges.contains_key(deltas.spent[k]));
        }
    }
    crate::storage::lemma_checkpoint(store, deltas, at);
    let after = store.commit(deltas, at);
    let both = store.ranges.dom().union(deltas.cache.dom());
    vstd::set_lib::lemma_len_subset(after.ranges.dom(), both);
}

/// The store and the deltas after the block at `height` has been indexed, on the way to
/// `tip`: where a checkpoint is due, the store has taken the deltas.
pub open spec fn settled(store: Store, deltas: Deltas, height: nat, tip: u64) -> (Store, Deltas) {
    if checkpoint_due(height as u64, tip) {
        (store.commit(deltas, height as u64), Deltas::none())
    } else {
        (store, deltas)
    }
}

/// The store and the deltas after a run over the blocks of `chain` from `at` on, the first
/// of them at `height`: each is indexed against the store as it stands, and checkpoints are
/// taken where they are due.
pub open spec fn run_spec(
    store: Store,
    deltas: Deltas,
    chain: Seq<Block>,
    at: int,
    height: nat,
    tip: u64,
) -> Result<(Store, Deltas), IndexError>
    decreases chain.len() - at,
{
    if at < 0 || at >= chain.len() {
        Ok((store, deltas))
    } else {
        match index_block_spec(deltas, store.ranges, chain[at], height) {
            Err(error) => Err(error),
            Ok(indexed) => run_spec(
                settled(store, indexed, height, tip).0,
                settled(store, indexed, height, tip).1,
                chain,
                at + 1,
                height + 1,
                tip,
            ),
        }
    }
}

/// What the coinbases of the blocks of a run leave unclaimed, block after block.
pub open spec fn run_unclaimed(
    store: Store,
    deltas: Deltas,
    chain: Seq<Block>,
    at: int,
    height: nat,
    tip: u64,
) -> Seq<SatRange>
    decreases chain.len() - at,
{
    if at < 0 || at >= chain.len() {
        Seq::empty()
    } else {
        match index_block_spec(deltas, store.ranges, chain[at], height) {
            Err(_) => Seq::empty(),
            Ok(indexed) => unclaimed(deltas, store, chain[at], height) + run_unclaimed(
                settled(store, indexed, height, tip).0,
                settled(store, indexed, height, tip).1,
                chain,
                at + 1,
                height + 1,
                tip,
            ),
        }
    }
}

/// Every block of the run spends nothing twice and makes only outputs whose references are
/// new, as the store and the deltas stand when its turn comes.
pub open spec fn run_fits(
    store: Store,
    deltas: Deltas,
    chain: Seq<Block>,
    at: int,
    height: nat,
    tip: u64,
) -> bool
    decreases chain.len() - at,
{
    if at < 0 || at >= chain.len() {
        true
    } else {
        &&& spends_once(chain[at].txdata@, 1, deltas.spent)
        &&& makes_new(chain[at].txdata@, 1, store, deltas.cache)
        &&& match index_block_spec(deltas, store.ranges, chain[at], height) {
            Err(_) => true,
            Ok(indexed) => run_fits(
                settled(store, indexed, height, tip).0,
                settled(store, indexed, height, tip).1,
                chain,
                at + 1,
                height + 1,
                tip,
            ),
        }
    }
}

/// **Conservation at every height.** After a run over any number of blocks that spend nothing
/// twice and make only new outputs, whatever checkpoints it took, every unit minted below the
/// next height is held by exactly one range of one unspent output or was left unclaimed by a
/// coinbase on the way.
pub proof fn lemma_run_conserves(
    store: Store,
    deltas: Deltas,
    lost: Seq<SatRange>,
    chain: Seq<Block>,
    at: int,
    height: nat,
    tip: u64,
)
    requires
        0 <= at <= chain.len(),
        conserved(store, deltas, lost, height),
        run_fits(store, deltas, chain, at, height, tip),
        run_spec(store, deltas, chain, at, height, tip) is Ok,
    ensures
        conserved(
            run_spec(store, deltas, chain, at, height, tip)->Ok_0.0,
            run_spec(store, deltas, chain, at, height, tip)->Ok_0.1,
            lost + run_unclaimed(store, deltas, chain, at, height, tip),
            (height + chain.len() - at) as nat,
        ),
    decreases chain.len() - at,
{
    if at < chain.len() {
        let indexed = index_block_spec(deltas, store.ranges, chain[at], height)->Ok_0;
        let left = unclaimed(deltas, store, chain[at], height);
        lemma_block_conserves(store, deltas, lost, chain[at], height);
        if checkpoint_due(height as u64, tip) {
            lemma_checkpoint_conserves(store, indexed, lost + left, height + 1, height as u64);
        }
        let (next_store, next_deltas) = settled(store, indexed, height, tip);
        lemma_run_conserves(next_store, next_deltas, lost + left, chain, at + 1, height + 1, tip);
        assert((lost + left) + run_unclaimed(next_store, next_deltas, chain, at + 1, height + 1, tip)
            =~= lost + run_unclaimed(store, deltas, chain, at, height, tip));
    } else {
        assert(lost + Seq::<SatRange>::empty() =~= lost);
    }
}

} // verus!
