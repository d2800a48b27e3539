//! The engine: moves ranges from the inputs of each transaction to its outputs, block by
//! block, and says when the result has to be made durable.

use crate::block::{lookups, txid_of, Block, Transaction, TxIn, TxOut};
use crate::cache::{distinct, entries_map, Entry, RangeTable};
use crate::entry::{
    all_ordered, all_packable, keys_of, load_ranges, outpoint_bytes, ranges_bytes, ranges_of_bytes,
    store_ranges, OutPoint, OutPointValue, OutPointView, SatRange,
};
use crate::fees::lemma_distribute;
use crate::queue::{take_sats, take_spec, total_len};
use crate::storage::{get_next_height, next_height};
use crate::subsidy::{starting_sat, starting_sat_at, subsidy, subsidy_at};
use std::collections::VecDeque;
use vstd::prelude::*;

verus! {

/// A height after which the deltas are always made durable.
pub const MILESTONE_HEIGHT: u64 = 2_413_341;

/// The deltas are made durable at every positive multiple of this height.
pub const BATCH_SIZE: u64 = 5000;

/// Why a run ended before its last block.
#[derive(Clone, Copy, Debug, PartialEq, Eq, Structural)]
pub enum IndexError {
    /// An input spends an output that neither the deltas nor the store know.
    MissingRanges,
    /// A stored range list is no whole number of ranges.
    MalformedRanges,
    /// The outputs of a transaction claim more units than its inputs carry.
    InsufficientInputs,
    /// A block has no coinbase, or a transaction has more outputs than can be referred to.
    MalformedBlock,
    /// The event does not answer what the engine last asked for.
    UnexpectedEvent,
}

/// Where a run stands.
#[derive(Clone, Copy, Debug, PartialEq, Eq, Structural)]
pub enum Phase {
    /// No run is under way.
    Idle,
    /// The block at `height` has been asked for; the run ends at `tip`.
    Fetching { height: u64, tip: u64 },
    /// The deltas up to `height` have been handed out to be made durable.
    Committing { height: u64, tip: u64 },
}

/// What the outside reports to the engine.
#[derive(Debug)]
pub enum Event {
    /// A run starts: the height of the chain's tip, and the height that the store holds as
    /// last committed, if any.
    Started { chain_tip: u64, committed: Option<u64> },
    /// The block that was asked for, and what the store holds for the outputs it spends.
    Fetched { block: Block, stored: RangeTable },
    /// What was handed out to be made durable is durable.
    Committed,
}

/// What the engine asks the outside to do next.
#[derive(Debug)]
pub enum Action {
    /// Fetch the block at `height`, with what the store holds for the outputs it spends.
    Fetch { height: u64 },
    /// In one transaction of the store: write `inserts`, then delete `deletes`, then set the
    /// last committed height to `height`.
    Commit { inserts: Vec<Entry>, deletes: Vec<OutPointValue>, height: u64 },
    /// The run is over.
    Stop,
}

/// What the engine holds between two checkpoints, as the store will see it.
pub struct Deltas {
    /// Range lists of the outputs made since the last checkpoint and not spent since.
    pub cache: Map<Seq<u8>, Seq<u8>>,
    /// Outputs of the store that were spent since the last checkpoint.
    pub spent: Seq<Seq<u8>>,
}

/// The engine's state: the write-back cache, the spent list, and where the run stands.
#[derive(Debug)]
pub struct Indexer {
    range_cache: RangeTable,
    spent_cache: Vec<OutPointValue>,
    phase: Phase,
}

/// The stored reference of output `vout` of the transaction that `txid` identifies.
pub open spec fn output_key(txid: Seq<u8>, vout: int) -> Seq<u8> {
    outpoint_bytes(OutPointView { txid, vout: vout as u32 })
}

/// Units that the outputs from `vout` on claim together.
pub open spec fn claimed(outputs: Seq<TxOut>, vout: int) -> nat
    decreases outputs.len() - vout,
{
    if vout < 0 || vout >= outputs.len() {
        0
    } else {
        outputs[vout].value as nat + claimed(outputs, vout + 1)
    }
}

/// Those of the references that the cache does not hold, in their order.
pub open spec fn uncached(cache: Map<Seq<u8>, Seq<u8>>, outpoints: Seq<Seq<u8>>) -> Seq<
    Seq<u8>,
>
    decreases outpoints.len(),
{
    if outpoints.len() == 0 {
        Seq::empty()
    } else if cache.contains_key(outpoints[0]) {
        uncached(cache, outpoints.skip(1))
    } else {
        seq![outpoints[0]] + uncached(cache, outpoints.skip(1))
    }
}

/// Gives each output from `vout` on its units from the front of `queue`, in order, and writes
/// its range list into `cache`. The result is the cache and what is left of the queue.
pub open spec fn distribute_spec(
    cache: Map<Seq<u8>, Seq<u8>>,
    txid: Seq<u8>,
    outputs: Seq<TxOut>,
    vout: int,
    queue: Seq<SatRange>,
) -> Result<(Map<Seq<u8>, Seq<u8>>, Seq<SatRange>), IndexError>
    decreases outputs.len() - vout,
{
    if vout < 0 || vout >= outputs.len() {
        Ok((cache, queue))
    } else {
        match take_spec(queue, outputs[vout].value as nat) {
            None => Err(IndexError::InsufficientInputs),
            Some((taken, rest)) => distribute_spec(
                cache.insert(output_key(txid, vout), ranges_bytes(taken)),
                txid,
                outputs,
                vout + 1,
                rest,
            ),
        }
    }
}

/// Pays the outputs of a transaction from the front of `queue`, in order, where each of them
/// has an index: the result is the cache with their range lists, and what is left of the
/// queue.
pub open spec fn pay_spec(
    cache: Map<Seq<u8>, Seq<u8>>,
    transaction: Transaction,
    queue: Seq<SatRange>,
) -> Result<(Map<Seq<u8>, Seq<u8>>, Seq<SatRange>), IndexError> {
    if !transaction.indexable() {
        Err(IndexError::MalformedBlock)
    } else {
        distribute_spec(cache, txid_of(transaction@), transaction.output@, 0, queue)
    }
}

/// Spends the inputs from `at` on, in order: the range list of each comes out of the cache, or
/// else from `stored`, which puts the output on the spent list, and goes to the back of
/// `queue`.
pub open spec fn resolve_spec(
    deltas: Deltas,
    stored: Map<Seq<u8>, Seq<u8>>,
    inputs: Seq<TxIn>,
    at: int,
    queue: Seq<SatRange>,
) -> Result<(Deltas, Seq<SatRange>), IndexError>
    decreases inputs.len() - at,
{
    if at < 0 || at >= inputs.len() {
        Ok((deltas, queue))
    } else {
        let key = outpoint_bytes(inputs[at].previous_output@);
        if deltas.cache.contains_key(key) {
            if deltas.cache[key].len() % 11 != 0 {
                Err(IndexError::MalformedRanges)
            } else {
                resolve_spec(
                    Deltas { cache: deltas.cache.remove(key), spent: deltas.spent },
                    stored,
                    inputs,
                    at + 1,
                    queue + ranges_of_bytes(deltas.cache[key]),
                )
            }
        } else if stored.contains_key(key) {
            if stored[key].len() % 11 != 0 {
                Err(IndexError::MalformedRanges)
            } else {
                resolve_spec(
                    Deltas { cache: deltas.cache, spent: deltas.spent.push(key) },
                    stored,
                    inputs,
                    at + 1,
                    queue + ranges_of_bytes(stored[key]),
                )
            }
        } else {
            Err(IndexError::MissingRanges)
        }
    }
}

/// The range minted at `height`, as the queue that the coinbase starts from.
pub open spec fn minted(height: nat) -> Seq<SatRange> {
    if subsidy_at(height) > 0 {
        seq![
            SatRange {
                start: starting_sat_at(height) as u64,
                end: (starting_sat_at(height) + subsidy_at(height)) as u64,
            },
        ]
    } else {
        Seq::empty()
    }
}

/// Moves the ranges of the transactions from `at` on, in order, none of them the coinbase:
/// each spends its inputs and pays its outputs, and what its outputs leave goes to the back of
/// `fees`.
pub open spec fn spend_spec(
    deltas: Deltas,
    stored: Map<Seq<u8>, Seq<u8>>,
    txdata: Seq<Transaction>,
    at: int,
    fees: Seq<SatRange>,
) -> Result<(Deltas, Seq<SatRange>), IndexError>
    decreases txdata.len() - at,
{
    if at < 1 || at >= txdata.len() {
        Ok((deltas, fees))
    } else {
        match resolve_spec(deltas, stored, txdata[at].input@, 0, Seq::empty()) {
            Err(error) => Err(error),
            Ok((resolved, queue)) => match distribute_spec(
                resolved.cache,
                txid_of(txdata[at]@),
                txdata[at].output@,
                0,
                queue,
            ) {
                Err(error) => Err(error),
                Ok((cache, left)) => spend_spec(
                    Deltas { cache, spent: resolved.spent },
                    stored,
                    txdata,
                    at + 1,
                    fees + left,
                ),
            },
        }
    }
}

/// The deltas after the block at `height`: all transactions but the coinbase move their
/// ranges, in order, and then the coinbase pays its outputs from what the height mints,
/// followed by what the others left.
pub open spec fn index_block_spec(
    deltas: Deltas,
    stored: Map<Seq<u8>, Seq<u8>>,
    block: Block,
    height: nat,
) -> Result<Deltas, IndexError> {
    if !block.indexable() {
        Err(IndexError::MalformedBlock)
    } else {
        match spend_spec(deltas, stored, block.txdata@, 1, minted(height)) {
            Err(error) => Err(error),
            Ok((spent, coinbase_inputs)) => match distribute_spec(
                spent.cache,
                txid_of(block.txdata@[0]@),
                block.txdata@[0].output@,
                0,
                coinbase_inputs,
            ) {
                Err(error) => Err(error),
                Ok((cache, _)) => Ok(Deltas { cache, spent: spent.spent }),
            },
        }
    }
}

/// Whether the deltas are made durable after the block at `height`, on the way to `tip`: at
/// the milestone, at every positive multiple of the batch size, and at the end of the run.
pub open spec fn checkpoint_due(height: u64, tip: u64) -> bool {
    height == MILESTONE_HEIGHT || (height != 0 && height % BATCH_SIZE == 0) || height >= tip
}

/// `action` hands out exactly `deltas`, to be committed at `height`: every cached output once,
/// and the spent list as it is.
pub open spec fn commits(action: Action, deltas: Deltas, height: u64) -> bool {
    &&& action matches Action::Commit { inserts, deletes, height: at }
    &&& at == height
    &&& distinct(inserts@)
    &&& entries_map(inserts@) == deltas.cache
    &&& keys_of(deletes@) == deltas.spent
}

impl Deltas {
    /// Nothing cached and nothing spent.
    pub open spec fn none() -> Deltas {
        Deltas { cache: Map::empty(), spent: Seq::empty() }
    }
}

impl Indexer {
    /// What the engine holds to be made durable.
    pub closed spec fn deltas(&self) -> Deltas {
        Deltas { cache: self.range_cache@, spent: keys_of(self.spent_cache@) }
    }

    /// Where the run stands.
    pub closed spec fn phase(&self) -> Phase {
        self.phase
    }

    /// An engine that holds nothing and runs nothing.
    pub fn new() -> (indexer: Indexer)
        ensures
            indexer.deltas() == Deltas::none(),
            indexer.phase() == Phase::Idle,
    {
        let indexer = Indexer {
            range_cache: RangeTable::new(),
            spent_cache: Vec::new(),
            phase: Phase::Idle,
        };
        assert(keys_of(indexer.spent_cache@) =~= Seq::<Seq<u8>>::empty());
        indexer
    }

    /// The stored range list that the write-back cache holds for `outpoint`, if any.
    pub fn cached(&self, outpoint: &OutPointValue) -> (found: Option<&Vec<u8>>)
        ensures
            match found {
                Some(ranges) => self.deltas().cache.contains_key(outpoint@) && self.deltas().cache[outpoint@]
                    == ranges@,
                None => !self.deltas().cache.contains_key(outpoint@),
            },
    {
        self.range_cache.get(outpoint)
    }

    /// The stored references of the outputs that the block spends and the write-back cache
    /// does not hold, in order: what indexing the block asks the store for, where the block
    /// spends nothing twice.
    pub fn missing_inputs(&self, block: &Block) -> (outpoints: Vec<OutPointValue>)
        ensures
            keys_of(outpoints@) == uncached(self.deltas().cache, lookups(block.txdata@, 1)),
    {
        let spent = block.spent_outpoints();
        let ghost all = keys_of(spent@);
        let mut outpoints: Vec<OutPointValue> = Vec::new();
        let mut at: usize = 0;
        assert(all.skip(0) =~= all);
        assert(keys_of(outpoints@) + uncached(self.deltas().cache, all) =~= uncached(
            self.deltas().cache,
            all,
        ));
        while at < spent.len()
            invariant
                at <= spent.len(),
                all == keys_of(spent@),
                keys_of(outpoints@) + uncached(self.deltas().cache, all.skip(at as int))
                    == uncached(self.deltas().cache, all),
            decreases spent.len() - at,
        {
            let ghost rest = all.skip(at as int);
            let ghost so_far = outpoints@;
            assert(rest[0] == spent@[at as int]@);
            assert(rest.skip(1) =~= all.skip(at as int + 1));
            if self.range_cache.get(&spent[at]).is_none() {
                outpoints.push(spent[at]);
                assert(keys_of(outpoints@) =~= keys_of(so_far).push(rest[0]));
                assert(keys_of(so_far).push(rest[0]) + uncached(
                    self.deltas().cache,
                    rest.skip(1),
                ) =~= keys_of(so_far) + (seq![rest[0]] + uncached(
                    self.deltas().cache,
                    rest.skip(1),
                )));
            }
            at = at + 1;
        }
        assert(keys_of(outpoints@) + Seq::<Seq<u8>>::empty() =~= keys_of(outpoints@));
        outpoints
    }

    /// Whether the deltas are made durable after the block at `height` wherever the run ends.
    pub fn has_reached_treshold(&self, height: u64) -> (reached: bool)
        ensures
            reached == (height == MILESTONE_HEIGHT || (height != 0 && height % BATCH_SIZE == 0)),
    {
        if height == MILESTONE_HEIGHT {
            return true;
        }
        if height != 0 && height % BATCH_SIZE == 0 {
            return true;
        }
        return false;
    }

    /// Pays the outputs of `tx` from the front of the queue, in order, and writes the range
    /// list of each into the write-back cache, over what the cache held for it. What the
    /// outputs leave stays in the queue.
    pub fn index_transaction_sats(
        &mut self,
        tx: &Transaction,
        input_sat_ranges: &mut VecDeque<SatRange>,
    ) -> (done: Result<(), IndexError>)
        requires
            all_ordered(old(input_sat_ranges)@),
        ensures
            match pay_spec(old(self).deltas().cache, *tx, old(input_sat_ranges)@) {
                Ok((cache, left)) => {
                    &&& done is Ok
                    &&& final(self).deltas() == Deltas { cache, spent: old(self).deltas().spent }
                    &&& final(input_sat_ranges)@ == left
                },
                Err(error) => {
                    &&& done == Err::<(), IndexError>(error)
                    &&& final(self).deltas() == Deltas::none()
                    &&& final(input_sat_ranges)@.len() == 0
                },
            },
            done is Ok <==> tx.indexable() && claimed(tx.output@, 0) <= total_len(
                old(input_sat_ranges)@,
            ),
            final(self).phase() == old(self).phase(),
            all_ordered(final(input_sat_ranges)@),
    {
        if tx.output.len() > 0xffff_ffff {
            self.abandon();
            input_sat_ranges.clear();
            return Err(IndexError::MalformedBlock);
        }
        proof {
            lemma_distribute(self.deltas().cache, txid_of(tx@), tx.output@, 0, input_sat_ranges@);
        }
        let txid = tx.txid();
        let mut vout: usize = 0;
        while vout < tx.output.len()
            invariant
                vout <= tx.output.len(),
                tx.indexable(),
                txid@ == txid_of(tx@),
                all_ordered(input_sat_ranges@),
                self.spent_cache == old(self).spent_cache,
                self.phase == old(self).phase,
                distribute_spec(
                    old(self).deltas().cache,
                    txid_of(tx@),
                    tx.output@,
                    0,
                    old(input_sat_ranges)@,
                ) is Ok <==> claimed(tx.output@, 0) <= total_len(old(input_sat_ranges)@),
                distribute_spec(
                    old(self).deltas().cache,
                    txid_of(tx@),
                    tx.output@,
                    0,
                    old(input_sat_ranges)@,
                ) == distribute_spec(
                    self.deltas().cache,
                    txid_of(tx@),
                    tx.output@,
                    vout as int,
                    input_sat_ranges@,
                ),
            decreases tx.output.len() - vout,
        {
            let outpoint = OutPoint { txid, vout: vout as u32 };
            match take_sats(input_sat_ranges, tx.output[vout].value) {
                None => {
                    self.abandon();
                    return Err(IndexError::InsufficientInputs);
                },
                Some(sats) => {
                    let ranges = store_ranges(&sats);
                    self.range_cache.insert(outpoint.store(), ranges);
                },
            }
            vout = vout + 1;
        }
        Ok(())
    }

    /// Spends the inputs of `tx`, in order: the range list of each comes out of the write-back
    /// cache, or else from `stored`, which puts the output on the spent list. Hands back the
    /// ranges of all inputs in one queue.
    pub fn spend_inputs(&mut self, tx: &Transaction, stored: &RangeTable) -> (spent: Result<
        VecDeque<SatRange>,
        IndexError,
    >)
        ensures
            match resolve_spec(old(self).deltas(), stored@, tx.input@, 0, Seq::empty()) {
                Ok((deltas, queue)) => spent matches Ok(ranges) && ranges@ == queue && final(self).deltas() == deltas,
                Err(error) => spent matches Err(other) && other == error && final(self).deltas()
                    == Deltas::none(),
            },
            spent matches Ok(ranges) ==> all_ordered(ranges@),
            final(self).phase() == old(self).phase(),
    {
        let mut input_sat_ranges: VecDeque<SatRange> = VecDeque::new();
        let mut at: usize = 0;
        while at < tx.input.len()
            invariant
                at <= tx.input.len(),
                all_ordered(input_sat_ranges@),
                self.phase == old(self).phase,
                resolve_spec(old(self).deltas(), stored@, tx.input@, 0, Seq::empty())
                    == resolve_spec(self.deltas(), stored@, tx.input@, at as int, input_sat_ranges@),
            decreases tx.input.len() - at,
        {
            let outpoint = tx.input[at].previous_output.store();
            let ghost queue = input_sat_ranges@;
            let ghost spent_before = self.spent_cache@;
            let ghost before = self.deltas();
            let ghost key = outpoint_bytes(tx.input@[at as int].previous_output@);
            assert(outpoint@ == key);
            let loaded = match self.range_cache.remove(&outpoint) {
                Some(ranges) => {
                    assert(before.cache.contains_key(key));
                    assert(ranges@ == before.cache[key]);
                    assert(self.deltas() == Deltas {
                        cache: before.cache.remove(key),
                        spent: before.spent,
                    });
                    load_ranges(&ranges)
                },
                None => match stored.get(&outpoint) {
                    Some(ranges) => {
                        self.spent_cache.push(outpoint);
                        assert(keys_of(self.spent_cache@) =~= keys_of(spent_before).push(
                            outpoint@,
                        ));
                        assert(self.range_cache@ =~= before.cache);
                        assert(self.deltas() == Deltas {
                            cache: before.cache,
                            spent: before.spent.push(key),
                        });
                        load_ranges(ranges)
                    },
                    None => {
                        self.abandon();
                        return Err(IndexError::MissingRanges);
                    },
                },
            };
            match loaded {
                None => {
                    self.abandon();
                    return Err(IndexError::MalformedRanges);
                },
                Some(ranges) => {
                    let mut next: usize = 0;
                    while next < ranges.len()
                        invariant
                            next <= ranges.len(),
                            all_packable(ranges@),
                            all_ordered(input_sat_ranges@),
                            input_sat_ranges@ == queue + ranges@.take(next as int),
                        decreases ranges.len() - next,
                    {
                        assert(ranges@[next as int].packable());
                        input_sat_ranges.push_back(ranges[next]);
                        next = next + 1;
                        assert(input_sat_ranges@ =~= queue + ranges@.take(next as int));
                    }
                    assert(ranges@.take(next as int) =~= ranges@);
                    assert(resolve_spec(before, stored@, tx.input@, at as int, queue)
                        == resolve_spec(
                        self.deltas(),
                        stored@,
                        tx.input@,
                        at as int + 1,
                        queue + ranges@,
                    ));
                },
            }
            at = at + 1;
        }
        Ok(input_sat_ranges)
    }

    /// Moves the ranges of one block: every transaction but the coinbase spends its inputs
    /// and pays its outputs, in order; the coinbase then pays its outputs from what `height`
    /// mints, followed by what the others left.
    pub fn index_block(&mut self, block: &Block, height: u64, stored: &RangeTable) -> (done: Result<
        (),
        IndexError,
    >)
        ensures
            match index_block_spec(old(self).deltas(), stored@, *block, height as nat) {
                Ok(deltas) => done is Ok && final(self).deltas() == deltas,
                Err(error) => done == Err::<(), IndexError>(error) && final(self).deltas()
                    == Deltas::none(),
            },
            final(self).phase() == old(self).phase(),
    {
        if !block.is_indexable() {
            self.abandon();
            return Err(IndexError::MalformedBlock);
        }
        let mut coinbase_inputs: VecDeque<SatRange> = VecDeque::new();
        let units = subsidy(height);
        if units > 0 {
            let start = starting_sat(height);
            coinbase_inputs.push_front(SatRange { start, end: start + units });
        }
        assert(coinbase_inputs@ =~= minted(height as nat));
        let mut at: usize = 1;
        while at < block.txdata.len()
            invariant
                1 <= at,
                block.indexable(),
                all_ordered(coinbase_inputs@),
                self.phase == old(self).phase,
                spend_spec(old(self).deltas(), stored@, block.txdata@, 1, minted(height as nat))
                    == spend_spec(self.deltas(), stored@, block.txdata@, at as int, coinbase_inputs@),
            decreases block.txdata.len() - at,
        {
            let tx = &block.txdata[at];
            let mut input_sat_ranges = match self.spend_inputs(tx, stored) {
                Ok(ranges) => ranges,
                Err(error) => {
                    return Err(error);
                },
            };
            match self.index_transaction_sats(tx, &mut input_sat_ranges) {
                Ok(()) => {},
                Err(error) => {
                    return Err(error);
                },
            }
            let ghost fees = coinbase_inputs@;
            let ghost left = input_sat_ranges@;
            coinbase_inputs.append(&mut input_sat_ranges);
            assert(all_ordered(coinbase_inputs@)) by {
                assert forall|k: int| 0 <= k < coinbase_inputs@.len() implies (
                #[trigger] coinbase_inputs@[k]).ordered() by {
                    if k < fees.len() {
                        assert(coinbase_inputs@[k] == fees[k]);
                    } else {
                        assert(coinbase_inputs@[k] == left[k - fees.len()]);
                    }
                }
            }
            at = at + 1;
        }
        self.index_transaction_sats(&block.txdata[0], &mut coinbase_inputs)
    }

    /// Drops the deltas: what was not committed is gone.
    fn abandon(&mut self)
        ensures
            final(self).deltas() == Deltas::none(),
            final(self).phase() == old(self).phase(),
    {
        self.range_cache = RangeTable::new();
        self.spent_cache = Vec::new();
        assert(keys_of(self.spent_cache@) =~= Seq::<Seq<u8>>::empty());
    }

    /// Hands out the deltas to be committed at `height`, and holds nothing after.
    fn checkpoint(&mut self, height: u64) -> (action: Action)
        ensures
            commits(action, old(self).deltas(), height),
            final(self).deltas() == Deltas::none(),
            final(self).phase() == old(self).phase(),
    {
        let mut range_cache = RangeTable::new();
        std::mem::swap(&mut range_cache, &mut self.range_cache);
        let mut deletes: Vec<OutPointValue> = Vec::new();
        std::mem::swap(&mut deletes, &mut self.spent_cache);
        assert(keys_of(self.spent_cache@) =~= Seq::<Seq<u8>>::empty());
        Action::Commit { inserts: range_cache.into_entries(), deletes, height }
    }

    /// Takes what the outside reports and says what it has to do next.
    ///
    /// A run starts with [`Event::Started`]. The engine then asks for one block after the
    /// other, from the height after the last committed one to the tip, and hands out its
    /// deltas to be made durable wherever a checkpoint is due. After an error the engine holds
    /// nothing and runs nothing: the store still stands at its last checkpoint.
    pub fn update(&mut self, event: Event) -> (next: Result<Action, IndexError>)
        ensures
            match (old(self).phase(), event) {
                (Phase::Idle, Event::Started { chain_tip, committed }) => if next_height(committed)
                    <= chain_tip {
                    &&& next == Ok::<Action, IndexError>(
                        Action::Fetch { height: next_height(committed) as u64 },
                    )
                    &&& final(self).phase() == Phase::Fetching {
                        height: next_height(committed) as u64,
                        tip: chain_tip,
                    }
                    &&& final(self).deltas() == old(self).deltas()
                } else {
                    &&& next matches Ok(action)
                    &&& commits(action, old(self).deltas(), committed->0)
                    &&& final(self).phase() == Phase::Committing {
                        height: committed->0,
                        tip: chain_tip,
                    }
                    &&& final(self).deltas() == Deltas::none()
                },
                (Phase::Fetching { height, tip }, Event::Fetched { block, stored }) => match index_block_spec(
                    old(self).deltas(),
                    stored@,
                    block,
                    height as nat,
                ) {
                    Err(error) => {
                        &&& next matches Err(other)
                        &&& other == error
                        &&& final(self).phase() == Phase::Idle
                        &&& final(self).deltas() == Deltas::none()
                    },
                    Ok(deltas) => if checkpoint_due(height, tip) {
                        &&& next matches Ok(action)
                        &&& commits(action, deltas, height)
                        &&& final(self).phase() == Phase::Committing { height, tip }
                        &&& final(self).deltas() == Deltas::none()
                    } else {
                        &&& next == Ok::<Action, IndexError>(
                            Action::Fetch { height: (height + 1) as u64 },
                        )
                        &&& final(self).phase() == Phase::Fetching {
                            height: (height + 1) as u64,
                            tip,
                        }
                        &&& final(self).deltas() == deltas
                    },
                },
                (Phase::Committing { height, tip }, Event::Committed) => if height < tip {
                    &&& next == Ok::<Action, IndexError>(
                        Action::Fetch { height: (height + 1) as u64 },
                    )
                    &&& final(self).phase() == Phase::Fetching { height: (height + 1) as u64, tip }
                    &&& final(self).deltas() == old(self).deltas()
                } else {
                    &&& next == Ok::<Action, IndexError>(Action::Stop)
                    &&& final(self).phase() == Phase::Idle
                    &&& final(self).deltas() == old(self).deltas()
                },
                _ => {
                    &&& next matches Err(error)
                    &&& error == IndexError::UnexpectedEvent
                    &&& final(self).phase() == old(self).phase()
                    &&& final(self).deltas() == old(self).deltas()
                },
            },
    {
        match (self.phase, event) {
            (Phase::Idle, Event::Started { chain_tip, committed }) => {
                match get_next_height(committed) {
                    Some(height) if height <= chain_tip => {
                        self.phase = Phase::Fetching { height, tip: chain_tip };
                        Ok(Action::Fetch { height })
                    },
                    _ => {
                        let height = committed.unwrap();
                        self.phase = Phase::Committing { height, tip: chain_tip };
                        Ok(self.checkpoint(height))
                    },
                }
            },
            (Phase::Fetching { height, tip }, Event::Fetched { block, stored }) => {
                match self.index_block(&block, height, &stored) {
                    Err(error) => {
                        self.phase = Phase::Idle;
                        Err(error)
                    },
                    Ok(()) => {
                        if self.has_reached_treshold(height) || height >= tip {
                            self.phase = Phase::Committing { height, tip };
                            Ok(self.checkpoint(height))
                        } else {
                            self.phase = Phase::Fetching { height: height + 1, tip };
                            Ok(Action::Fetch { height: height + 1 })
                        }
                    },
                }
            },
            (Phase::Committing { height, tip }, Event::Committed) => {
                if height < tip {
                    self.phase = Phase::Fetching { height: height + 1, tip };
                    Ok(Action::Fetch { height: height + 1 })
                } else {
                    self.phase = Phase::Idle;
                    Ok(Action::Stop)
                }
            },
            _ => Err(IndexError::UnexpectedEvent),
        }
    }
}

} // verus!
