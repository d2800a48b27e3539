use bitcoin::hashes::Hash as _;
use sat_indexer::block::{Block, Transaction, TxIn, TxOut};
use sat_indexer::cache::{Entry, RangeTable};
use sat_indexer::entry::{load_ranges, store_ranges, OutPoint, OutPointValue, SatRange};
use sat_indexer::indexer::{Action, Event, IndexError, Indexer};
use std::collections::{BTreeMap, VecDeque};

const FIFTY: u64 = 5_000_000_000;

fn range(start: u64, end: u64) -> SatRange {
    SatRange { start, end }
}

fn coinbase(height: u64, values: &[u64]) -> Transaction {
    Transaction {
        version: 1,
        lock_time: 0,
        input: vec![TxIn {
            previous_output: OutPoint { txid: [0; 32], vout: u32::MAX },
            script_sig: height.to_le_bytes().to_vec(),
            sequence: u32::MAX,
        }],
        output: values.iter().map(|&value| TxOut { value, script_pubkey: vec![0x51] }).collect(),
    }
}

fn spend(inputs: &[OutPoint], values: &[u64]) -> Transaction {
    Transaction {
        version: 2,
        lock_time: 0,
        input: inputs
            .iter()
            .map(|&previous_output| TxIn { previous_output, script_sig: vec![], sequence: u32::MAX })
            .collect(),
        output: values.iter().map(|&value| TxOut { value, script_pubkey: vec![0x51] }).collect(),
    }
}

fn output(tx: &Transaction, vout: u32) -> OutPoint {
    OutPoint { txid: tx.txid(), vout }
}

fn unrelated(seed: u8) -> OutPoint {
    OutPoint { txid: [seed; 32], vout: seed as u32 }
}

fn table(entries: &[(OutPoint, Vec<SatRange>)]) -> RangeTable {
    let mut table = RangeTable::new();
    for (outpoint, ranges) in entries {
        table.insert(outpoint.store(), store_ranges(ranges));
    }
    table
}

fn cached(indexer: &Indexer, outpoint: OutPoint) -> Option<Vec<SatRange>> {
    indexer.cached(&outpoint.store()).map(|bytes| load_ranges(bytes).unwrap())
}

/// A store held in memory, committed to as the engine asks.
struct Store {
    ranges: BTreeMap<OutPointValue, Vec<u8>>,
    height: Option<u64>,
    commits: Vec<u64>,
}

impl Store {
    fn fresh() -> Store {
        Store { ranges: BTreeMap::new(), height: None, commits: Vec::new() }
    }

    fn stored_for(&self, block: &Block) -> RangeTable {
        self.stored_at(block.spent_outpoints())
    }

    fn stored_at(&self, outpoints: Vec<OutPointValue>) -> RangeTable {
        let mut stored = RangeTable::with_buckets(8);
        for key in outpoints {
            if let Some(ranges) = self.ranges.get(&key) {
                stored.insert(key, ranges.clone());
            }
        }
        stored
    }

    fn commit(&mut self, inserts: Vec<Entry>, deletes: Vec<OutPointValue>, height: u64) {
        for Entry { outpoint, ranges } in inserts {
            self.ranges.insert(outpoint, ranges);
        }
        for outpoint in deletes {
            self.ranges.remove(&outpoint);
        }
        self.height = Some(height);
        self.commits.push(height);
    }

    fn ranges_of(&self, outpoint: OutPoint) -> Option<Vec<SatRange>> {
        self.ranges.get(&outpoint.store()).map(|bytes| load_ranges(bytes).unwrap())
    }

    /// Runs the engine to the tip of `chain`, whose first block stands at height `base`.
    fn run(&mut self, indexer: &mut Indexer, base: u64, chain: &[Block]) -> Result<(), IndexError> {
        let chain_tip = base + chain.len() as u64 - 1;
        let mut action = indexer.update(Event::Started { chain_tip, committed: self.height })?;
        loop {
            action = match action {
                Action::Fetch { height } => {
                    let block = chain[(height - base) as usize].clone();
                    let stored = self.stored_at(indexer.missing_inputs(&block));
                    indexer.update(Event::Fetched { block, stored })?
                }
                Action::Commit { inserts, deletes, height } => {
                    self.commit(inserts, deletes, height);
                    indexer.update(Event::Committed)?
                }
                Action::Stop => return Ok(()),
            };
        }
    }

    /// Whether the ranges of all stored outputs hold each unit below `issued` once, and no other.
    fn holds_exactly(&self, issued: u64) -> bool {
        let mut held: Vec<SatRange> = self
            .ranges
            .values()
            .flat_map(|bytes| load_ranges(bytes).unwrap())
            .filter(|range| range.start < range.end)
            .collect();
        held.sort_by_key(|range| range.start);
        let mut next = 0;
        for range in held {
            if range.start != next {
                return false;
            }
            next = range.end;
        }
        next == issued
    }
}

#[test]
fn genesis_coinbase_gets_the_first_subsidy() {
    let tx = coinbase(0, &[FIFTY]);
    let block = Block { txdata: vec![tx.clone()] };
    let mut indexer = Indexer::new();
    assert_eq!(indexer.index_block(&block, 0, &RangeTable::new()), Ok(()));
    assert_eq!(cached(&indexer, output(&tx, 0)), Some(vec![range(0, FIFTY)]));
    assert_eq!(cached(&indexer, output(&tx, 1)), None);
}

#[test]
fn second_coinbase_gets_the_second_subsidy() {
    let tx = coinbase(1, &[FIFTY]);
    let block = Block { txdata: vec![tx.clone()] };
    let mut indexer = Indexer::new();
    assert_eq!(indexer.index_block(&block, 1, &RangeTable::new()), Ok(()));
    assert_eq!(cached(&indexer, output(&tx, 0)), Some(vec![range(FIFTY, 2 * FIFTY)]));
}

#[test]
fn coinbase_after_the_last_subsidy_gets_nothing() {
    let tx = coinbase(7_000_000, &[0]);
    let block = Block { txdata: vec![tx.clone()] };
    let mut indexer = Indexer::new();
    assert_eq!(indexer.index_block(&block, 7_000_000, &RangeTable::new()), Ok(()));
    assert_eq!(cached(&indexer, output(&tx, 0)), Some(vec![]));
}

#[test]
fn two_outputs_share_two_input_ranges() {
    let tx = spend(&[unrelated(1)], &[60, 50]);
    let mut indexer = Indexer::new();
    let mut queue: VecDeque<SatRange> = [range(100, 150), range(200, 260)].into_iter().collect();
    assert_eq!(indexer.index_transaction_sats(&tx, &mut queue), Ok(()));
    assert_eq!(cached(&indexer, output(&tx, 0)), Some(vec![range(100, 150), range(200, 210)]));
    assert_eq!(cached(&indexer, output(&tx, 1)), Some(vec![range(210, 260)]));
    assert!(queue.is_empty());
}

#[test]
fn transaction_without_fee_forwards_nothing() {
    let source = unrelated(1);
    let tx = spend(&[source], &[60, 50]);
    let miner = coinbase(0, &[FIFTY]);
    let block = Block { txdata: vec![miner.clone(), tx.clone()] };
    let stored = table(&[(source, vec![range(100, 150), range(200, 260)])]);
    let mut indexer = Indexer::new();
    assert_eq!(indexer.index_block(&block, 0, &stored), Ok(()));
    assert_eq!(cached(&indexer, output(&tx, 0)), Some(vec![range(100, 150), range(200, 210)]));
    assert_eq!(cached(&indexer, output(&tx, 1)), Some(vec![range(210, 260)]));
    assert_eq!(cached(&indexer, output(&miner, 0)), Some(vec![range(0, FIFTY)]));
}

#[test]
fn output_below_the_front_range_gets_its_front_part() {
    let tx = spend(&[unrelated(1)], &[20, 30]);
    let mut indexer = Indexer::new();
    let mut queue: VecDeque<SatRange> = [range(100, 150), range(200, 260)].into_iter().collect();
    assert_eq!(indexer.index_transaction_sats(&tx, &mut queue), Ok(()));
    assert_eq!(cached(&indexer, output(&tx, 0)), Some(vec![range(100, 120)]));
    assert_eq!(cached(&indexer, output(&tx, 1)), Some(vec![range(120, 150)]));
    assert_eq!(queue, [range(200, 260)].into_iter().collect::<VecDeque<_>>());
}

#[test]
fn output_of_no_value_gets_an_empty_list() {
    let tx = spend(&[unrelated(1)], &[0, 5, 0]);
    let mut indexer = Indexer::new();
    let mut queue: VecDeque<SatRange> = [range(100, 150)].into_iter().collect();
    assert_eq!(indexer.index_transaction_sats(&tx, &mut queue), Ok(()));
    assert_eq!(cached(&indexer, output(&tx, 0)), Some(vec![]));
    assert_eq!(cached(&indexer, output(&tx, 1)), Some(vec![range(100, 105)]));
    assert_eq!(cached(&indexer, output(&tx, 2)), Some(vec![]));
}

#[test]
fn leftover_of_a_transaction_reaches_the_coinbase() {
    let source = unrelated(1);
    let tx = spend(&[source], &[60, 30]);
    let miner = coinbase(0, &[FIFTY + 20]);
    let block = Block { txdata: vec![miner.clone(), tx.clone()] };
    let stored = table(&[(source, vec![range(100, 150), range(200, 260)])]);
    let mut indexer = Indexer::new();
    assert_eq!(indexer.index_block(&block, 0, &stored), Ok(()));
    assert_eq!(cached(&indexer, output(&tx, 1)), Some(vec![range(210, 240)]));
    assert_eq!(
        cached(&indexer, output(&miner, 0)),
        Some(vec![range(0, FIFTY), range(240, 260)])
    );
}

#[test]
fn leftovers_queue_up_in_transaction_order() {
    let (first, second, third) = (unrelated(1), unrelated(2), unrelated(3));
    let a = spend(&[first], &[5]);
    let b = spend(&[second], &[10]);
    let c = spend(&[third], &[1]);
    let miner = coinbase(3, &[FIFTY, 9, 2]);
    let block = Block { txdata: vec![miner.clone(), a, b, c] };
    let stored = table(&[
        (first, vec![range(100, 103), range(50, 55)]),
        (second, vec![range(200, 210)]),
        (third, vec![range(300, 301), range(400, 408)]),
    ]);
    let mut indexer = Indexer::new();
    assert_eq!(indexer.index_block(&block, 3, &stored), Ok(()));
    assert_eq!(cached(&indexer, output(&miner, 0)), Some(vec![range(3 * FIFTY, 4 * FIFTY)]));
    assert_eq!(cached(&indexer, output(&miner, 1)), Some(vec![range(52, 55), range(400, 406)]));
    assert_eq!(cached(&indexer, output(&miner, 2)), Some(vec![range(406, 408)]));
}

#[test]
fn coinbase_may_leave_units_unclaimed() {
    let miner = coinbase(0, &[FIFTY - 1]);
    let block = Block { txdata: vec![miner.clone()] };
    let mut indexer = Indexer::new();
    assert_eq!(indexer.index_block(&block, 0, &RangeTable::new()), Ok(()));
    assert_eq!(cached(&indexer, output(&miner, 0)), Some(vec![range(0, FIFTY - 1)]));
}

#[test]
fn output_made_in_a_block_is_spent_in_the_same_block() {
    let source = unrelated(1);
    let a = spend(&[source], &[40]);
    let b = spend(&[output(&a, 0)], &[15, 25]);
    let miner = coinbase(0, &[FIFTY]);
    let block = Block { txdata: vec![miner, a.clone(), b.clone()] };
    let stored = table(&[(source, vec![range(100, 140)])]);
    let mut indexer = Indexer::new();
    assert_eq!(indexer.index_block(&block, 0, &stored), Ok(()));
    assert_eq!(cached(&indexer, output(&a, 0)), None);
    assert_eq!(cached(&indexer, output(&b, 0)), Some(vec![range(100, 115)]));
    assert_eq!(cached(&indexer, output(&b, 1)), Some(vec![range(115, 140)]));
}

#[test]
fn cached_output_is_preferred_to_the_stored_one() {
    let a = spend(&[unrelated(1)], &[10]);
    let b = spend(&[output(&a, 0)], &[10]);
    let miner = coinbase(0, &[FIFTY]);
    let stored = table(&[(unrelated(1), vec![range(70, 80)]), (output(&a, 0), vec![range(1, 11)])]);
    let mut indexer = Indexer::new();
    let block = Block { txdata: vec![miner, a, b.clone()] };
    assert_eq!(indexer.index_block(&block, 0, &stored), Ok(()));
    assert_eq!(cached(&indexer, output(&b, 0)), Some(vec![range(70, 80)]));
}

#[test]
fn input_unknown_to_cache_and_store_ends_the_block() {
    let tx = spend(&[unrelated(1)], &[1]);
    let block = Block { txdata: vec![coinbase(0, &[FIFTY]), tx] };
    let mut indexer = Indexer::new();
    assert_eq!(
        indexer.index_block(&block, 0, &RangeTable::new()),
        Err(IndexError::MissingRanges)
    );
}

#[test]
fn stored_list_of_broken_length_ends_the_block() {
    let source = unrelated(1);
    let tx = spend(&[source], &[1]);
    let block = Block { txdata: vec![coinbase(0, &[FIFTY]), tx] };
    let mut stored = RangeTable::new();
    stored.insert(source.store(), vec![0; 12]);
    let mut indexer = Indexer::new();
    assert_eq!(indexer.index_block(&block, 0, &stored), Err(IndexError::MalformedRanges));
}

#[test]
fn outputs_beyond_the_inputs_end_the_block() {
    let source = unrelated(1);
    let tx = spend(&[source], &[60, 51]);
    let block = Block { txdata: vec![coinbase(0, &[FIFTY]), tx] };
    let stored = table(&[(source, vec![range(100, 150), range(200, 260)])]);
    let mut indexer = Indexer::new();
    assert_eq!(indexer.index_block(&block, 0, &stored), Err(IndexError::InsufficientInputs));
}

#[test]
fn coinbase_beyond_subsidy_and_fees_ends_the_block() {
    let source = unrelated(1);
    let tx = spend(&[source], &[8]);
    let block = Block { txdata: vec![coinbase(0, &[FIFTY, 3]), tx] };
    let stored = table(&[(source, vec![range(100, 110)])]);
    let mut indexer = Indexer::new();
    assert_eq!(indexer.index_block(&block, 0, &stored), Err(IndexError::InsufficientInputs));
    let mut indexer = Indexer::new();
    let block = Block { txdata: vec![coinbase(7_000_000, &[1])] };
    assert_eq!(
        indexer.index_block(&block, 7_000_000, &RangeTable::new()),
        Err(IndexError::InsufficientInputs)
    );
}

#[test]
fn transaction_outputs_are_paid_exactly_when_the_queue_suffices() {
    for (values, paid) in [(vec![110u64], true), (vec![50, 60], true), (vec![111], false), (vec![0, 0], true)] {
        let tx = spend(&[unrelated(1)], &values);
        let mut queue: VecDeque<SatRange> = [range(100, 150), range(200, 260)].into_iter().collect();
        let done = Indexer::new().index_transaction_sats(&tx, &mut queue);
        assert_eq!(done.is_ok(), paid);
        if !paid {
            assert_eq!(done, Err(IndexError::InsufficientInputs));
        }
    }
}

#[test]
fn inputs_are_queued_in_their_order() {
    let (first, second) = (unrelated(1), unrelated(2));
    let tx = spend(&[second, first], &[1]);
    let stored = table(&[(first, vec![range(10, 20)]), (second, vec![range(30, 40), range(0, 5)])]);
    let mut indexer = Indexer::new();
    let queue = indexer.spend_inputs(&tx, &stored).unwrap();
    assert_eq!(
        queue,
        [range(30, 40), range(0, 5), range(10, 20)].into_iter().collect::<VecDeque<_>>()
    );
}

#[test]
fn checkpoints_are_due_at_the_milestone_and_at_each_batch() {
    let indexer = Indexer::new();
    for height in [2_413_341u64, 5_000, 10_000, 2_415_000, 5_000 * 3_689_348_814_741_910] {
        assert!(indexer.has_reached_treshold(height));
    }
    for height in [0u64, 1, 4_999, 5_001, 2_413_340, 2_413_342, u64::MAX] {
        assert!(!indexer.has_reached_treshold(height));
    }
}

#[test]
fn run_on_a_fresh_store_starts_at_genesis() {
    let mut indexer = Indexer::new();
    let action = indexer.update(Event::Started { chain_tip: 10, committed: None }).unwrap();
    assert!(matches!(action, Action::Fetch { height: 0 }));
}

#[test]
fn run_resumes_after_the_last_committed_height() {
    let mut indexer = Indexer::new();
    let action = indexer.update(Event::Started { chain_tip: 10, committed: Some(0) }).unwrap();
    assert!(matches!(action, Action::Fetch { height: 1 }));
    let mut indexer = Indexer::new();
    let action = indexer.update(Event::Started { chain_tip: 10, committed: Some(9) }).unwrap();
    assert!(matches!(action, Action::Fetch { height: 10 }));
}

#[test]
fn run_with_nothing_to_do_commits_an_empty_batch() {
    for committed in [10u64, 11, u64::MAX] {
        let mut indexer = Indexer::new();
        let event = Event::Started { chain_tip: 10, committed: Some(committed) };
        match indexer.update(event).unwrap() {
            Action::Commit { inserts, deletes, height } => {
                assert!(inserts.is_empty());
                assert!(deletes.is_empty());
                assert_eq!(height, committed);
            }
            other => panic!("unexpected {:?}", other),
        }
        assert!(matches!(indexer.update(Event::Committed), Ok(Action::Stop)));
    }
}

#[test]
fn last_block_of_a_run_is_committed() {
    let tx = coinbase(0, &[FIFTY]);
    let mut indexer = Indexer::new();
    indexer.update(Event::Started { chain_tip: 0, committed: None }).unwrap();
    let event = Event::Fetched { block: Block { txdata: vec![tx.clone()] }, stored: RangeTable::new() };
    match indexer.update(event).unwrap() {
        Action::Commit { inserts, deletes, height } => {
            assert_eq!(height, 0);
            assert!(deletes.is_empty());
            assert_eq!(inserts.len(), 1);
            assert_eq!(inserts[0].outpoint, output(&tx, 0).store());
            assert_eq!(load_ranges(&inserts[0].ranges), Some(vec![range(0, FIFTY)]));
        }
        other => panic!("unexpected {:?}", other),
    }
    assert_eq!(indexer.cached(&output(&tx, 0).store()), None);
    assert!(matches!(indexer.update(Event::Committed), Ok(Action::Stop)));
}

#[test]
fn blocks_between_checkpoints_are_not_committed() {
    let mut store = Store::fresh();
    let chain: Vec<Block> =
        (0..4).map(|height| Block { txdata: vec![coinbase(height, &[FIFTY])] }).collect();
    assert_eq!(store.run(&mut Indexer::new(), 0, &chain), Ok(()));
    assert_eq!(store.commits, vec![3]);
    assert_eq!(store.height, Some(3));
    assert_eq!(store.ranges.len(), 4);
}

#[test]
fn batch_heights_are_committed_on_the_way() {
    let mut store = Store::fresh();
    store.height = Some(4_997);
    let chain: Vec<Block> =
        (4_998..5_003).map(|height| Block { txdata: vec![coinbase(height, &[FIFTY])] }).collect();
    assert_eq!(store.run(&mut Indexer::new(), 4_998, &chain), Ok(()));
    assert_eq!(store.commits, vec![5_000, 5_002]);
    assert_eq!(store.ranges.len(), 5);
}

#[test]
fn milestone_height_is_committed_on_the_way() {
    let mut store = Store::fresh();
    store.height = Some(2_413_339);
    let chain: Vec<Block> = (2_413_340..2_413_343)
        .map(|height| Block { txdata: vec![coinbase(height, &[2_441_406])] })
        .collect();
    assert_eq!(store.run(&mut Indexer::new(), 2_413_340, &chain), Ok(()));
    assert_eq!(store.commits, vec![2_413_341, 2_413_342]);
}

#[test]
fn batch_height_at_the_tip_is_committed_once() {
    let mut store = Store::fresh();
    store.height = Some(4_999);
    let chain = vec![Block { txdata: vec![coinbase(5_000, &[FIFTY])] }];
    assert_eq!(store.run(&mut Indexer::new(), 5_000, &chain), Ok(()));
    assert_eq!(store.commits, vec![5_000]);
}

#[test]
fn event_out_of_turn_is_refused_and_changes_nothing() {
    let mut indexer = Indexer::new();
    assert!(matches!(indexer.update(Event::Committed), Err(IndexError::UnexpectedEvent)));
    let block = Block { txdata: vec![coinbase(0, &[FIFTY])] };
    let event = Event::Fetched { block: block.clone(), stored: RangeTable::new() };
    assert!(matches!(indexer.update(event), Err(IndexError::UnexpectedEvent)));
    indexer.update(Event::Started { chain_tip: 1, committed: None }).unwrap();
    let event = Event::Started { chain_tip: 1, committed: None };
    assert!(matches!(indexer.update(event), Err(IndexError::UnexpectedEvent)));
    assert!(matches!(indexer.update(Event::Committed), Err(IndexError::UnexpectedEvent)));
    let event = Event::Fetched { block, stored: RangeTable::new() };
    assert!(matches!(indexer.update(event), Ok(Action::Fetch { height: 1 })));
}

#[test]
fn failed_block_leaves_an_idle_engine_that_holds_nothing() {
    let first = coinbase(0, &[FIFTY]);
    let broken = Block { txdata: vec![coinbase(1, &[FIFTY]), spend(&[unrelated(9)], &[1])] };
    let mut indexer = Indexer::new();
    indexer.update(Event::Started { chain_tip: 1, committed: None }).unwrap();
    let event = Event::Fetched { block: Block { txdata: vec![first.clone()] }, stored: RangeTable::new() };
    indexer.update(event).unwrap();
    assert!(indexer.cached(&output(&first, 0).store()).is_some());
    let event = Event::Fetched { block: broken, stored: RangeTable::new() };
    assert!(matches!(indexer.update(event), Err(IndexError::MissingRanges)));
    assert_eq!(indexer.cached(&output(&first, 0).store()), None);
    let action = indexer.update(Event::Started { chain_tip: 1, committed: None }).unwrap();
    assert!(matches!(action, Action::Fetch { height: 0 }));
}

#[test]
fn failed_run_leaves_the_store_at_its_last_checkpoint() {
    let mut store = Store::fresh();
    let good: Vec<Block> =
        (0..2).map(|height| Block { txdata: vec![coinbase(height, &[FIFTY])] }).collect();
    let mut indexer = Indexer::new();
    assert_eq!(store.run(&mut indexer, 0, &good), Ok(()));
    let mut chain = good.clone();
    chain.push(Block { txdata: vec![coinbase(2, &[FIFTY])] });
    chain.push(Block { txdata: vec![coinbase(3, &[FIFTY + 1])] });
    let before = store.ranges.clone();
    assert_eq!(store.run(&mut indexer, 0, &chain), Err(IndexError::InsufficientInputs));
    assert_eq!(store.height, Some(1));
    assert_eq!(store.ranges, before);
    assert_eq!(store.commits, vec![1]);
}

#[test]
fn output_spent_from_the_store_is_deleted_at_the_checkpoint() {
    let mut store = Store::fresh();
    let genesis = coinbase(0, &[FIFTY]);
    let mut indexer = Indexer::new();
    assert_eq!(store.run(&mut indexer, 0, &[Block { txdata: vec![genesis.clone()] }]), Ok(()));
    assert_eq!(store.ranges_of(output(&genesis, 0)), Some(vec![range(0, FIFTY)]));

    let pay = spend(&[output(&genesis, 0)], &[3 * FIFTY / 5, FIFTY / 5]);
    let miner = coinbase(1, &[FIFTY + FIFTY / 5]);
    indexer.update(Event::Started { chain_tip: 1, committed: store.height }).unwrap();
    let block = Block { txdata: vec![miner.clone(), pay.clone()] };
    let stored = store.stored_for(&block);
    match indexer.update(Event::Fetched { block, stored }).unwrap() {
        Action::Commit { inserts, deletes, height } => {
            assert_eq!(height, 1);
            assert_eq!(deletes, vec![output(&genesis, 0).store()]);
            assert_eq!(inserts.len(), 3);
            store.commit(inserts, deletes, height);
        }
        other => panic!("unexpected {:?}", other),
    }
    assert_eq!(store.ranges_of(output(&genesis, 0)), None);
    assert_eq!(store.ranges_of(output(&pay, 0)), Some(vec![range(0, 3_000_000_000)]));
    assert_eq!(store.ranges_of(output(&pay, 1)), Some(vec![range(3_000_000_000, 4_000_000_000)]));
    assert_eq!(
        store.ranges_of(output(&miner, 0)),
        Some(vec![range(FIFTY, 2 * FIFTY), range(4_000_000_000, FIFTY)])
    );
}

#[test]
fn output_made_and_spent_between_checkpoints_never_reaches_the_store() {
    let mut store = Store::fresh();
    let genesis = coinbase(0, &[FIFTY]);
    let pay = spend(&[output(&genesis, 0)], &[FIFTY]);
    let chain = vec![
        Block { txdata: vec![genesis.clone()] },
        Block { txdata: vec![coinbase(1, &[FIFTY]), pay.clone()] },
    ];
    let mut indexer = Indexer::new();
    indexer.update(Event::Started { chain_tip: 1, committed: None }).unwrap();
    let stored = store.stored_for(&chain[0]);
    indexer.update(Event::Fetched { block: chain[0].clone(), stored }).unwrap();
    let stored = store.stored_for(&chain[1]);
    match indexer.update(Event::Fetched { block: chain[1].clone(), stored }).unwrap() {
        Action::Commit { inserts, deletes, height } => {
            assert_eq!(height, 1);
            assert!(deletes.is_empty());
            assert!(inserts.iter().all(|entry| entry.outpoint != output(&genesis, 0).store()));
            store.commit(inserts, deletes, height);
        }
        other => panic!("unexpected {:?}", other),
    }
    assert_eq!(store.ranges_of(output(&pay, 0)), Some(vec![range(0, FIFTY)]));
    assert_eq!(store.ranges.len(), 2);
}

#[test]
fn every_unit_is_held_once_after_each_run() {
    let mut store = Store::fresh();
    let mut indexer = Indexer::new();
    let mut chain: Vec<Block> = Vec::new();
    let mut unspent: Vec<(OutPoint, u64)> = Vec::new();
    let mut state: u64 = 42;
    let mut issued = 0;
    for height in 0..60u64 {
        let mut txdata = Vec::new();
        let mut fees = 0;
        let mut made: Vec<(OutPoint, u64)> = Vec::new();
        for _ in 0..(height % 4) {
            if unspent.is_empty() {
                break;
            }
            state = state.wrapping_mul(6364136223846793005).wrapping_add(1442695040888963407);
            let (source, value) = unspent.swap_remove((state >> 33) as usize % unspent.len());
            let first = value / 3;
            let second = value / 5;
            fees += value - first - second;
            let tx = spend(&[source], &[first, second]);
            made.push((output(&tx, 0), first));
            made.push((output(&tx, 1), second));
            txdata.push(tx);
        }
        let miner = coinbase(height, &[FIFTY / 2, FIFTY / 2 + fees]);
        made.push((output(&miner, 0), FIFTY / 2));
        made.push((output(&miner, 1), FIFTY / 2 + fees));
        txdata.insert(0, miner);
        unspent.extend(made);
        chain.push(Block { txdata });
        issued += FIFTY;
        if height % 7 == 6 || height == 59 {
            assert_eq!(store.run(&mut indexer, 0, &chain), Ok(()));
            assert_eq!(store.height, Some(height));
            assert!(store.holds_exactly(issued));
            assert_eq!(store.ranges.len(), unspent.len());
        }
    }
    for (outpoint, value) in unspent {
        let held: u64 = store.ranges_of(outpoint).unwrap().iter().map(|r| r.end - r.start).sum();
        assert_eq!(held, value);
    }
}

#[test]
fn transaction_identifier_is_the_one_of_the_chain() {
    let genesis = bitcoin::blockdata::constants::genesis_block(bitcoin::Network::Bitcoin);
    let outside = &genesis.txdata[0];
    let tx = Transaction {
        version: outside.version,
        lock_time: outside.lock_time.to_consensus_u32(),
        input: outside
            .input
            .iter()
            .map(|input| TxIn {
                previous_output: OutPoint {
                    txid: input.previous_output.txid.to_byte_array(),
                    vout: input.previous_output.vout,
                },
                script_sig: input.script_sig.to_bytes(),
                sequence: input.sequence.0,
            })
            .collect(),
        output: outside
            .output
            .iter()
            .map(|output| TxOut { value: output.value, script_pubkey: output.script_pubkey.to_bytes() })
            .collect(),
    };
    assert_eq!(tx.txid(), outside.txid().to_byte_array());
    let mut shown = tx.txid();
    shown.reverse();
    let hex: String = shown.iter().map(|byte| format!("{:02x}", byte)).collect();
    assert_eq!(hex, "4a5e1e4baab89f3a32518a88c31bc87f618f76673e2cc77ab2127b7afdeda33b");
}

#[test]
fn transaction_identifier_tells_transactions_apart() {
    let a = coinbase(1, &[FIFTY]);
    let b = coinbase(2, &[FIFTY]);
    let c = coinbase(1, &[FIFTY - 1]);
    assert_ne!(a.txid(), b.txid());
    assert_ne!(a.txid(), c.txid());
    assert_eq!(a.txid(), coinbase(1, &[FIFTY]).txid());
    assert_ne!(a.txid(), a.input[0].previous_output.txid);
}

#[test]
fn block_spends_the_inputs_of_all_but_the_coinbase() {
    let a = spend(&[unrelated(1), unrelated(2)], &[1]);
    let b = spend(&[], &[]);
    let c = spend(&[unrelated(3)], &[1]);
    let block = Block { txdata: vec![coinbase(0, &[FIFTY]), a, b, c] };
    assert_eq!(
        block.spent_outpoints(),
        vec![unrelated(1).store(), unrelated(2).store(), unrelated(3).store()]
    );
    assert!(Block { txdata: vec![coinbase(0, &[FIFTY])] }.spent_outpoints().is_empty());
    assert!(Block { txdata: vec![] }.spent_outpoints().is_empty());
}

#[test]
fn block_without_a_coinbase_is_not_indexable() {
    assert!(!Block { txdata: vec![] }.is_indexable());
    assert!(Block { txdata: vec![coinbase(0, &[])] }.is_indexable());
    assert!(Block { txdata: vec![coinbase(0, &[FIFTY]), spend(&[unrelated(1)], &[1, 2])] }.is_indexable());
}

#[test]
fn failed_payment_empties_queue_and_deltas() {
    let first = spend(&[unrelated(1)], &[10]);
    let second = spend(&[unrelated(2)], &[5, 100]);
    let mut indexer = Indexer::new();
    let mut queue: VecDeque<SatRange> = [range(0, 10)].into_iter().collect();
    assert_eq!(indexer.index_transaction_sats(&first, &mut queue), Ok(()));
    let mut queue: VecDeque<SatRange> = [range(20, 30), range(40, 50)].into_iter().collect();
    assert_eq!(
        indexer.index_transaction_sats(&second, &mut queue),
        Err(IndexError::InsufficientInputs)
    );
    assert!(queue.is_empty());
    assert_eq!(cached(&indexer, output(&first, 0)), None);
    assert_eq!(cached(&indexer, output(&second, 0)), None);
}

#[test]
fn failed_lookup_empties_the_deltas() {
    let first = spend(&[unrelated(1)], &[10]);
    let mut indexer = Indexer::new();
    let mut queue: VecDeque<SatRange> = [range(0, 10)].into_iter().collect();
    assert_eq!(indexer.index_transaction_sats(&first, &mut queue), Ok(()));
    let second = spend(&[output(&first, 0), unrelated(7)], &[10]);
    assert_eq!(
        indexer.spend_inputs(&second, &RangeTable::new()).map(|_| ()),
        Err(IndexError::MissingRanges)
    );
    assert_eq!(cached(&indexer, output(&first, 0)), None);
}

#[test]
fn cached_outputs_are_not_asked_of_the_store() {
    let made = spend(&[unrelated(1)], &[10, 20]);
    let mut indexer = Indexer::new();
    let mut queue: VecDeque<SatRange> = [range(0, 30)].into_iter().collect();
    assert_eq!(indexer.index_transaction_sats(&made, &mut queue), Ok(()));
    let a = spend(&[unrelated(2), output(&made, 1)], &[1]);
    let b = spend(&[output(&made, 0), unrelated(3), output(&a, 0)], &[1]);
    let block = Block { txdata: vec![coinbase(0, &[FIFTY]), a.clone(), b] };
    assert_eq!(
        indexer.missing_inputs(&block),
        vec![unrelated(2).store(), unrelated(3).store(), output(&a, 0).store()]
    );
    assert_eq!(block.spent_outpoints().len(), 5);
    assert!(Indexer::new().missing_inputs(&block) == block.spent_outpoints());
}

#[test]
fn block_is_indexed_alike_with_all_or_with_missing_inputs_fetched() {
    let mut store = Store::fresh();
    let genesis = coinbase(0, &[FIFTY / 2, FIFTY / 2]);
    assert_eq!(store.run(&mut Indexer::new(), 0, &[Block { txdata: vec![genesis.clone()] }]), Ok(()));
    let first = spend(&[output(&genesis, 0)], &[1_000, 2_000]);
    let second = spend(&[output(&first, 1), output(&genesis, 1)], &[500, FIFTY / 2]);
    let blocks = [
        Block { txdata: vec![coinbase(1, &[FIFTY]), first.clone()] },
        Block { txdata: vec![coinbase(2, &[FIFTY]), second.clone()] },
    ];
    let mut all_fetched = Indexer::new();
    let mut missing_fetched = Indexer::new();
    for (at, block) in blocks.iter().enumerate() {
        let stored = store.stored_for(block);
        assert_eq!(all_fetched.index_block(block, at as u64 + 1, &stored), Ok(()));
        let stored = store.stored_at(missing_fetched.missing_inputs(block));
        assert_eq!(missing_fetched.index_block(block, at as u64 + 1, &stored), Ok(()));
    }
    for outpoint in [output(&first, 0), output(&first, 1), output(&second, 0), output(&second, 1)] {
        assert_eq!(cached(&all_fetched, outpoint), cached(&missing_fetched, outpoint));
    }
    assert_eq!(cached(&all_fetched, output(&second, 0)), Some(vec![range(1_000, 1_500)]));
    assert_eq!(
        cached(&all_fetched, output(&second, 1)),
        Some(vec![range(1_500, 3_000), range(FIFTY / 2, FIFTY / 2 + FIFTY / 2 - 1_500)])
    );
}

#[test]
fn run_that_dies_before_its_commit_is_repeated_from_the_last_checkpoint() {
    let genesis = coinbase(0, &[FIFTY]);
    let pay = spend(&[output(&genesis, 0)], &[FIFTY - 7]);
    let chain = vec![
        Block { txdata: vec![genesis.clone()] },
        Block { txdata: vec![coinbase(1, &[FIFTY + 7]), pay.clone()] },
        Block { txdata: vec![coinbase(2, &[FIFTY])] },
    ];
    let mut whole = Store::fresh();
    assert_eq!(whole.run(&mut Indexer::new(), 0, &chain[..1]), Ok(()));
    assert_eq!(whole.run(&mut Indexer::new(), 0, &chain), Ok(()));

    let mut store = Store::fresh();
    assert_eq!(store.run(&mut Indexer::new(), 0, &chain[..1]), Ok(()));
    let before = store.ranges.clone();
    let mut dying = Indexer::new();
    let mut action = dying.update(Event::Started { chain_tip: 2, committed: store.height }).unwrap();
    loop {
        action = match action {
            Action::Fetch { height } => {
                let block = chain[height as usize].clone();
                let stored = store.stored_at(dying.missing_inputs(&block));
                dying.update(Event::Fetched { block, stored }).unwrap()
            }
            Action::Commit { height, .. } => {
                assert_eq!(height, 2);
                break;
            }
            Action::Stop => panic!("stopped before the commit"),
        };
    }
    drop(dying);
    assert_eq!(store.height, Some(0));
    assert_eq!(store.ranges, before);

    assert_eq!(store.run(&mut Indexer::new(), 0, &chain), Ok(()));
    assert_eq!(store.height, Some(2));
    assert_eq!(store.ranges, whole.ranges);
    assert!(store.holds_exactly(3 * FIFTY));
}

#[test]
fn block_without_a_coinbase_ends_the_run() {
    let mut indexer = Indexer::new();
    assert_eq!(
        indexer.index_block(&Block { txdata: vec![] }, 0, &RangeTable::new()),
        Err(IndexError::MalformedBlock)
    );
    indexer.update(Event::Started { chain_tip: 3, committed: None }).unwrap();
    let event = Event::Fetched { block: Block { txdata: vec![] }, stored: RangeTable::new() };
    assert!(matches!(indexer.update(event), Err(IndexError::MalformedBlock)));
    let event = Event::Started { chain_tip: 3, committed: None };
    assert!(matches!(indexer.update(event), Ok(Action::Fetch { height: 0 })));
}
