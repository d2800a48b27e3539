//! Queues of ranges: how many units they hold, which ones, and how the front of a queue is
//! cut off for an output.

use crate::entry::{all_ordered, SatRange};
use std::collections::VecDeque;
use vstd::prelude::*;

verus! {

/// Units in all ranges of the list.
pub open spec fn total_len(ranges: Seq<SatRange>) -> nat
    decreases ranges.len(),
{
    if ranges.len() == 0 {
        0
    } else {
        ranges[0].len() + total_len(ranges.skip(1))
    }
}

/// The sequence numbers of the list, one by one, in the order in which the list holds them.
pub open spec fn sats_of(ranges: Seq<SatRange>) -> Seq<int>
    decreases ranges.len(),
{
    if ranges.len() == 0 {
        Seq::empty()
    } else {
        Seq::new(ranges[0].len(), |at: int| ranges[0].start + at) + sats_of(ranges.skip(1))
    }
}

/// How many ranges of the list hold the sequence number `sat`.
pub open spec fn count_of(ranges: Seq<SatRange>, sat: int) -> nat
    decreases ranges.len(),
{
    if ranges.len() == 0 {
        0
    } else {
        (if ranges[0].start <= sat < ranges[0].end {
            1nat
        } else {
            0nat
        }) + count_of(ranges.skip(1), sat)
    }
}

/// The first `amount` units of `queue`, and what is left of it: whole ranges from the front,
/// and the front part of the next one where a whole range would be too much. Nothing where
/// the queue holds fewer units.
pub open spec fn take_spec(queue: Seq<SatRange>, amount: nat) -> Option<
    (Seq<SatRange>, Seq<SatRange>),
>
    decreases queue.len(),
{
    if amount == 0 {
        Some((Seq::empty(), queue))
    } else if queue.len() == 0 {
        None
    } else if queue[0].len() > amount {
        let middle = (queue[0].start + amount) as u64;
        Some(
            (
                seq![SatRange { start: queue[0].start, end: middle }],
                seq![SatRange { start: middle, end: queue[0].end }] + queue.skip(1),
            ),
        )
    } else {
        match take_spec(queue.skip(1), (amount - queue[0].len()) as nat) {
            Some((taken, rest)) => Some((seq![queue[0]] + taken, rest)),
            None => None,
        }
    }
}

/// `taken` put in front of what an outcome of [`take_spec`] took.
spec fn taken_after(
    taken: Seq<SatRange>,
    outcome: Option<(Seq<SatRange>, Seq<SatRange>)>,
) -> Option<(Seq<SatRange>, Seq<SatRange>)> {
    match outcome {
        Some((more, rest)) => Some((taken + more, rest)),
        None => None,
    }
}

/// Takes `value` units from the front of the queue: whole ranges, and the front part of the
/// next one where a whole range would be too much, whose rest goes back to the front. Hands
/// back nothing where the queue runs out first.
pub fn take_sats(input_sat_ranges: &mut VecDeque<SatRange>, value: u64) -> (assigned: Option<
    Vec<SatRange>,
>)
    requires
        all_ordered(old(input_sat_ranges)@),
    ensures
        match take_spec(old(input_sat_ranges)@, value as nat) {
            Some((taken, rest)) => assigned matches Some(ranges) && ranges@ == taken && final(input_sat_ranges)@ == rest,
            None => assigned is None && final(input_sat_ranges)@.len() == 0,
        },
        assigned is Some <==> value <= total_len(old(input_sat_ranges)@),
        all_ordered(final(input_sat_ranges)@),
        assigned matches Some(ranges) ==> all_ordered(ranges@),
{
    proof {
        lemma_take(input_sat_ranges@, value as nat);
    }
    let mut assigned: Vec<SatRange> = Vec::new();
    let mut remaining: u64 = value;
    assert(taken_after(assigned@, take_spec(input_sat_ranges@, remaining as nat)) =~= take_spec(
        input_sat_ranges@,
        remaining as nat,
    )) by {
        let outcome = take_spec(input_sat_ranges@, remaining as nat);
        match outcome {
            Some((more, rest)) => {
                assert(assigned@ + more =~= more);
            },
            None => {},
        }
    }
    while remaining > 0
        invariant
            all_ordered(input_sat_ranges@),
            all_ordered(assigned@),
            take_spec(old(input_sat_ranges)@, value as nat) is Some <==> value <= total_len(
                old(input_sat_ranges)@,
            ),
            take_spec(old(input_sat_ranges)@, value as nat) == taken_after(
                assigned@,
                take_spec(input_sat_ranges@, remaining as nat),
            ),
        decreases input_sat_ranges@.len() + (if remaining > 0 { 1int } else { 0int }),
    {
        let ghost queue = input_sat_ranges@;
        let ghost before = assigned@;
        match input_sat_ranges.pop_front() {
            None => {
                return None;
            },
            Some(range) => {
                assert(input_sat_ranges@ =~= queue.skip(1));
                assert(range.ordered());
                let count: u64 = range.end - range.start;
                if count > remaining {
                    let middle: u64 = range.start + remaining;
                    input_sat_ranges.push_front(SatRange { start: middle, end: range.end });
                    assigned.push(SatRange { start: range.start, end: middle });
                    remaining = 0;
                    proof {
                        assert(assigned@ + Seq::<SatRange>::empty() =~= before + seq![
                            SatRange { start: range.start, end: middle },
                        ]);
                        assert(input_sat_ranges@ =~= seq![SatRange { start: middle, end: range.end }]
                            + queue.skip(1));
                        assert(all_ordered(input_sat_ranges@)) by {
                            assert forall|at: int| 0 <= at < input_sat_ranges@.len() implies (
                            #[trigger] input_sat_ranges@[at]).ordered() by {
                                if at > 0 {
                                    assert(input_sat_ranges@[at] == queue[at]);
                                }
                            }
                        }
                    }
                } else {
                    assigned.push(range);
                    remaining = remaining - count;
                    proof {
                        let outcome = take_spec(queue.skip(1), remaining as nat);
                        match outcome {
                            Some((more, rest)) => {
                                assert(assigned@ + more =~= before + (seq![range] + more));
                            },
                            None => {},
                        }
                        assert(all_ordered(input_sat_ranges@)) by {
                            assert forall|at: int| 0 <= at < input_sat_ranges@.len() implies (
                            #[trigger] input_sat_ranges@[at]).ordered() by {
                                assert(input_sat_ranges@[at] == queue[at + 1]);
                            }
                        }
                    }
                }
            },
        }
    }
    assert(assigned@ + Seq::<SatRange>::empty() =~= assigned@);
    Some(assigned)
}

/// A list of one range holds what the range holds.
pub proof fn lemma_single(range: SatRange)
    ensures
        total_len(seq![range]) == range.len(),
        sats_of(seq![range]) == Seq::new(range.len(), |at: int| range.start + at),
        forall|sat: int|
            #[trigger] count_of(seq![range], sat) == (if range.start <= sat < range.end {
                1nat
            } else {
                0nat
            }),
{
    let one = seq![range];
    assert(one[0] == range);
    assert(one.skip(1) =~= Seq::<SatRange>::empty());
    assert(total_len(one.skip(1)) == 0);
    assert(sats_of(one.skip(1)) =~= Seq::<int>::empty());
    assert(sats_of(one) =~= Seq::new(range.len(), |at: int| range.start + at));
    assert forall|sat: int|
        #[trigger] count_of(one, sat) == (if range.start <= sat < range.end {
            1nat
        } else {
            0nat
        }) by {
        assert(count_of(one.skip(1), sat) == 0);
    }
}

/// Two lists, one behind the other, hold what both hold, the first list's units first.
pub proof fn lemma_joined(front: Seq<SatRange>, back: Seq<SatRange>)
    ensures
        total_len(front + back) == total_len(front) + total_len(back),
        sats_of(front + back) == sats_of(front) + sats_of(back),
        sats_of(front).len() == total_len(front),
        forall|sat: int|
            #[trigger] count_of(front + back, sat) == count_of(front, sat) + count_of(back, sat),
    decreases front.len(),
{
    if front.len() == 0 {
        assert(front + back =~= back);
        assert(sats_of(front) + sats_of(back) =~= sats_of(back));
    } else {
        lemma_joined(front.skip(1), back);
        assert((front + back).skip(1) =~= front.skip(1) + back);
        let first = Seq::new(front[0].len(), |at: int| front[0].start + at);
        assert(first + (sats_of(front.skip(1)) + sats_of(back)) =~= (first + sats_of(
            front.skip(1),
        )) + sats_of(back));
        assert forall|sat: int|
            #[trigger] count_of(front + back, sat) == count_of(front, sat) + count_of(
                back,
                sat,
            ) by {
            assert(count_of((front + back).skip(1), sat) == count_of(front.skip(1), sat)
                + count_of(back, sat));
        }
    }
}

/// **Taking conserves.** Units can be taken from a queue exactly when it holds that many. What
/// is taken holds exactly the amount asked for, and what is taken and what is left are,
/// together and in this order, the sequence numbers that the queue held.
pub proof fn lemma_take(queue: Seq<SatRange>, amount: nat)
    requires
        all_ordered(queue),
    ensures
        take_spec(queue, amount) is Some <==> amount <= total_len(queue),
        take_spec(queue, amount) matches Some((taken, rest)) ==> {
            &&& total_len(taken) == amount
            &&& total_len(rest) == total_len(queue) - amount
            &&& sats_of(taken) + sats_of(rest) == sats_of(queue)
            &&& sats_of(taken) == sats_of(queue).take(amount as int)
            &&& sats_of(rest) == sats_of(queue).skip(amount as int)
            &&& all_ordered(taken)
            &&& all_ordered(rest)
            &&& forall|sat: int|
                #[trigger] count_of(taken, sat) + count_of(rest, sat) == count_of(queue, sat)
        },
    decreases queue.len(),
{
    lemma_joined(queue, Seq::empty());
    if amount == 0 {
        assert(sats_of(Seq::<SatRange>::empty()) + sats_of(queue) =~= sats_of(queue));
        assert(sats_of(queue).take(0) =~= Seq::<int>::empty());
        assert(sats_of(queue).skip(0) =~= sats_of(queue));
    } else if queue.len() == 0 {
    } else if queue[0].len() > amount {
        let front = queue[0];
        let middle = (front.start + amount) as u64;
        let head = SatRange { start: front.start, end: middle };
        let tail = SatRange { start: middle, end: front.end };
        let rest = seq![tail] + queue.skip(1);
        lemma_single(head);
        lemma_single(tail);
        lemma_joined(seq![tail], queue.skip(1));
        lemma_joined(seq![head], rest);
        assert(sats_of(seq![head]) + sats_of(rest) =~= sats_of(queue));
        assert forall|at: int| 0 <= at < rest.len() implies (#[trigger] rest[at]).ordered() by {
            if at > 0 {
                assert(rest[at] == queue[at]);
            }
        }
        assert forall|sat: int|
            #[trigger] count_of(seq![head], sat) + count_of(rest, sat) == count_of(
                queue,
                sat,
            ) by {
            assert(count_of(rest, sat) == count_of(seq![tail], sat) + count_of(
                queue.skip(1),
                sat,
            ));
        }
        lemma_cut(sats_of(seq![head]), sats_of(rest));
    } else {
        let front = queue[0];
        let less = (amount - front.len()) as nat;
        assert forall|at: int| 0 <= at < queue.skip(1).len() implies (#[trigger] queue.skip(
            1,
        )[at]).ordered() by {
            assert(queue.skip(1)[at] == queue[at + 1]);
        }
        lemma_take(queue.skip(1), less);
        match take_spec(queue.skip(1), less) {
            Some((more, rest)) => {
                let taken = seq![front] + more;
                lemma_single(front);
                lemma_joined(seq![front], more);
                assert(sats_of(taken) + sats_of(rest) =~= sats_of(queue));
                assert forall|at: int| 0 <= at < taken.len() implies (
                #[trigger] taken[at]).ordered() by {
                    if at > 0 {
                        assert(taken[at] == more[at - 1]);
                    }
                }
                assert forall|sat: int|
                    #[trigger] count_of(taken, sat) + count_of(rest, sat) == count_of(
                        queue,
                        sat,
                    ) by {
                    assert(count_of(taken, sat) == count_of(seq![front], sat) + count_of(
                        more,
                        sat,
                    ));
                    assert(count_of(more, sat) + count_of(rest, sat) == count_of(
                        queue.skip(1),
                        sat,
                    ));
                }
                lemma_joined(taken, Seq::empty());
                lemma_cut(sats_of(taken), sats_of(rest));
            },
            None => {},
        }
    }
}

/// A sequence cut where its first part ends gives the two parts back.
proof fn lemma_cut(front: Seq<int>, back: Seq<int>)
    ensures
        (front + back).take(front.len() as int) == front,
        (front + back).skip(front.len() as int) == back,
{
    assert((front + back).take(front.len() as int) =~= front);
    assert((front + back).skip(front.len() as int) =~= back);
}

/// **Split.** An output that claims fewer units than the front range holds, but at least one,
/// gets the front part of that range, exactly as long as its claim. The rest of the range
/// goes back to the front of the queue as one range, where the next output finds it.
pub proof fn lemma_take_splits(queue: Seq<SatRange>, amount: nat)
    requires
        queue.len() > 0,
        queue[0].ordered(),
        0 < amount < queue[0].len(),
    ensures
        take_spec(queue, amount) == Some(
            (
                seq![SatRange { start: queue[0].start, end: (queue[0].start + amount) as u64 }],
                seq![SatRange { start: (queue[0].start + amount) as u64, end: queue[0].end }]
                    + queue.skip(1),
            ),
        ),
        queue[0].start + amount < queue[0].end,
{
}

} // verus!
