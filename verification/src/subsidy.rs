//! The issuance schedule: how many units each height mints, and where its first one falls.

use vstd::arithmetic::power2::{lemma2_to64, lemma2_to64_rest, lemma_pow2_pos, lemma_pow2_strictly_increases, lemma_pow2_unfold, pow2};
use vstd::bits::lemma_u64_shr_is_div;
use vstd::prelude::*;

verus! {

/// Units in one coin.
pub const COIN_VALUE: u64 = 100_000_000;

/// Heights between two halvings of the issuance.
pub const SUBSIDY_HALVING_INTERVAL: u64 = 210_000;

/// Units minted by each block before the first halving: fifty coins.
pub const INITIAL_SUBSIDY: u64 = 50 * COIN_VALUE;

/// No sequence number reaches this bound; it lies below 2^51.
pub const SUPPLY_BOUND: u64 = 2_100_000_000_000_000;

/// Halvings after which nothing is minted any more.
pub const LAST_HALVING: u64 = 33;

/// Units minted at `height`: the initial issuance divided by two to the number of elapsed
/// halving intervals, rounded down.
pub open spec fn subsidy_at(height: nat) -> nat {
    INITIAL_SUBSIDY as nat / pow2(height / (SUBSIDY_HALVING_INTERVAL as nat))
}

/// Sequence number of the first unit minted at `height`: everything minted below it.
pub open spec fn starting_sat_at(height: nat) -> nat
    decreases height,
{
    if height == 0 {
        0
    } else {
        starting_sat_at((height - 1) as nat) + subsidy_at((height - 1) as nat)
    }
}

/// The count of units newly minted at `height`.
pub fn subsidy(height: u64) -> (units: u64)
    ensures
        units == subsidy_at(height as nat),
        units <= INITIAL_SUBSIDY,
{
    let halvings: u64 = height / SUBSIDY_HALVING_INTERVAL;
    proof {
        lemma_halved(halvings as nat);
    }
    if halvings >= LAST_HALVING {
        0
    } else {
        INITIAL_SUBSIDY >> halvings
    }
}

/// The sequence number of the first unit minted at `height`, summed one halving interval at a
/// time.
pub fn starting_sat(height: u64) -> (first: u64)
    ensures
        first == starting_sat_at(height as nat),
        first + subsidy_at(height as nat) <= SUPPLY_BOUND,
{
    let intervals: u64 = height / SUBSIDY_HALVING_INTERVAL;
    let within: u64 = height % SUBSIDY_HALVING_INTERVAL;
    let mut first: u64 = 0;
    let mut done: u64 = 0;
    while done < intervals && done < LAST_HALVING
        invariant
            done <= intervals,
            done <= LAST_HALVING,
            first == starting_sat_at((done * SUBSIDY_HALVING_INTERVAL) as nat),
            first <= SUPPLY_BOUND,
        decreases LAST_HALVING - done,
    {
        proof {
            lemma_halved(done as nat);
            lemma_interval(done as nat, SUBSIDY_HALVING_INTERVAL as nat);
            lemma_supply_bound(((done + 1) * SUBSIDY_HALVING_INTERVAL) as nat);
        }
        first = first + SUBSIDY_HALVING_INTERVAL * (INITIAL_SUBSIDY >> done);
        done = done + 1;
    }
    proof {
        lemma_supply_bound(height as nat);
    }
    if done < LAST_HALVING {
        proof {
            lemma_halved(done as nat);
            lemma_interval(done as nat, within as nat);
            assert(within * (INITIAL_SUBSIDY >> done) <= SUBSIDY_HALVING_INTERVAL * (
            INITIAL_SUBSIDY >> done)) by (nonlinear_arith)
                requires
                    within <= SUBSIDY_HALVING_INTERVAL,
            ;
        }
        first + within * (INITIAL_SUBSIDY >> done)
    } else {
        proof {
            lemma_exhausted((done * SUBSIDY_HALVING_INTERVAL) as nat, height as nat);
        }
        first
    }
}

/// The issuance of every height in halving interval `halvings`, as a shift of the initial one.
proof fn lemma_halved(halvings: nat)
    ensures
        halvings < LAST_HALVING ==> subsidy_at(halvings * SUBSIDY_HALVING_INTERVAL as nat) == (
        INITIAL_SUBSIDY >> (halvings as u64)),
        halvings >= LAST_HALVING ==> INITIAL_SUBSIDY as nat / pow2(halvings) == 0,
        forall|height: nat|
            height / (SUBSIDY_HALVING_INTERVAL as nat) == halvings ==> #[trigger] subsidy_at(height)
                == INITIAL_SUBSIDY as nat / pow2(halvings),
        INITIAL_SUBSIDY as nat / pow2(halvings) <= INITIAL_SUBSIDY,
        2 * (INITIAL_SUBSIDY as nat / pow2(halvings + 1)) <= INITIAL_SUBSIDY as nat / pow2(
            halvings,
        ),
{
    let p = pow2(halvings);
    lemma_pow2_pos(halvings);
    lemma_pow2_unfold(halvings + 1);
    assert(pow2(halvings + 1) == 2 * p);
    let x = INITIAL_SUBSIDY as nat;
    assert(x / p <= x && 2 * (x / (2 * p)) <= x / p) by (nonlinear_arith)
        requires
            p > 0,
    ;
    assert(halvings * SUBSIDY_HALVING_INTERVAL as nat / (SUBSIDY_HALVING_INTERVAL as nat)
        == halvings);
    if halvings < LAST_HALVING {
        lemma_u64_shr_is_div(INITIAL_SUBSIDY, halvings as u64);
    } else {
        lemma2_to64_rest();
        if halvings > LAST_HALVING {
            lemma_pow2_strictly_increases(LAST_HALVING as nat, halvings);
        }
        assert(x / p == 0) by (nonlinear_arith)
            requires
                0 <= x < p,
        ;
    }
}

/// Inside one halving interval the first sequence number grows by the interval's issuance with
/// each height.
proof fn lemma_interval(halvings: nat, within: nat)
    requires
        within <= SUBSIDY_HALVING_INTERVAL,
    ensures
        starting_sat_at(halvings * SUBSIDY_HALVING_INTERVAL as nat + within) == starting_sat_at(
            halvings * SUBSIDY_HALVING_INTERVAL as nat,
        ) + within * (INITIAL_SUBSIDY as nat / pow2(halvings)),
    decreases within,
{
    let base = halvings * SUBSIDY_HALVING_INTERVAL as nat;
    let each = INITIAL_SUBSIDY as nat / pow2(halvings);
    if within > 0 {
        let before = (within - 1) as nat;
        lemma_interval(halvings, before);
        lemma_halved(halvings);
        assert((base + before) / (SUBSIDY_HALVING_INTERVAL as nat) == halvings);
        assert(subsidy_at(base + before) == each);
        assert(within * each == before * each + each) by (nonlinear_arith)
            requires
                within == before + 1,
        ;
    } else {
        assert(within * each == 0) by (nonlinear_arith)
            requires
                within == 0,
        ;
    }
}

/// Once issuance has ended, the first sequence number stays where it is.
proof fn lemma_exhausted(from: nat, to: nat)
    requires
        LAST_HALVING * SUBSIDY_HALVING_INTERVAL <= from <= to,
    ensures
        starting_sat_at(to) == starting_sat_at(from),
    decreases to - from,
{
    if from < to {
        let before = (to - 1) as nat;
        lemma_exhausted(from, before);
        let halvings = before / (SUBSIDY_HALVING_INTERVAL as nat);
        lemma_halved(halvings);
    }
}

/// What has been minted at the start of halving interval `halvings`, with twice what the
/// interval itself mints, stays within the bound: each interval mints at most half of the one
/// before.
proof fn lemma_interval_bound(halvings: nat)
    ensures
        starting_sat_at(halvings * SUBSIDY_HALVING_INTERVAL as nat) + 2 * (
        SUBSIDY_HALVING_INTERVAL * (INITIAL_SUBSIDY as nat / pow2(halvings))) <= SUPPLY_BOUND,
    decreases halvings,
{
    if halvings == 0 {
        lemma2_to64();
    } else {
        let before = (halvings - 1) as nat;
        lemma_interval_bound(before);
        lemma_interval(before, SUBSIDY_HALVING_INTERVAL as nat);
        lemma_halved(before);
    }
}

/// **Supply bound.** The units minted up to and including any height stay within
/// [`SUPPLY_BOUND`], so every sequence number fits in 51 bits.
pub proof fn lemma_supply_bound(height: nat)
    ensures
        starting_sat_at(height) + subsidy_at(height) <= SUPPLY_BOUND,
        SUPPLY_BOUND < 0x8_0000_0000_0000,
{
    let halvings = height / (SUBSIDY_HALVING_INTERVAL as nat);
    let within = height % (SUBSIDY_HALVING_INTERVAL as nat);
    let each = INITIAL_SUBSIDY as nat / pow2(halvings);
    lemma_interval_bound(halvings);
    lemma_interval(halvings, within);
    lemma_halved(halvings);
    assert(within * each + each <= SUBSIDY_HALVING_INTERVAL * each) by (nonlinear_arith)
        requires
            within < SUBSIDY_HALVING_INTERVAL,
    ;
}

/// **Issuance is cumulative.** The first unit of the next height follows the last unit of this
/// one.
pub proof fn lemma_starting_sat_step(height: nat)
    ensures
        starting_sat_at(height + 1) == starting_sat_at(height) + subsidy_at(height),
{
}

/// No height mints more than the initial issuance, which fits in 33 bits.
pub proof fn lemma_subsidy_bound(height: nat)
    ensures
        subsidy_at(height) <= INITIAL_SUBSIDY,
        INITIAL_SUBSIDY < 0x2_0000_0000,
{
    lemma_halved(height / (SUBSIDY_HALVING_INTERVAL as nat));
}

} // verus!
