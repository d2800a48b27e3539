use sat_indexer::storage::get_next_height;
use sat_indexer::subsidy::{starting_sat, subsidy, COIN_VALUE, SUBSIDY_HALVING_INTERVAL, SUPPLY_BOUND};

#[test]
fn subsidy_starts_at_fifty_coins() {
    assert_eq!(subsidy(0), 50 * COIN_VALUE);
    assert_eq!(subsidy(1), 5_000_000_000);
    assert_eq!(subsidy(209_999), 5_000_000_000);
}

#[test]
fn subsidy_halves_at_each_interval() {
    assert_eq!(subsidy(210_000), 2_500_000_000);
    assert_eq!(subsidy(419_999), 2_500_000_000);
    assert_eq!(subsidy(420_000), 1_250_000_000);
    assert_eq!(subsidy(10 * SUBSIDY_HALVING_INTERVAL), 4_882_812);
    assert_eq!(subsidy(32 * SUBSIDY_HALVING_INTERVAL), 1);
}

#[test]
fn subsidy_ends_and_stays_at_zero() {
    assert_eq!(subsidy(33 * SUBSIDY_HALVING_INTERVAL - 1), 1);
    assert_eq!(subsidy(33 * SUBSIDY_HALVING_INTERVAL), 0);
    assert_eq!(subsidy(63 * SUBSIDY_HALVING_INTERVAL), 0);
    assert_eq!(subsidy(64 * SUBSIDY_HALVING_INTERVAL), 0);
    assert_eq!(subsidy(65 * SUBSIDY_HALVING_INTERVAL + 17), 0);
    assert_eq!(subsidy(u64::MAX), 0);
}

#[test]
fn starting_sat_of_the_first_heights() {
    assert_eq!(starting_sat(0), 0);
    assert_eq!(starting_sat(1), 5_000_000_000);
    assert_eq!(starting_sat(2), 10_000_000_000);
    assert_eq!(starting_sat(209_999), 1_049_995_000_000_000);
}

#[test]
fn starting_sat_across_halvings() {
    assert_eq!(starting_sat(210_000), 1_050_000_000_000_000);
    assert_eq!(starting_sat(210_001), 1_050_002_500_000_000);
    assert_eq!(starting_sat(420_000), 1_575_000_000_000_000);
    assert_eq!(starting_sat(420_005), 1_575_006_250_000_000);
    assert_eq!(starting_sat(10 * SUBSIDY_HALVING_INTERVAL), 2_097_949_218_750_000);
}

#[test]
fn starting_sat_after_the_last_unit() {
    assert_eq!(starting_sat(33 * SUBSIDY_HALVING_INTERVAL - 1), 2_099_999_997_689_999);
    assert_eq!(starting_sat(33 * SUBSIDY_HALVING_INTERVAL), 2_099_999_997_690_000);
    assert_eq!(starting_sat(40 * SUBSIDY_HALVING_INTERVAL + 3), 2_099_999_997_690_000);
    assert_eq!(starting_sat(u64::MAX), 2_099_999_997_690_000);
    assert!(starting_sat(u64::MAX) <= SUPPLY_BOUND);
}

#[test]
fn starting_sat_is_the_sum_of_the_subsidies_below() {
    let mut sum: u64 = 0;
    for height in 0..1_000u64 {
        assert_eq!(starting_sat(height), sum);
        sum += subsidy(height);
    }
    let mut sum = starting_sat(209_990);
    for height in 209_990..210_010u64 {
        assert_eq!(starting_sat(height), sum);
        sum += subsidy(height);
    }
    let last = 33 * SUBSIDY_HALVING_INTERVAL;
    let mut sum = starting_sat(last - 5);
    for height in last - 5..last + 5 {
        assert_eq!(starting_sat(height), sum);
        sum += subsidy(height);
    }
}

#[test]
fn each_height_starts_where_the_last_one_ended() {
    for height in [0u64, 1, 209_999, 210_000, 2_413_341, 6_929_999, 6_930_000, 1 << 40] {
        assert_eq!(starting_sat(height + 1), starting_sat(height) + subsidy(height));
    }
}

#[test]
fn run_starts_after_the_last_committed_height() {
    assert_eq!(get_next_height(None), Some(0));
    assert_eq!(get_next_height(Some(0)), Some(1));
    assert_eq!(get_next_height(Some(4_999)), Some(5_000));
    assert_eq!(get_next_height(Some(u64::MAX - 1)), Some(u64::MAX));
    assert_eq!(get_next_height(Some(u64::MAX)), None);
}
