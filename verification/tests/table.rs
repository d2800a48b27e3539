use sat_indexer::cache::{Entry, RangeTable};
use sat_indexer::entry::OutPointValue;

fn key(seed: u32) -> OutPointValue {
    let mut key = [0u8; 36];
    let mut state = seed.wrapping_mul(2_654_435_761);
    for byte in key.iter_mut() {
        state = state.wrapping_mul(1_664_525).wrapping_add(1_013_904_223);
        *byte = (state >> 24) as u8;
    }
    key
}

#[test]
fn new_table_holds_nothing() {
    let table = RangeTable::new();
    assert_eq!(table.get(&key(1)), None);
    assert!(table.into_entries().is_empty());
}

#[test]
fn table_gives_back_what_was_put_in() {
    let mut table = RangeTable::new();
    table.insert(key(1), vec![1, 2, 3]);
    table.insert(key(2), vec![]);
    assert_eq!(table.get(&key(1)), Some(&vec![1, 2, 3]));
    assert_eq!(table.get(&key(2)), Some(&vec![]));
    assert_eq!(table.get(&key(3)), None);
}

#[test]
fn second_insert_replaces_the_first() {
    let mut table = RangeTable::new();
    table.insert(key(1), vec![1]);
    table.insert(key(1), vec![2, 2]);
    assert_eq!(table.get(&key(1)), Some(&vec![2, 2]));
    assert_eq!(table.into_entries().len(), 1);
}

#[test]
fn remove_hands_back_and_forgets() {
    let mut table = RangeTable::new();
    table.insert(key(1), vec![1]);
    table.insert(key(2), vec![2]);
    assert_eq!(table.remove(&key(1)), Some(vec![1]));
    assert_eq!(table.remove(&key(1)), None);
    assert_eq!(table.get(&key(1)), None);
    assert_eq!(table.get(&key(2)), Some(&vec![2]));
    assert_eq!(table.remove(&key(3)), None);
}

#[test]
fn keys_that_differ_in_one_byte_are_kept_apart() {
    let mut table = RangeTable::with_buckets(1);
    let first = key(5);
    for at in 0..36 {
        let mut other = first;
        other[at] ^= 1;
        table.insert(other, vec![at as u8]);
    }
    table.insert(first, vec![255]);
    assert_eq!(table.get(&first), Some(&vec![255]));
    for at in 0..36 {
        let mut other = first;
        other[at] ^= 1;
        assert_eq!(table.get(&other), Some(&vec![at as u8]));
    }
}

#[test]
fn table_with_few_buckets_holds_many_keys() {
    for buckets in [0usize, 1, 2, 7, 64] {
        let mut table = RangeTable::with_buckets(buckets);
        for seed in 0..500u32 {
            table.insert(key(seed), seed.to_le_bytes().to_vec());
        }
        for seed in (0..500u32).step_by(3) {
            assert_eq!(table.remove(&key(seed)), Some(seed.to_le_bytes().to_vec()));
        }
        for seed in 0..500u32 {
            let expected = if seed % 3 == 0 { None } else { Some(seed.to_le_bytes().to_vec()) };
            assert_eq!(table.get(&key(seed)).cloned(), expected);
        }
    }
}

#[test]
fn entries_come_out_once_each() {
    let mut table = RangeTable::with_buckets(16);
    for seed in 0..200u32 {
        table.insert(key(seed), vec![0]);
    }
    for seed in 0..200u32 {
        table.insert(key(seed), seed.to_le_bytes().to_vec());
    }
    for seed in 100..150u32 {
        table.remove(&key(seed));
    }
    let mut entries: Vec<(OutPointValue, Vec<u8>)> = table
        .into_entries()
        .into_iter()
        .map(|Entry { outpoint, ranges }| (outpoint, ranges))
        .collect();
    entries.sort();
    let mut expected: Vec<(OutPointValue, Vec<u8>)> = (0..200u32)
        .filter(|seed| !(100..150).contains(seed))
        .map(|seed| (key(seed), seed.to_le_bytes().to_vec()))
        .collect();
    expected.sort();
    assert_eq!(entries, expected);
}

#[test]
fn crowded_table_keeps_every_entry() {
    let mut table = RangeTable::with_buckets(1);
    for seed in 0..100_000u32 {
        table.insert(key(seed), seed.to_le_bytes().to_vec());
    }
    for seed in (0..100_000u32).step_by(2) {
        assert_eq!(table.remove(&key(seed)), Some(seed.to_le_bytes().to_vec()));
    }
    for seed in 0..100_000u32 {
        let expected = if seed % 2 == 0 { None } else { Some(seed.to_le_bytes().to_vec()) };
        assert_eq!(table.get(&key(seed)).cloned(), expected);
    }
    assert_eq!(table.into_entries().len(), 50_000);
}
