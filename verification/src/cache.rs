//! A table from stored output references to stored range lists, held in memory.

use crate::entry::OutPointValue;
use vstd::prelude::*;

verus! {

/// Buckets of a table made by [`RangeTable::new`].
pub const DEFAULT_BUCKETS: usize = 4096;

/// One output reference with the range list it owns, both in stored form.
#[derive(Clone, Debug)]
pub struct Entry {
    pub outpoint: OutPointValue,
    pub ranges: Vec<u8>,
}

/// A finite map from output references to range lists. Entries are spread over buckets by the
/// first bytes of the reference, which are the first bytes of a hash; a table that gets
/// crowded takes twice as many buckets.
#[derive(Debug)]
pub struct RangeTable {
    buckets: Vec<Vec<Entry>>,
    /// About how many entries the buckets hold: what decides when the table takes more
    /// buckets, and nothing else.
    filled: usize,
}

/// The bucket, out of `count`, that holds `key`.
spec fn bucket_of(key: Seq<u8>, count: int) -> int {
    (key[0] + 0x100 * key[1] + 0x1_0000 * key[2] + 0x100_0000 * key[3]) % count
}

/// Whether some entry of `entries` has the reference `key`.
pub open spec fn holds(entries: Seq<Entry>, key: Seq<u8>) -> bool {
    exists|at: int| 0 <= at < entries.len() && #[trigger] entries[at].outpoint@ == key
}

/// Where `key` stands in `entries`, if it stands there.
pub open spec fn place(entries: Seq<Entry>, key: Seq<u8>) -> int {
    choose|at: int| 0 <= at < entries.len() && #[trigger] entries[at].outpoint@ == key
}

/// No output reference stands twice in `entries`.
pub open spec fn distinct(entries: Seq<Entry>) -> bool {
    forall|a: int, b: int|
        0 <= a < b < entries.len() ==> #[trigger] entries[a].outpoint@
            != #[trigger] entries[b].outpoint@
}

/// The map that a list of entries stands for: each reference in it, with the range list of the
/// entry that has it.
pub open spec fn entries_map(entries: Seq<Entry>) -> Map<Seq<u8>, Seq<u8>> {
    Map::new(
        |key: Seq<u8>| holds(entries, key),
        |key: Seq<u8>| entries[place(entries, key)].ranges@,
    )
}

/// Every bucket is free of repeats and holds only what belongs in it.
spec fn sorted_out(buckets: Seq<Vec<Entry>>) -> bool {
    &&& forall|b: int| 0 <= b < buckets.len() ==> distinct(#[trigger] buckets[b]@)
    &&& forall|b: int, at: int|
        0 <= b < buckets.len() && 0 <= at < buckets[b].len() ==> bucket_of(
            #[trigger] buckets[b][at].outpoint@,
            buckets.len() as int,
        ) == b
}

/// The map that the buckets stand for together, taking only the buckets from `from` on.
spec fn buckets_map(buckets: Seq<Vec<Entry>>, from: int) -> Map<Seq<u8>, Seq<u8>> {
    Map::new(
        |key: Seq<u8>|
            buckets.len() > 0 && bucket_of(key, buckets.len() as int) >= from && holds(
                buckets[bucket_of(key, buckets.len() as int)]@,
                key,
            ),
        |key: Seq<u8>| entries_map(buckets[bucket_of(key, buckets.len() as int)]@)[key],
    )
}

fn same_outpoint(left: &OutPointValue, right: &OutPointValue) -> (same: bool)
    ensures
        same == (left@ == right@),
{
    let mut at: usize = 0;
    while at < 36
        invariant
            at <= 36,
            forall|k: int| 0 <= k < at ==> left@[k] == right@[k],
        decreases 36 - at,
    {
        if left[at] != right[at] {
            return false;
        }
        at = at + 1;
    }
    assert(left@ =~= right@);
    true
}

fn position(bucket: &Vec<Entry>, key: &OutPointValue) -> (found: Option<usize>)
    ensures
        match found {
            Some(at) => at < bucket.len() && bucket[at as int].outpoint@ == key@,
            None => !holds(bucket@, key@),
        },
{
    let mut at: usize = 0;
    while at < bucket.len()
        invariant
            at <= bucket.len(),
            forall|k: int| 0 <= k < at ==> bucket[k].outpoint@ != key@,
        decreases bucket.len() - at,
    {
        if same_outpoint(&bucket[at].outpoint, key) {
            return Some(at);
        }
        at = at + 1;
    }
    None
}

fn bucket_index(key: &OutPointValue, count: usize) -> (index: usize)
    requires
        count > 0,
    ensures
        index == bucket_of(key@, count as int),
        index < count,
{
    let mixed: u64 = key[0] as u64 + 0x100 * (key[1] as u64) + 0x1_0000 * (key[2] as u64)
        + 0x100_0000 * (key[3] as u64);
    (mixed % (count as u64)) as usize
}

/// Puts `key` with `ranges` into the bucket that holds it, in place of what `key` had there.
/// Says whether `key` is new.
fn put(buckets: &mut Vec<Vec<Entry>>, key: OutPointValue, ranges: Vec<u8>) -> (added: bool)
    requires
        old(buckets).len() > 0,
        sorted_out(old(buckets)@),
    ensures
        final(buckets).len() == old(buckets).len(),
        sorted_out(final(buckets)@),
        buckets_map(final(buckets)@, 0) == buckets_map(old(buckets)@, 0).insert(key@, ranges@),
        added == !buckets_map(old(buckets)@, 0).contains_key(key@),
{
    let ghost before = buckets@;
    let index = bucket_index(&key, buckets.len());
    let added = match position(&buckets[index], &key) {
        Some(at) => {
            proof {
                lemma_place(before[index as int]@, key@, at as int);
                lemma_bucket_update(before[index as int]@, at as int, key, ranges);
            }
            buckets[index][at] = Entry { outpoint: key, ranges };
            false
        },
        None => {
            proof {
                lemma_bucket_push(before[index as int]@, Entry { outpoint: key, ranges });
            }
            buckets[index].push(Entry { outpoint: key, ranges });
            true
        },
    };
    proof {
        lemma_bucket_replaced(before, buckets@, index as int);
        assert(buckets_map(buckets@, 0) =~= buckets_map(before, 0).insert(key@, ranges@));
    }
    added
}

/// Empties the buckets into one list.
fn drain(buckets: Vec<Vec<Entry>>) -> (entries: Vec<Entry>)
    requires
        sorted_out(buckets@),
    ensures
        distinct(entries@),
        entries_map(entries@) == buckets_map(buckets@, 0),
{
    let mut buckets = buckets;
    let ghost all = buckets@;
    let mut entries: Vec<Entry> = Vec::new();
    assert(entries_map(entries@) =~= buckets_map(all, all.len() as int));
    while buckets.len() > 0
        invariant
            sorted_out(all),
            buckets@ == all.take(buckets.len() as int),
            buckets.len() <= all.len(),
            distinct(entries@),
            entries_map(entries@) == buckets_map(all, buckets.len() as int),
        decreases buckets.len(),
    {
        let ghost from = buckets.len() as int;
        let mut bucket = buckets.pop().unwrap();
        proof {
            assert(bucket == all[from - 1]);
            lemma_drained(all, from, entries@);
        }
        entries.append(&mut bucket);
        assert(buckets@ =~= all.take(buckets.len() as int));
    }
    entries
}

/// The buckets that a table asked to start with `count` buckets starts with: it has at least
/// one.
pub open spec fn started_with(count: usize) -> nat {
    if count == 0 {
        1
    } else {
        count as nat
    }
}

/// `count` empty buckets, or one where `count` is zero.
fn empty_buckets(count: usize) -> (buckets: Vec<Vec<Entry>>)
    ensures
        buckets.len() == started_with(count),
        sorted_out(buckets@),
        buckets_map(buckets@, 0) == Map::<Seq<u8>, Seq<u8>>::empty(),
{
    let mut buckets: Vec<Vec<Entry>> = Vec::new();
    buckets.push(Vec::new());
    while buckets.len() < count
        invariant
            0 < buckets.len(),
            buckets.len() == 1 || buckets.len() <= count,
            forall|b: int| 0 <= b < buckets.len() ==> (#[trigger] buckets[b]).len() == 0,
        decreases count - buckets.len(),
    {
        buckets.push(Vec::new());
    }
    assert(buckets_map(buckets@, 0) =~= Map::<Seq<u8>, Seq<u8>>::empty());
    buckets
}

/// Spreads the entries of the buckets over twice as many buckets.
fn doubled(buckets: Vec<Vec<Entry>>) -> (wider: Vec<Vec<Entry>>)
    requires
        0 < buckets.len() <= usize::MAX / 2,
        sorted_out(buckets@),
    ensures
        wider.len() == 2 * buckets.len(),
        sorted_out(wider@),
        buckets_map(wider@, 0) == buckets_map(buckets@, 0),
{
    let count: usize = 2 * buckets.len();
    let mut wider = empty_buckets(count);
    let mut entries = drain(buckets);
    let ghost all = entries@;
    assert(all.skip(all.len() as int) =~= Seq::<Entry>::empty());
    assert(entries_map(Seq::<Entry>::empty()) =~= Map::<Seq<u8>, Seq<u8>>::empty());
    while entries.len() > 0
        invariant
            distinct(all),
            entries@ == all.take(entries.len() as int),
            entries.len() <= all.len(),
            wider.len() == count > 0,
            sorted_out(wider@),
            buckets_map(wider@, 0) == entries_map(all.skip(entries.len() as int)),
        decreases entries.len(),
    {
        let ghost from = entries.len() as int;
        let Entry { outpoint, ranges } = entries.pop().unwrap();
        proof {
            lemma_entry_in_front(all, from - 1);
            assert(entries@ =~= all.take(from - 1));
        }
        put(&mut wider, outpoint, ranges);
    }
    assert(all.skip(0) =~= all);
    wider
}

/// Entries in one bucket, on average, beyond which a table takes twice as many buckets.
const CROWDED: usize = 8;

impl RangeTable {
    #[verifier::type_invariant]
    spec fn well_formed(self) -> bool {
        sorted_out(self.buckets@)
    }

    /// The map that the table stands for.
    pub closed spec fn view(&self) -> Map<Seq<u8>, Seq<u8>> {
        buckets_map(self.buckets@, 0)
    }

    /// Over how many buckets the table spreads its entries.
    pub closed spec fn bucket_count(&self) -> nat {
        self.buckets@.len()
    }

    /// An empty table that starts with [`DEFAULT_BUCKETS`] buckets.
    pub fn new() -> (table: RangeTable)
        ensures
            table@ == Map::<Seq<u8>, Seq<u8>>::empty(),
            table.bucket_count() == DEFAULT_BUCKETS,
    {
        RangeTable::with_buckets(DEFAULT_BUCKETS)
    }

    /// An empty table that starts with `count` buckets, or with one where `count` is zero.
    pub fn with_buckets(count: usize) -> (table: RangeTable)
        ensures
            table@ == Map::<Seq<u8>, Seq<u8>>::empty(),
            table.bucket_count() == started_with(count),
    {
        RangeTable { buckets: empty_buckets(count), filled: 0 }
    }

    /// The range list that `key` owns, if the table has one.
    pub fn get(&self, key: &OutPointValue) -> (found: Option<&Vec<u8>>)
        ensures
            match found {
                Some(ranges) => self@.contains_key(key@) && self@[key@] == ranges@,
                None => !self@.contains_key(key@),
            },
    {
        proof {
            use_type_invariant(self);
        }
        if self.buckets.len() == 0 {
            return None;
        }
        let index = bucket_index(key, self.buckets.len());
        let bucket = &self.buckets[index];
        match position(bucket, key) {
            Some(at) => {
                proof {
                    lemma_place(bucket@, key@, at as int);
                }
                Some(&bucket[at].ranges)
            },
            None => None,
        }
    }

    /// Gives `key` the range list `ranges`, in place of the one it had, if any.
    pub fn insert(&mut self, key: OutPointValue, ranges: Vec<u8>)
        ensures
            final(self)@ == old(self)@.insert(key@, ranges@),
    {
        proof {
            use_type_invariant(&*self);
        }
        let mut buckets: Vec<Vec<Entry>> = Vec::new();
        std::mem::swap(&mut buckets, &mut self.buckets);
        if buckets.len() == 0 {
            buckets = empty_buckets(1);
            assert(old(self)@ =~= Map::<Seq<u8>, Seq<u8>>::empty());
        }
        if put(&mut buckets, key, ranges) && self.filled < usize::MAX {
            self.filled = self.filled + 1;
        }
        if self.filled / CROWDED >= buckets.len() && buckets.len() <= usize::MAX / 2 {
            buckets = doubled(buckets);
        }
        self.buckets = buckets;
    }

    /// Takes `key` out of the table, and hands back the range list it owned, if any.
    pub fn remove(&mut self, key: &OutPointValue) -> (removed: Option<Vec<u8>>)
        ensures
            match removed {
                Some(ranges) => old(self)@.contains_key(key@) && ranges@ == old(self)@[key@],
                None => !old(self)@.contains_key(key@),
            },
            final(self)@ == old(self)@.remove(key@),
    {
        proof {
            use_type_invariant(&*self);
        }
        if self.buckets.len() == 0 {
            assert(self@ =~= old(self)@.remove(key@));
            return None;
        }
        let mut buckets: Vec<Vec<Entry>> = Vec::new();
        std::mem::swap(&mut buckets, &mut self.buckets);
        let ghost before = buckets@;
        let index = bucket_index(key, buckets.len());
        let removed = match position(&buckets[index], key) {
            Some(at) => {
                proof {
                    lemma_place(before[index as int]@, key@, at as int);
                    lemma_bucket_swap_remove(before[index as int]@, at as int);
                }
                let entry = buckets[index].swap_remove(at);
                if self.filled > 0 {
                    self.filled = self.filled - 1;
                }
                Some(entry.ranges)
            },
            None => None,
        };
        proof {
            lemma_bucket_replaced(before, buckets@, index as int);
            assert(buckets_map(buckets@, 0) =~= buckets_map(before, 0).remove(key@));
        }
        self.buckets = buckets;
        removed
    }

    /// Hands out every entry of the table, each reference once, in no stated order.
    pub fn into_entries(self) -> (entries: Vec<Entry>)
        ensures
            distinct(entries@),
            entries_map(entries@) == self@,
    {
        proof {
            use_type_invariant(&self);
        }
        drain(self.buckets)
    }
}

/// In a list without repeats, the entries from one place on stand for the map of the entries
/// behind that place, with the entry at that place put in.
proof fn lemma_entry_in_front(entries: Seq<Entry>, at: int)
    requires
        distinct(entries),
        0 <= at < entries.len(),
    ensures
        entries_map(entries.skip(at)) == entries_map(entries.skip(at + 1)).insert(
            entries[at].outpoint@,
            entries[at].ranges@,
        ),
{
    let from = entries.skip(at);
    let behind = entries.skip(at + 1);
    let expected = entries_map(behind).insert(entries[at].outpoint@, entries[at].ranges@);
    assert(distinct(from)) by {
        assert forall|a: int, b: int| 0 <= a < b < from.len() implies #[trigger] from[a].outpoint@
            != #[trigger] from[b].outpoint@ by {
            assert(entries[at + a].outpoint@ != entries[at + b].outpoint@);
        }
    }
    assert(distinct(behind)) by {
        assert forall|a: int, b: int| 0 <= a < b < behind.len() implies #[trigger] behind[a].outpoint@
            != #[trigger] behind[b].outpoint@ by {
            assert(entries[at + 1 + a].outpoint@ != entries[at + 1 + b].outpoint@);
        }
    }
    assert forall|key: Seq<u8>| #[trigger] entries_map(from).contains_key(key) implies (
    expected.contains_key(key) && expected[key] == entries_map(from)[key]) by {
        let found = place(from, key);
        lemma_place(from, key, found);
        if found > 0 {
            assert(behind[found - 1] == from[found]);
            lemma_place(behind, key, found - 1);
            assert(entries[at].outpoint@ != entries[at + found].outpoint@);
        }
    }
    assert forall|key: Seq<u8>| #[trigger] expected.contains_key(key) implies entries_map(
        from,
    ).contains_key(key) by {
        if key == entries[at].outpoint@ {
            assert(from[0].outpoint@ == key);
        } else {
            let found = place(behind, key);
            assert(from[found + 1].outpoint@ == key);
        }
    }
    assert(entries_map(from) =~= expected);
}

/// In entries without repeats, a reference stands where it was found.
proof fn lemma_place(entries: Seq<Entry>, key: Seq<u8>, at: int)
    requires
        distinct(entries),
        0 <= at < entries.len(),
        entries[at].outpoint@ == key,
    ensures
        holds(entries, key),
        place(entries, key) == at,
        entries_map(entries).contains_key(key),
        entries_map(entries)[key] == entries[at].ranges@,
{
    let chosen = place(entries, key);
    if chosen < at {
        assert(entries[chosen].outpoint@ != entries[at].outpoint@);
    } else if at < chosen {
        assert(entries[at].outpoint@ != entries[chosen].outpoint@);
    }
}

/// A new reference at the end of a bucket is one more key of its map.
proof fn lemma_bucket_push(bucket: Seq<Entry>, entry: Entry)
    requires
        distinct(bucket),
        !holds(bucket, entry.outpoint@),
    ensures
        distinct(bucket.push(entry)),
        entries_map(bucket.push(entry)) == entries_map(bucket).insert(
            entry.outpoint@,
            entry.ranges@,
        ),
{
    let after = bucket.push(entry);
    assert(distinct(after)) by {
        assert forall|a: int, b: int| 0 <= a < b < after.len() implies #[trigger] after[a].outpoint@
            != #[trigger] after[b].outpoint@ by {
            if b == bucket.len() {
                assert(bucket[a].outpoint@ != entry.outpoint@);
            }
        }
    }
    let expected = entries_map(bucket).insert(entry.outpoint@, entry.ranges@);
    assert forall|key: Seq<u8>| #[trigger] entries_map(after).contains_key(key) implies (
    expected.contains_key(key) && expected[key] == entries_map(after)[key]) by {
        let at = place(after, key);
        lemma_place(after, key, at);
        if at < bucket.len() {
            assert(bucket[at].outpoint@ == key);
            lemma_place(bucket, key, at);
        }
    }
    assert forall|key: Seq<u8>| #[trigger] expected.contains_key(key) implies entries_map(
        after,
    ).contains_key(key) by {
        if key == entry.outpoint@ {
            lemma_place(after, key, bucket.len() as int);
        } else {
            let at = place(bucket, key);
            assert(after[at].outpoint@ == key);
        }
    }
    assert(entries_map(after) =~= expected);
}

/// A new range list for a reference of a bucket is a new value for its key.
proof fn lemma_bucket_update(bucket: Seq<Entry>, at: int, key: OutPointValue, ranges: Vec<u8>)
    requires
        distinct(bucket),
        0 <= at < bucket.len(),
        bucket[at].outpoint@ == key@,
    ensures
        distinct(bucket.update(at, Entry { outpoint: key, ranges })),
        entries_map(bucket.update(at, Entry { outpoint: key, ranges })) == entries_map(
            bucket,
        ).insert(key@, ranges@),
{
    let after = bucket.update(at, Entry { outpoint: key, ranges });
    assert(distinct(after)) by {
        assert forall|a: int, b: int| 0 <= a < b < after.len() implies #[trigger] after[a].outpoint@
            != #[trigger] after[b].outpoint@ by {
            assert(bucket[a].outpoint@ != bucket[b].outpoint@);
        }
    }
    let expected = entries_map(bucket).insert(key@, ranges@);
    assert forall|other: Seq<u8>| #[trigger] entries_map(after).contains_key(other) implies (
    expected.contains_key(other) && expected[other] == entries_map(after)[other]) by {
        let found = place(after, other);
        lemma_place(after, other, found);
        assert(bucket[found].outpoint@ == other);
        lemma_place(bucket, other, found);
    }
    assert forall|other: Seq<u8>| #[trigger] expected.contains_key(other) implies entries_map(
        after,
    ).contains_key(other) by {
        if other == key@ {
            assert(after[at].outpoint@ == other);
        } else {
            let found = place(bucket, other);
            assert(after[found].outpoint@ == other);
        }
    }
    assert(entries_map(after) =~= expected);
}

/// Filling a reference's place with the last entry takes its key out of the bucket's map.
proof fn lemma_bucket_swap_remove(bucket: Seq<Entry>, at: int)
    requires
        distinct(bucket),
        0 <= at < bucket.len(),
    ensures
        distinct(bucket.update(at, bucket.last()).drop_last()),
        entries_map(bucket.update(at, bucket.last()).drop_last()) == entries_map(bucket).remove(
            bucket[at].outpoint@,
        ),
{
    let after = bucket.update(at, bucket.last()).drop_last();
    let last = bucket.len() - 1;
    let origin = |k: int| if k == at { last } else { k };
    assert(forall|k: int| 0 <= k < after.len() ==> after[k] == bucket[origin(k)]);
    assert(distinct(after)) by {
        assert forall|a: int, b: int| 0 <= a < b < after.len() implies #[trigger] after[a].outpoint@
            != #[trigger] after[b].outpoint@ by {
            let (x, y) = (origin(a), origin(b));
            if x < y {
                assert(bucket[x].outpoint@ != bucket[y].outpoint@);
            } else {
                assert(bucket[y].outpoint@ != bucket[x].outpoint@);
            }
        }
    }
    let expected = entries_map(bucket).remove(bucket[at].outpoint@);
    assert forall|key: Seq<u8>| #[trigger] entries_map(after).contains_key(key) implies (
    expected.contains_key(key) && expected[key] == entries_map(after)[key]) by {
        let found = place(after, key);
        lemma_place(after, key, found);
        lemma_place(bucket, key, origin(found));
        if origin(found) < at {
            assert(bucket[origin(found)].outpoint@ != bucket[at].outpoint@);
        } else {
            assert(bucket[at].outpoint@ != bucket[origin(found)].outpoint@);
        }
    }
    assert forall|key: Seq<u8>| #[trigger] expected.contains_key(key) implies entries_map(
        after,
    ).contains_key(key) by {
        let found = place(bucket, key);
        if found == last {
            assert(after[at].outpoint@ == key);
        } else {
            assert(after[found].outpoint@ == key);
        }
    }
    assert(entries_map(after) =~= expected);
}

/// Where one bucket changed and kept to its own references, the table's map changed as the
/// bucket's map did, and only there.
proof fn lemma_bucket_replaced(before: Seq<Vec<Entry>>, after: Seq<Vec<Entry>>, index: int)
    requires
        sorted_out(before),
        0 <= index < before.len(),
        after.len() == before.len(),
        forall|b: int| 0 <= b < before.len() && b != index ==> after[b] == before[b],
        distinct(after[index]@),
        forall|key: Seq<u8>| #[trigger]
            entries_map(after[index]@).contains_key(key) && !entries_map(
                before[index]@,
            ).contains_key(key) ==> bucket_of(key, before.len() as int) == index,
    ensures
        sorted_out(after),
        forall|key: Seq<u8>|
            bucket_of(key, before.len() as int) != index ==> (#[trigger] buckets_map(
                after,
                0,
            ).contains_key(key) <==> buckets_map(before, 0).contains_key(key)),
        forall|key: Seq<u8>|
            bucket_of(key, before.len() as int) != index && buckets_map(before, 0).contains_key(
                key,
            ) ==> #[trigger] buckets_map(after, 0)[key] == buckets_map(before, 0)[key],
        forall|key: Seq<u8>|
            bucket_of(key, before.len() as int) == index ==> (#[trigger] buckets_map(
                after,
                0,
            ).contains_key(key) <==> entries_map(after[index]@).contains_key(key)),
        forall|key: Seq<u8>|
            bucket_of(key, before.len() as int) == index && entries_map(
                after[index]@,
            ).contains_key(key) ==> #[trigger] buckets_map(after, 0)[key] == entries_map(
                after[index]@,
            )[key],
        forall|key: Seq<u8>|
            bucket_of(key, before.len() as int) == index ==> (#[trigger] buckets_map(
                before,
                0,
            ).contains_key(key) <==> entries_map(before[index]@).contains_key(key)),
        forall|key: Seq<u8>|
            bucket_of(key, before.len() as int) == index && entries_map(
                before[index]@,
            ).contains_key(key) ==> #[trigger] buckets_map(before, 0)[key] == entries_map(
                before[index]@,
            )[key],
{
    assert forall|b: int, at: int| 0 <= b < after.len() && 0 <= at < after[b].len() implies bucket_of(
        #[trigger] after[b][at].outpoint@,
        after.len() as int,
    ) == b by {
        if b == index {
            let key = after[b][at].outpoint@;
            lemma_place(after[index]@, key, at);
            if entries_map(before[index]@).contains_key(key) {
                let found = place(before[index]@, key);
                assert(bucket_of(before[index][found].outpoint@, before.len() as int) == index);
            }
        } else {
            assert(after[b][at] == before[b][at]);
        }
    }
}

/// One more drained bucket, put behind the entries drained before it, makes a list without
/// repeats that stands for the map of all drained buckets.
proof fn lemma_drained(all: Seq<Vec<Entry>>, from: int, entries: Seq<Entry>)
    requires
        sorted_out(all),
        0 < from <= all.len(),
        distinct(entries),
        entries_map(entries) == buckets_map(all, from),
    ensures
        distinct(entries + all[from - 1]@),
        entries_map(entries + all[from - 1]@) == buckets_map(all, from - 1),
{
    let bucket = all[from - 1]@;
    let count = all.len() as int;
    let joined = entries + bucket;
    assert forall|at: int| 0 <= at < entries.len() implies bucket_of(
        #[trigger] entries[at].outpoint@,
        count,
    ) >= from by {
        lemma_place(entries, entries[at].outpoint@, at);
        assert(buckets_map(all, from).contains_key(entries[at].outpoint@));
    }
    assert forall|at: int| 0 <= at < bucket.len() implies bucket_of(
        #[trigger] bucket[at].outpoint@,
        count,
    ) == from - 1 by {
        assert(bucket[at] == all[from - 1][at]);
    }
    assert(distinct(joined)) by {
        assert forall|a: int, b: int| 0 <= a < b < joined.len() implies #[trigger] joined[a].outpoint@
            != #[trigger] joined[b].outpoint@ by {
            if b < entries.len() {
                assert(entries[a].outpoint@ != entries[b].outpoint@);
            } else if a >= entries.len() {
                assert(bucket[a - entries.len()].outpoint@ != bucket[b - entries.len()].outpoint@);
            } else {
                assert(bucket_of(entries[a].outpoint@, count) >= from);
                assert(bucket_of(bucket[b - entries.len()].outpoint@, count) == from - 1);
            }
        }
    }
    let expected = buckets_map(all, from - 1);
    assert forall|key: Seq<u8>| #[trigger] entries_map(joined).contains_key(key) implies (
    expected.contains_key(key) && expected[key] == entries_map(joined)[key]) by {
        let at = place(joined, key);
        lemma_place(joined, key, at);
        if at < entries.len() {
            lemma_place(entries, key, at);
            assert(buckets_map(all, from).contains_key(key));
            assert(buckets_map(all, from)[key] == entries[at].ranges@);
        } else {
            lemma_place(bucket, key, at - entries.len());
        }
    }
    assert forall|key: Seq<u8>| #[trigger] expected.contains_key(key) implies entries_map(
        joined,
    ).contains_key(key) by {
        if bucket_of(key, count) >= from {
            assert(buckets_map(all, from).contains_key(key));
            let at = place(entries, key);
            assert(joined[at].outpoint@ == key);
        } else {
            let at = place(bucket, key);
            assert(joined[entries.len() + at].outpoint@ == key);
        }
    }
    assert(entries_map(joined) =~= expected);
}

} // verus!
