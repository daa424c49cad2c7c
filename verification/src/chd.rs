//! Compress-hash-displace: a perfect hash of a fixed set of keys.
//!
//! The keys are spread over buckets by one of their hash values. Each bucket
//! gets a displacement pair that sends all of its keys to slots of their own.
//! The buckets are served largest first, and every bucket takes the first
//! pair, in the order `(0, 0), (0, 1), ..`, that fits what is already placed.

use crate::encoding::positions;
use crate::hashing::{displace_hashes, hash_key, Hashes, phf_hash, slot_of};
use crate::layout::bucket_count;
use vstd::prelude::*;
use vstd::relations::{sorted_by, total_ordering};
use vstd::seq_lib::lemma_sorted_unique;

verus! {

/// The target number of keys per bucket.
pub const DEFAULT_LAMBDA: usize = 5;

/// A perfect hash of a list of keys.
pub struct HashState {
    /// The seed under which the keys were hashed.
    pub key: u32,
    /// The displacement pair of each bucket.
    pub disps: Vec<(u32, u32)>,
    /// For each slot, the position in the list of the key that hashes to it.
    pub map: Vec<usize>,
}

/// What the construction yields: the displacement pair of each bucket and,
/// for each slot, the key placed there.
pub struct ChdTable {
    pub disps: Seq<(u32, u32)>,
    pub map: Seq<int>,
}

/// The bucket of a key with hash values `h`, out of `buckets`.
pub open spec fn bucket_of(h: Hashes, buckets: int) -> int {
    (h.g as int) % buckets
}

/// The keys among the first `t` that fall into `bucket`, in their order.
pub open spec fn members_first(hashes: Seq<Hashes>, bucket: int, t: int) -> Seq<int>
    decreases t,
{
    if t <= 0 {
        Seq::empty()
    } else {
        let before = members_first(hashes, bucket, t - 1);
        if bucket_of(hashes[t - 1], bucket_count(hashes.len() as int)) == bucket {
            before.push(t - 1)
        } else {
            before
        }
    }
}

/// The keys that fall into `bucket`, in their order.
pub open spec fn members(hashes: Seq<Hashes>, bucket: int) -> Seq<int> {
    members_first(hashes, bucket, hashes.len() as int)
}

/// The order of two pairs of numbers: by the first, then by the second.
pub open spec fn pair_le(a: (int, int), b: (int, int)) -> bool {
    a.0 < b.0 || (a.0 == b.0 && a.1 <= b.1)
}

/// Each bucket with the number of slots that its keys leave over, which grows
/// as the bucket shrinks.
pub open spec fn bucket_weights(hashes: Seq<Hashes>) -> Seq<(int, int)> {
    Seq::new(
        bucket_count(hashes.len() as int) as nat,
        |b: int| (hashes.len() - members(hashes, b).len(), b),
    )
}

/// `pair_le` as a relation.
pub open spec fn pair_order() -> spec_fn((int, int), (int, int)) -> bool {
    |a: (int, int), b: (int, int)| pair_le(a, b)
}

/// The order in which the buckets are served: largest first, and among buckets
/// of one size the lower number first.
pub open spec fn bucket_order(hashes: Seq<Hashes>) -> Seq<(int, int)> {
    bucket_weights(hashes).sort_by(pair_order())
}

/// The slot that the pair `(d1, d2)` sends key `i` to.
pub open spec fn key_slot(hashes: Seq<Hashes>, i: int, d1: int, d2: int) -> int {
    slot_of(hashes[i], (d1 as u32, d2 as u32), hashes.len() as int)
}

/// Whether the pair `(d1, d2)` fits a bucket: it sends every key of the bucket
/// to a free slot, and no two of them to the same one.
pub open spec fn pair_fits(
    hashes: Seq<Hashes>,
    bucket: Seq<int>,
    slots: Seq<Option<int>>,
    d1: int,
    d2: int,
) -> bool {
    &&& forall|a: int|
        0 <= a < bucket.len() ==> (#[trigger] slots[key_slot(hashes, bucket[a], d1, d2)]).is_none()
    &&& forall|a: int, b: int|
        0 <= a < b < bucket.len() ==> key_slot(hashes, #[trigger] bucket[a], d1, d2) != key_slot(
            hashes,
            #[trigger] bucket[b],
            d1,
            d2,
        )
}

/// The first pair at or after `(d1, d2)` that fits the bucket, where `d2` runs
/// faster and both stay below the number of keys.
pub open spec fn first_pair(
    hashes: Seq<Hashes>,
    bucket: Seq<int>,
    slots: Seq<Option<int>>,
    d1: int,
    d2: int,
) -> Option<(int, int)>
    decreases hashes.len() - d1, hashes.len() - d2,
{
    if d1 < 0 || d2 < 0 || d1 >= hashes.len() {
        None
    } else if d2 >= hashes.len() {
        first_pair(hashes, bucket, slots, d1 + 1, 0)
    } else if pair_fits(hashes, bucket, slots, d1, d2) {
        Some((d1, d2))
    } else {
        first_pair(hashes, bucket, slots, d1, d2 + 1)
    }
}

/// The slots after the first `t` keys of the bucket are placed by `(d1, d2)`.
pub open spec fn place_first(
    hashes: Seq<Hashes>,
    bucket: Seq<int>,
    slots: Seq<Option<int>>,
    d1: int,
    d2: int,
    t: int,
) -> Seq<Option<int>>
    decreases t,
{
    if t <= 0 {
        slots
    } else {
        place_first(hashes, bucket, slots, d1, d2, t - 1).update(
            key_slot(hashes, bucket[t - 1], d1, d2),
            Some(bucket[t - 1]),
        )
    }
}

/// Serves the buckets from the `j`-th of the order on, starting from the given
/// pairs and slots. `None` where some bucket has no pair that fits.
pub open spec fn serve_buckets(
    hashes: Seq<Hashes>,
    order: Seq<(int, int)>,
    j: int,
    disps: Seq<(u32, u32)>,
    slots: Seq<Option<int>>,
) -> Option<(Seq<(u32, u32)>, Seq<Option<int>>)>
    decreases order.len() - j,
{
    if j < 0 || j >= order.len() {
        Some((disps, slots))
    } else {
        let b = order[j].1;
        let bucket = members(hashes, b);
        match first_pair(hashes, bucket, slots, 0, 0) {
            None => None,
            Some((d1, d2)) => serve_buckets(
                hashes,
                order,
                j + 1,
                disps.update(b, (d1 as u32, d2 as u32)),
                place_first(hashes, bucket, slots, d1, d2, bucket.len() as int),
            ),
        }
    }
}

/// The perfect hash of keys with the given hash values, if the construction
/// finds one.
pub open spec fn chd_generate(hashes: Seq<Hashes>) -> Option<ChdTable> {
    match serve_buckets(
        hashes,
        bucket_order(hashes),
        0,
        Seq::new(bucket_count(hashes.len() as int) as nat, |b: int| (0u32, 0u32)),
        Seq::new(hashes.len(), |p: int| None::<int>),
    ) {
        None => None,
        Some((disps, slots)) => if forall|p: int| 0 <= p < slots.len() ==> (#[trigger] slots[p]).is_some() {
            Some(ChdTable { disps, map: Seq::new(slots.len(), |p: int| slots[p].unwrap()) })
        } else {
            None
        },
    }
}

/// The hash values of each key under a seed.
pub open spec fn key_hashes(keys: Seq<Seq<u8>>, seed: u32) -> Seq<Hashes> {
    Seq::new(keys.len(), |i: int| phf_hash(keys[i], seed as u64))
}

/// The first seed of the attempt budget.
pub const FIRST_SEED: u32 = 0x500;

/// The number of seeds that are tried before the construction gives up.
pub const SEED_ATTEMPTS: u32 = 11;

/// The first seed, from attempt `attempt` on, under which the construction
/// succeeds, with its result.
pub open spec fn chd_first_seed(keys: Seq<Seq<u8>>, attempt: int) -> Option<(u32, ChdTable)>
    decreases SEED_ATTEMPTS - attempt,
{
    if attempt < 0 || attempt >= SEED_ATTEMPTS {
        None
    } else {
        let seed = (FIRST_SEED + attempt) as u32;
        match chd_generate(key_hashes(keys, seed)) {
            Some(table) => Some((seed, table)),
            None => chd_first_seed(keys, attempt + 1),
        }
    }
}

/// The slots that a table under construction holds.
pub open spec fn slots_view(map: Seq<Option<usize>>) -> Seq<Option<int>> {
    Seq::new(
        map.len(),
        |p: int|
            match map[p] {
                Some(k) => Some(k as int),
                None => None,
            },
    )
}

/// The pairs of numbers that a list holds.
pub open spec fn pairs_view(pairs: Seq<(usize, usize)>) -> Seq<(int, int)> {
    Seq::new(pairs.len(), |i: int| (pairs[i].0 as int, pairs[i].1 as int))
}

/// Sorts pairs of numbers by `<[T]>::sort`. Tuples compare component by
/// component, so the result holds the same pairs in ascending order of
/// `pair_le`.
#[verifier::external_body]
fn sort_pairs(pairs: &mut Vec<(usize, usize)>)
    ensures
        pairs_view(final(pairs)@).to_multiset() == pairs_view(old(pairs)@).to_multiset(),
        sorted_by(pairs_view(final(pairs)@), pair_order()),
{
    pairs.sort();
}

/// Pairs of numbers are totally ordered.
pub proof fn lemma_pair_total_order()
    ensures
        total_ordering(pair_order()),
{
    let r = pair_order();
    assert forall|x: (int, int)| #[trigger] r(x, x) by {}
    assert forall|x: (int, int), y: (int, int)| #[trigger] r(x, y) && #[trigger] r(y, x) implies x
        == y by {}
    assert forall|x: (int, int), y: (int, int), z: (int, int)| #[trigger] r(x, y) && #[trigger] r(
        y,
        z,
    ) implies r(x, z) by {}
    assert forall|x: (int, int), y: (int, int)| #[trigger] r(x, y) || #[trigger] r(y, x) by {}
}

/// The order of the buckets names every one of them, and only them.
pub proof fn lemma_bucket_order(hashes: Seq<Hashes>)
    ensures
        bucket_order(hashes).len() == bucket_count(hashes.len() as int),
        sorted_by(bucket_order(hashes), pair_order()),
        forall|j: int|
            0 <= j < bucket_order(hashes).len() ==> 0 <= (#[trigger] bucket_order(hashes)[j]).1
                < bucket_count(hashes.len() as int),
        forall|b: int|
            0 <= b < bucket_count(hashes.len() as int) ==> bucket_order(hashes).contains(
                #[trigger] bucket_weights(hashes)[b],
            ),
        bucket_order(hashes).no_duplicates(),
{
    broadcast use vstd::seq_lib::group_to_multiset_ensures;

    let w = bucket_weights(hashes);
    let o = bucket_order(hashes);
    lemma_pair_total_order();
    w.lemma_sort_by_ensures(pair_order());
    assert(w.len() == w.to_multiset().len());
    assert(o.len() == o.to_multiset().len());
    assert(w.no_duplicates());
    w.lemma_multiset_has_no_duplicates();
    o.lemma_multiset_has_no_duplicates_conv();
    assert forall|j: int| 0 <= j < o.len() implies 0 <= (#[trigger] o[j]).1 < bucket_count(
        hashes.len() as int,
    ) by {
        assert(o.contains(o[j]));
        assert(w.to_multiset().count(o[j]) > 0);
        assert(w.contains(o[j]));
    }
    assert forall|b: int| 0 <= b < bucket_count(hashes.len() as int) implies o.contains(
        #[trigger] w[b],
    ) by {
        assert(w.contains(w[b]));
        assert(o.to_multiset().count(w[b]) > 0);
    }
}

/// Whether one of the first `t` keys of the bucket is sent to slot `p`.
pub open spec fn claimed(hashes: Seq<Hashes>, bucket: Seq<int>, d1: int, d2: int, t: int, p: int) -> bool {
    exists|a: int| 0 <= a < t && key_slot(hashes, #[trigger] bucket[a], d1, d2) == p
}

/// Tries one displacement pair on a bucket: whether it fits, and if so the
/// slot of each key of the bucket.
fn try_pair(
    hashes: &Vec<Hashes>,
    bucket: &Vec<usize>,
    map: &Vec<Option<usize>>,
    try_map: &mut Vec<u64>,
    generation: u64,
    d1: u32,
    d2: u32,
    values_to_add: &mut Vec<(usize, usize)>,
) -> (fits: bool)
    requires
        0 < hashes@.len() <= u32::MAX,
        map@.len() == hashes@.len(),
        old(try_map)@.len() == hashes@.len(),
        forall|a: int| 0 <= a < bucket@.len() ==> (#[trigger] bucket@[a]) < hashes@.len(),
        forall|p: int| 0 <= p < old(try_map)@.len() ==> (#[trigger] old(try_map)@[p]) < generation,
    ensures
        final(try_map)@.len() == hashes@.len(),
        forall|p: int| 0 <= p < final(try_map)@.len() ==> (#[trigger] final(try_map)@[p]) <= generation,
        fits == pair_fits(hashes@, positions(bucket@), slots_view(map@), d1 as int, d2 as int),
        fits ==> final(values_to_add)@.len() == bucket@.len(),
        fits ==> forall|a: int|
            0 <= a < bucket@.len() ==> (#[trigger] final(values_to_add)@[a]) == (
                key_slot(hashes@, bucket@[a] as int, d1 as int, d2 as int) as usize,
                bucket@[a],
            ),
{
    let n = hashes.len();
    let ghost members = positions(bucket@);
    let ghost slots = slots_view(map@);
    values_to_add.clear();
    let mut t: usize = 0;
    while t < bucket.len()
        invariant
            t <= bucket@.len(),
            n == hashes@.len(),
            0 < n <= u32::MAX,
            map@.len() == n,
            try_map@.len() == n,
            members == positions(bucket@),
            slots == slots_view(map@),
            forall|a: int| 0 <= a < bucket@.len() ==> (#[trigger] bucket@[a]) < n,
            forall|p: int| 0 <= p < n ==> (#[trigger] try_map@[p]) <= generation,
            forall|p: int|
                0 <= p < n ==> ((#[trigger] try_map@[p]) == generation <==> claimed(
                    hashes@,
                    members,
                    d1 as int,
                    d2 as int,
                    t as int,
                    p,
                )),
            forall|a: int|
                0 <= a < t ==> (#[trigger] slots[key_slot(
                    hashes@,
                    members[a],
                    d1 as int,
                    d2 as int,
                )]).is_none(),
            forall|a: int, b: int|
                0 <= a < b < t ==> key_slot(hashes@, #[trigger] members[a], d1 as int, d2 as int)
                    != key_slot(hashes@, #[trigger] members[b], d1 as int, d2 as int),
            values_to_add@.len() == t,
            forall|a: int|
                0 <= a < t ==> (#[trigger] values_to_add@[a]) == (
                    key_slot(hashes@, bucket@[a] as int, d1 as int, d2 as int) as usize,
                    bucket@[a],
                ),
        decreases bucket@.len() - t,
    {
        let key = bucket[t];
        let h = hashes[key];
        let idx = (displace_hashes(h.f1, h.f2, d1, d2) % (n as u32)) as usize;
        assert(members[t as int] == key);
        assert(idx == key_slot(hashes@, members[t as int], d1 as int, d2 as int));
        if map[idx].is_some() {
            assert(!slots[idx as int].is_none());
            return false;
        }
        if try_map[idx] == generation {
            proof {
                let a = choose|a: int|
                    0 <= a < t && key_slot(hashes@, #[trigger] members[a], d1 as int, d2 as int)
                        == idx;
                assert(key_slot(hashes@, members[a], d1 as int, d2 as int) == key_slot(
                    hashes@,
                    members[t as int],
                    d1 as int,
                    d2 as int,
                ));
            }
            return false;
        }
        let ghost old_try = try_map@;
        try_map.set(idx, generation);
        values_to_add.push((idx, key));
        proof {
            assert forall|p: int| 0 <= p < n implies ((#[trigger] try_map@[p]) == generation
                <==> claimed(hashes@, members, d1 as int, d2 as int, t + 1, p)) by {
                if p == idx {
                    assert(key_slot(hashes@, members[t as int], d1 as int, d2 as int) == p);
                } else {
                    if claimed(hashes@, members, d1 as int, d2 as int, t + 1, p) {
                        let a = choose|a: int|
                            0 <= a < t + 1 && key_slot(
                                hashes@,
                                #[trigger] members[a],
                                d1 as int,
                                d2 as int,
                            ) == p;
                        assert(a < t);
                        assert(claimed(hashes@, members, d1 as int, d2 as int, t as int, p));
                    }
                    if claimed(hashes@, members, d1 as int, d2 as int, t as int, p) {
                        let a = choose|a: int|
                            0 <= a < t && key_slot(
                                hashes@,
                                #[trigger] members[a],
                                d1 as int,
                                d2 as int,
                            ) == p;
                        assert(key_slot(hashes@, members[a], d1 as int, d2 as int) == p);
                    }
                }
            }
            assert forall|a: int, b: int| 0 <= a < b < t + 1 implies key_slot(
                hashes@,
                #[trigger] members[a],
                d1 as int,
                d2 as int,
            ) != key_slot(hashes@, #[trigger] members[b], d1 as int, d2 as int) by {
                if b == t {
                    if key_slot(hashes@, members[a], d1 as int, d2 as int) == idx {
                        assert(claimed(hashes@, members, d1 as int, d2 as int, t as int, idx as int));
                    }
                }
            }
        }
        t += 1;
    }
    true
}

/// Searches the displacement pairs, in order, for the first that fits a
/// bucket. Every trial is a new generation of the claim marks in `try_map`.
fn find_pair(
    hashes: &Vec<Hashes>,
    bucket: &Vec<usize>,
    map: &Vec<Option<usize>>,
    try_map: &mut Vec<u64>,
    generation: &mut u64,
    values_to_add: &mut Vec<(usize, usize)>,
) -> (res: Option<(u32, u32)>)
    requires
        0 < hashes@.len() <= u32::MAX,
        map@.len() == hashes@.len(),
        old(try_map)@.len() == hashes@.len(),
        forall|a: int| 0 <= a < bucket@.len() ==> (#[trigger] bucket@[a]) < hashes@.len(),
        forall|p: int|
            0 <= p < old(try_map)@.len() ==> (#[trigger] old(try_map)@[p]) <= *old(generation),
    ensures
        final(try_map)@.len() == hashes@.len(),
        forall|p: int|
            0 <= p < final(try_map)@.len() ==> (#[trigger] final(try_map)@[p]) <= *final(generation),
        match res {
            Some((d1, d2)) => {
                &&& first_pair(hashes@, positions(bucket@), slots_view(map@), 0, 0) == Some(
                    (d1 as int, d2 as int),
                )
                &&& final(values_to_add)@.len() == bucket@.len()
                &&& forall|a: int|
                    0 <= a < bucket@.len() ==> (#[trigger] final(values_to_add)@[a]) == (
                        key_slot(hashes@, bucket@[a] as int, d1 as int, d2 as int) as usize,
                        bucket@[a],
                    )
            },
            None => first_pair(hashes@, positions(bucket@), slots_view(map@), 0, 0).is_none(),
        },
{
    let n = hashes.len();
    let ghost members = positions(bucket@);
    let ghost slots = slots_view(map@);
    let mut d1: u32 = 0;
    while d1 < n as u32
        invariant
            d1 <= n,
            n == hashes@.len(),
            0 < n <= u32::MAX,
            map@.len() == n,
            try_map@.len() == n,
            members == positions(bucket@),
            slots == slots_view(map@),
            forall|a: int| 0 <= a < bucket@.len() ==> (#[trigger] bucket@[a]) < n,
            forall|p: int| 0 <= p < n ==> (#[trigger] try_map@[p]) <= *generation,
            first_pair(hashes@, members, slots, 0, 0) == first_pair(
                hashes@,
                members,
                slots,
                d1 as int,
                0,
            ),
        decreases n - d1,
    {
        let mut d2: u32 = 0;
        while d2 < n as u32
            invariant
                d1 < n,
                d2 <= n,
                n == hashes@.len(),
                0 < n <= u32::MAX,
                map@.len() == n,
                try_map@.len() == n,
                members == positions(bucket@),
                slots == slots_view(map@),
                forall|a: int| 0 <= a < bucket@.len() ==> (#[trigger] bucket@[a]) < n,
                forall|p: int| 0 <= p < n ==> (#[trigger] try_map@[p]) <= *generation,
                first_pair(hashes@, members, slots, 0, 0) == first_pair(
                    hashes@,
                    members,
                    slots,
                    d1 as int,
                    d2 as int,
                ),
            decreases n - d2,
        {
            if *generation == u64::MAX {
                clear_marks(try_map);
                *generation = 0;
            }
            *generation = *generation + 1;
            if try_pair(hashes, bucket, map, try_map, *generation, d1, d2, values_to_add) {
                return Some((d1, d2));
            }
            d2 += 1;
        }
        d1 += 1;
    }
    None
}

/// Resets every claim mark to zero.
fn clear_marks(try_map: &mut Vec<u64>)
    ensures
        final(try_map)@.len() == old(try_map)@.len(),
        forall|p: int| 0 <= p < final(try_map)@.len() ==> (#[trigger] final(try_map)@[p]) == 0,
{
    let mut p: usize = 0;
    while p < try_map.len()
        invariant
            p <= try_map@.len(),
            try_map@.len() == old(try_map)@.len(),
            forall|q: int| 0 <= q < p ==> (#[trigger] try_map@[q]) == 0,
        decreases try_map@.len() - p,
    {
        try_map.set(p, 0);
        p += 1;
    }
}

/// Whether every slot that is taken holds the position of a key.
pub open spec fn holds_keys(map: Seq<Option<usize>>) -> bool {
    forall|p: int| 0 <= p < map.len() ==> ((#[trigger] map[p]) matches Some(k) ==> k < map.len())
}

/// Puts the keys of a bucket into the slots that were found for them.
fn place_bucket(
    hashes: &Vec<Hashes>,
    bucket: &Vec<usize>,
    map: &mut Vec<Option<usize>>,
    values_to_add: &Vec<(usize, usize)>,
    d1: u32,
    d2: u32,
)
    requires
        0 < hashes@.len() <= u32::MAX,
        old(map)@.len() == hashes@.len(),
        values_to_add@.len() == bucket@.len(),
        forall|a: int| 0 <= a < bucket@.len() ==> (#[trigger] bucket@[a]) < hashes@.len(),
        forall|a: int|
            0 <= a < bucket@.len() ==> (#[trigger] values_to_add@[a]) == (
                key_slot(hashes@, bucket@[a] as int, d1 as int, d2 as int) as usize,
                bucket@[a],
            ),
        holds_keys(old(map)@),
    ensures
        final(map)@.len() == hashes@.len(),
        holds_keys(final(map)@),
        slots_view(final(map)@) == place_first(
            hashes@,
            positions(bucket@),
            slots_view(old(map)@),
            d1 as int,
            d2 as int,
            bucket@.len() as int,
        ),
{
    let ghost members = positions(bucket@);
    let ghost slots = slots_view(map@);
    let n = hashes.len();
    let mut t: usize = 0;
    while t < values_to_add.len()
        invariant
            t <= bucket@.len(),
            n == hashes@.len(),
            0 < n <= u32::MAX,
            map@.len() == n,
            values_to_add@.len() == bucket@.len(),
            members == positions(bucket@),
            holds_keys(map@),
            forall|a: int| 0 <= a < bucket@.len() ==> (#[trigger] bucket@[a]) < n,
            forall|a: int|
                0 <= a < bucket@.len() ==> (#[trigger] values_to_add@[a]) == (
                    key_slot(hashes@, bucket@[a] as int, d1 as int, d2 as int) as usize,
                    bucket@[a],
                ),
            slots_view(map@) == place_first(hashes@, members, slots, d1 as int, d2 as int, t as int),
        decreases bucket@.len() - t,
    {
        let (idx, key) = values_to_add[t];
        assert(members[t as int] == bucket@[t as int]);
        assert(0 <= key_slot(hashes@, members[t as int], d1 as int, d2 as int) < n);
        let ghost before = map@;
        map.set(idx, Some(key));
        assert(slots_view(map@) =~= slots_view(before).update(idx as int, Some(key as int)));
        t += 1;
    }
}

/// Spreads the keys over the buckets.
fn fill_buckets(hashes: &Vec<Hashes>) -> (buckets: Vec<Vec<usize>>)
    requires
        hashes@.len() <= u32::MAX,
    ensures
        buckets@.len() == bucket_count(hashes@.len() as int),
        forall|b: int|
            0 <= b < buckets@.len() ==> positions((#[trigger] buckets@[b])@) == members(hashes@, b),
        forall|b: int, a: int|
            0 <= b < buckets@.len() && 0 <= a < buckets@[b]@.len() ==> (#[trigger] buckets@[b]@[a])
                < hashes@.len(),
{
    let n = hashes.len();
    let buckets_len = ((n as u64 + DEFAULT_LAMBDA as u64 - 1) / DEFAULT_LAMBDA as u64) as usize;
    let mut buckets: Vec<Vec<usize>> = Vec::new();
    let mut b: usize = 0;
    while b < buckets_len
        invariant
            b <= buckets_len,
            buckets@.len() == b,
            forall|c: int| 0 <= c < b ==> (#[trigger] buckets@[c])@.len() == 0,
        decreases buckets_len - b,
    {
        buckets.push(Vec::new());
        b += 1;
    }
    let mut i: usize = 0;
    while i < n
        invariant
            i <= n,
            n == hashes@.len(),
            n <= u32::MAX,
            buckets_len == bucket_count(n as int),
            buckets@.len() == buckets_len,
            forall|c: int|
                0 <= c < buckets_len ==> positions((#[trigger] buckets@[c])@) == members_first(
                    hashes@,
                    c,
                    i as int,
                ),
            forall|c: int, a: int|
                0 <= c < buckets_len && 0 <= a < buckets@[c]@.len() ==> (#[trigger] buckets@[c]@[a])
                    < n,
        decreases n - i,
    {
        let c = (hashes[i].g % (buckets_len as u32)) as usize;
        let ghost before = buckets@;
        buckets[c].push(i);
        proof {
            assert forall|e: int| 0 <= e < buckets_len implies positions((#[trigger] buckets@[e])@)
                == members_first(hashes@, e, i + 1) by {
                assert(positions(before[e]@) == members_first(hashes@, e, i as int));
                if e == c {
                    assert(positions(buckets@[e]@) =~= positions(before[e]@).push(i as int));
                } else {
                    assert(buckets@[e] == before[e]);
                }
            }
            assert forall|e: int, a: int|
                0 <= e < buckets_len && 0 <= a < buckets@[e]@.len() implies (
            #[trigger] buckets@[e]@[a]) < n by {
                if e == c {
                    if a < before[e]@.len() {
                        assert(buckets@[e]@[a] == before[e]@[a]);
                    }
                } else {
                    assert(buckets@[e] == before[e]);
                }
            }
        }
        i += 1;
    }
    buckets
}

/// Lists the buckets in the order in which they are served.
fn order_buckets(hashes: &Vec<Hashes>, buckets: &Vec<Vec<usize>>) -> (order: Vec<(usize, usize)>)
    requires
        hashes@.len() <= u32::MAX,
        buckets@.len() == bucket_count(hashes@.len() as int),
        forall|b: int|
            0 <= b < buckets@.len() ==> positions((#[trigger] buckets@[b])@) == members(hashes@, b),
    ensures
        pairs_view(order@) == bucket_order(hashes@),
        order@.len() == buckets@.len(),
        forall|j: int| 0 <= j < order@.len() ==> (#[trigger] order@[j]).1 < buckets@.len(),
{
    let n = hashes.len();
    let mut order: Vec<(usize, usize)> = Vec::new();
    let mut b: usize = 0;
    while b < buckets.len()
        invariant
            b <= buckets@.len(),
            n == hashes@.len(),
            order@.len() == b,
            buckets@.len() == bucket_count(n as int),
            forall|c: int|
                0 <= c < buckets@.len() ==> positions((#[trigger] buckets@[c])@) == members(
                    hashes@,
                    c,
                ),
            forall|c: int|
                0 <= c < b ==> (#[trigger] pairs_view(order@)[c]) == bucket_weights(hashes@)[c],
        decreases buckets@.len() - b,
    {
        let size = buckets[b].len();
        proof {
            assert(positions(buckets@[b as int]@).len() == size);
            lemma_members_bound(hashes@, b as int, n as int);
        }
        let ghost before = order@;
        order.push((n - size, b));
        proof {
            assert forall|c: int| 0 <= c < b + 1 implies (#[trigger] pairs_view(order@)[c])
                == bucket_weights(hashes@)[c] by {
                if c < b {
                    assert(pairs_view(before)[c] == bucket_weights(hashes@)[c]);
                    assert(order@[c] == before[c]);
                }
            }
        }
        b += 1;
    }
    assert(pairs_view(order@) =~= bucket_weights(hashes@));
    sort_pairs(&mut order);
    proof {
        lemma_pair_total_order();
        lemma_bucket_order(hashes@);
        bucket_weights(hashes@).lemma_sort_by_ensures(pair_order());
        lemma_sorted_unique(pairs_view(order@), bucket_order(hashes@), pair_order());
        assert(pairs_view(order@) =~= bucket_order(hashes@));
        assert forall|j: int| 0 <= j < order@.len() implies (#[trigger] order@[j]).1
            < buckets@.len() by {
            assert(pairs_view(order@)[j].1 == order@[j].1);
        }
    }
    order
}

/// A bucket holds no more keys than were spread.
pub proof fn lemma_members_bound(hashes: Seq<Hashes>, bucket: int, t: int)
    requires
        0 <= t,
    ensures
        members_first(hashes, bucket, t).len() <= t,
        forall|a: int|
            0 <= a < members_first(hashes, bucket, t).len() ==> 0 <= (#[trigger] members_first(
                hashes,
                bucket,
                t,
            )[a]) < t,
    decreases t,
{
    if t > 0 {
        lemma_members_bound(hashes, bucket, t - 1);
    }
}

/// Builds a perfect hash of keys whose hash values are given: serves the
/// buckets largest first, and gives each the first displacement pair that
/// sends its keys to free slots of their own.
pub fn generate_hash_state(hashes: &Vec<Hashes>, key: u32) -> (res: Option<HashState>)
    requires
        hashes@.len() <= u32::MAX,
    ensures
        match res {
            Some(state) => {
                &&& state.key == key
                &&& chd_generate(hashes@) == Some(
                    ChdTable { disps: state.disps@, map: positions(state.map@) },
                )
                &&& state.disps@.len() == bucket_count(hashes@.len() as int)
                &&& state.map@.len() == hashes@.len()
                &&& forall|p: int|
                    0 <= p < state.map@.len() ==> (#[trigger] state.map@[p]) < hashes@.len()
            },
            None => chd_generate(hashes@).is_none(),
        },
{
    let n = hashes.len();
    let buckets = fill_buckets(hashes);
    let order = order_buckets(hashes, &buckets);
    let buckets_len = buckets.len();
    let mut map: Vec<Option<usize>> = Vec::new();
    let mut try_map: Vec<u64> = Vec::new();
    let mut p: usize = 0;
    while p < n
        invariant
            p <= n,
            map@.len() == p,
            try_map@.len() == p,
            forall|q: int| 0 <= q < p ==> (#[trigger] map@[q]).is_none(),
            forall|q: int| 0 <= q < p ==> (#[trigger] try_map@[q]) == 0,
        decreases n - p,
    {
        map.push(None);
        try_map.push(0u64);
        p += 1;
    }
    let mut disps: Vec<(u32, u32)> = Vec::new();
    let mut b: usize = 0;
    while b < buckets_len
        invariant
            b <= buckets_len,
            disps@.len() == b,
            forall|c: int| 0 <= c < b ==> (#[trigger] disps@[c]) == (0u32, 0u32),
        decreases buckets_len - b,
    {
        disps.push((0u32, 0u32));
        b += 1;
    }
    let ghost first_disps = Seq::new(bucket_count(n as int) as nat, |b: int| (0u32, 0u32));
    let ghost first_slots = Seq::new(n as nat, |p: int| None::<int>);
    assert(disps@ =~= first_disps);
    assert(slots_view(map@) =~= first_slots);
    let mut generation: u64 = 0;
    let mut values_to_add: Vec<(usize, usize)> = Vec::new();
    let mut j: usize = 0;
    while j < buckets_len
        invariant
            j <= buckets_len,
            n == hashes@.len(),
            n <= u32::MAX,
            buckets_len == buckets@.len(),
            buckets_len == bucket_count(n as int),
            order@.len() == buckets_len,
            pairs_view(order@) == bucket_order(hashes@),
            forall|i: int| 0 <= i < order@.len() ==> (#[trigger] order@[i]).1 < buckets_len,
            forall|c: int|
                0 <= c < buckets@.len() ==> positions((#[trigger] buckets@[c])@) == members(
                    hashes@,
                    c,
                ),
            forall|c: int, a: int|
                0 <= c < buckets@.len() && 0 <= a < buckets@[c]@.len() ==> (
                #[trigger] buckets@[c]@[a]) < n,
            map@.len() == n,
            holds_keys(map@),
            try_map@.len() == n,
            disps@.len() == buckets_len,
            forall|q: int| 0 <= q < n ==> (#[trigger] try_map@[q]) <= generation,
            first_disps == Seq::new(bucket_count(n as int) as nat, |b: int| (0u32, 0u32)),
            first_slots == Seq::new(n as nat, |p: int| None::<int>),
            serve_buckets(hashes@, bucket_order(hashes@), 0, first_disps, first_slots)
                == serve_buckets(
                hashes@,
                bucket_order(hashes@),
                j as int,
                disps@,
                slots_view(map@),
            ),
        decreases buckets_len - j,
    {
        let c = order[j].1;
        assert(pairs_view(order@)[j as int].1 == c);
        let bucket = &buckets[c];
        assert(n > 0);
        assert(positions(bucket@) == members(hashes@, c as int));
        let ghost slots_before = slots_view(map@);
        let ghost disps_before = disps@;
        match find_pair(hashes, bucket, &map, &mut try_map, &mut generation, &mut values_to_add) {
            None => {
                assert(serve_buckets(
                    hashes@,
                    bucket_order(hashes@),
                    j as int,
                    disps_before,
                    slots_before,
                ).is_none());
                return None;
            },
            Some((d1, d2)) => {
                place_bucket(hashes, bucket, &mut map, &values_to_add, d1, d2);
                disps.set(c, (d1, d2));
                assert(serve_buckets(
                    hashes@,
                    bucket_order(hashes@),
                    j as int,
                    disps_before,
                    slots_before,
                ) == serve_buckets(
                    hashes@,
                    bucket_order(hashes@),
                    j + 1,
                    disps@,
                    slots_view(map@),
                ));
            },
        }
        j += 1;
    }
    assert(serve_buckets(hashes@, bucket_order(hashes@), 0, first_disps, first_slots) == Some(
        (disps@, slots_view(map@)),
    ));
    let mut placed: Vec<usize> = Vec::new();
    let mut p: usize = 0;
    while p < n
        invariant
            p <= n,
            n == hashes@.len(),
            map@.len() == n,
            holds_keys(map@),
            disps@.len() == bucket_count(n as int),
            placed@.len() == p,
            forall|q: int| 0 <= q < p ==> (#[trigger] placed@[q]) < n,
            serve_buckets(hashes@, bucket_order(hashes@), 0, first_disps, first_slots) == Some(
                (disps@, slots_view(map@)),
            ),
            first_disps == Seq::new(bucket_count(n as int) as nat, |b: int| (0u32, 0u32)),
            first_slots == Seq::new(n as nat, |p: int| None::<int>),
            forall|q: int| 0 <= q < p ==> (#[trigger] slots_view(map@)[q]).is_some(),
            forall|q: int| 0 <= q < p ==> (#[trigger] placed@[q]) as int == slots_view(map@)[q].unwrap(),
        decreases n - p,
    {
        match map[p] {
            None => {
                assert(slots_view(map@)[p as int].is_none());
                return None;
            },
            Some(k) => {
                assert(slots_view(map@)[p as int] == Some(k as int));
                placed.push(k);
            },
        }
        p += 1;
    }
    assert(positions(placed@) =~= Seq::new(n as nat, |p: int| slots_view(map@)[p].unwrap()));
    Some(HashState { key, disps, map: placed })
}

/// Hashes every key under the seed `key` and builds a perfect hash of them.
pub fn try_generate_hash(entries: &Vec<&[u8]>, key: u32) -> (res: Option<HashState>)
    requires
        entries@.len() <= u32::MAX,
    ensures
        match res {
            Some(state) => {
                &&& state.key == key
                &&& chd_generate(key_hashes(keys_view(entries@), key)) == Some(
                    ChdTable { disps: state.disps@, map: positions(state.map@) },
                )
                &&& state.disps@.len() == bucket_count(entries@.len() as int)
                &&& state.map@.len() == entries@.len()
                &&& forall|p: int|
                    0 <= p < state.map@.len() ==> (#[trigger] state.map@[p]) < entries@.len()
            },
            None => chd_generate(key_hashes(keys_view(entries@), key)).is_none(),
        },
{
    let mut hashes: Vec<Hashes> = Vec::new();
    let mut i: usize = 0;
    while i < entries.len()
        invariant
            i <= entries@.len(),
            hashes@.len() == i,
            forall|j: int|
                0 <= j < i ==> (#[trigger] hashes@[j]) == phf_hash(entries@[j]@, key as u64),
        decreases entries@.len() - i,
    {
        hashes.push(hash_key(entries[i], key as u64));
        i += 1;
    }
    assert(hashes@ =~= key_hashes(keys_view(entries@), key));
    generate_hash_state(&hashes, key)
}

/// The byte sequences that a list of keys holds.
pub open spec fn keys_view(keys: Seq<&[u8]>) -> Seq<Seq<u8>> {
    Seq::new(keys.len(), |i: int| keys[i]@)
}

} // verus!
