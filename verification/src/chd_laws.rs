//! What holds of the perfect hash that the construction yields.

use crate::chd::{
    bucket_of, bucket_order, bucket_weights, chd_generate, first_pair, key_slot, lemma_bucket_order,
    members, members_first, pair_fits, place_first, serve_buckets,
};
use crate::hashing::{Hashes, slot_of};
use crate::layout::bucket_count;
use vstd::prelude::*;

verus! {

/// The bucket of key `i`.
pub open spec fn bucket_of_key(hashes: Seq<Hashes>, i: int) -> int {
    bucket_of(hashes[i], bucket_count(hashes.len() as int))
}

/// The slot that the displacement pair of its bucket sends key `i` to.
pub open spec fn slot_of_key(hashes: Seq<Hashes>, disps: Seq<(u32, u32)>, i: int) -> int {
    slot_of(hashes[i], disps[bucket_of_key(hashes, i)], hashes.len() as int)
}

/// The buckets that are served before the `j`-th of the order.
pub open spec fn served(order: Seq<(int, int)>, j: int) -> Set<int> {
    Set::new(|b: int| exists|a: int| 0 <= a < j && a < order.len() && (#[trigger] order[a]).1 == b)
}

/// Whether the keys of the buckets served so far stand where their
/// displacement pairs send them, and nothing else stands anywhere.
pub open spec fn placed_right(
    hashes: Seq<Hashes>,
    disps: Seq<(u32, u32)>,
    slots: Seq<Option<int>>,
    done: Set<int>,
) -> bool {
    &&& slots.len() == hashes.len()
    &&& disps.len() == bucket_count(hashes.len() as int)
    &&& forall|p: int|
        0 <= p < slots.len() && (#[trigger] slots[p]).is_some() ==> {
            &&& 0 <= slots[p].unwrap() < hashes.len()
            &&& done.contains(bucket_of_key(hashes, slots[p].unwrap()))
            &&& slot_of_key(hashes, disps, slots[p].unwrap()) == p
        }
    &&& forall|i: int|
        0 <= i < hashes.len() && done.contains(#[trigger] bucket_of_key(hashes, i)) ==> slots[slot_of_key(
            hashes,
            disps,
            i,
        )] == Some(i)
}

/// A bucket holds exactly the keys that fall into it.
pub proof fn lemma_members(hashes: Seq<Hashes>, bucket: int, t: int)
    requires
        0 <= t <= hashes.len(),
    ensures
        forall|a: int|
            0 <= a < members_first(hashes, bucket, t).len() ==> 0 <= (#[trigger] members_first(
                hashes,
                bucket,
                t,
            )[a]) < t && bucket_of_key(hashes, members_first(hashes, bucket, t)[a]) == bucket,
        forall|i: int|
            0 <= i < t && bucket_of_key(hashes, i) == bucket ==> members_first(
                hashes,
                bucket,
                t,
            ).contains(i),
    decreases t,
{
    if t > 0 {
        lemma_members(hashes, bucket, t - 1);
        let before = members_first(hashes, bucket, t - 1);
        let now = members_first(hashes, bucket, t);
        assert forall|i: int| 0 <= i < t && bucket_of_key(hashes, i) == bucket implies now.contains(
            i,
        ) by {
            if i < t - 1 {
                assert(before.contains(i));
                let a = choose|a: int| 0 <= a < before.len() && before[a] == i;
                assert(now[a] == i);
            } else {
                assert(now[now.len() - 1] == i);
            }
        }
    }
}

/// The pair that the search finds fits the bucket.
pub proof fn lemma_first_pair_fits(
    hashes: Seq<Hashes>,
    bucket: Seq<int>,
    slots: Seq<Option<int>>,
    d1: int,
    d2: int,
)
    requires
        0 <= d1,
        0 <= d2,
    ensures
        first_pair(hashes, bucket, slots, d1, d2) matches Some(pair) ==> pair_fits(
            hashes,
            bucket,
            slots,
            pair.0,
            pair.1,
        ),
    decreases hashes.len() - d1, hashes.len() - d2,
{
    if d1 < hashes.len() {
        if d2 >= hashes.len() {
            lemma_first_pair_fits(hashes, bucket, slots, d1 + 1, 0);
        } else if !pair_fits(hashes, bucket, slots, d1, d2) {
            lemma_first_pair_fits(hashes, bucket, slots, d1, d2 + 1);
        }
    }
}

/// Placing the keys of a bucket by a pair that fits puts each key into its
/// slot and leaves every other slot as it was.
pub proof fn lemma_place_first(
    hashes: Seq<Hashes>,
    bucket: Seq<int>,
    slots: Seq<Option<int>>,
    d1: int,
    d2: int,
    t: int,
)
    requires
        hashes.len() > 0,
        slots.len() == hashes.len(),
        pair_fits(hashes, bucket, slots, d1, d2),
        0 <= t <= bucket.len(),
    ensures
        place_first(hashes, bucket, slots, d1, d2, t).len() == slots.len(),
        forall|a: int|
            0 <= a < t ==> place_first(hashes, bucket, slots, d1, d2, t)[key_slot(
                hashes,
                #[trigger] bucket[a],
                d1,
                d2,
            )] == Some(bucket[a]),
        forall|p: int|
            0 <= p < slots.len() && (forall|a: int|
                0 <= a < t ==> key_slot(hashes, #[trigger] bucket[a], d1, d2) != p)
                ==> #[trigger] place_first(hashes, bucket, slots, d1, d2, t)[p] == slots[p],
    decreases t,
{
    if t > 0 {
        lemma_place_first(hashes, bucket, slots, d1, d2, t - 1);
        let before = place_first(hashes, bucket, slots, d1, d2, t - 1);
        let now = place_first(hashes, bucket, slots, d1, d2, t);
        let target = key_slot(hashes, bucket[t - 1], d1, d2);
        assert(0 <= target < hashes.len());
        assert forall|a: int| 0 <= a < t implies now[key_slot(hashes, #[trigger] bucket[a], d1, d2)]
            == Some(bucket[a]) by {
            assert(0 <= key_slot(hashes, bucket[a], d1, d2) < hashes.len());
            if a < t - 1 {
                assert(key_slot(hashes, bucket[a], d1, d2) != key_slot(
                    hashes,
                    bucket[t - 1],
                    d1,
                    d2,
                ));
            }
        }
        assert forall|p: int|
            0 <= p < slots.len() && (forall|a: int|
                0 <= a < t ==> key_slot(hashes, #[trigger] bucket[a], d1, d2) != p) implies (
        #[trigger] now[p]) == slots[p] by {
            assert(key_slot(hashes, bucket[t - 1], d1, d2) != p);
            assert(forall|a: int|
                0 <= a < t - 1 ==> key_slot(hashes, #[trigger] bucket[a], d1, d2) != p);
            assert(before[p] == slots[p]);
        }
    }
}

/// Serving one more bucket by a pair that fits keeps every key in its place.
pub proof fn lemma_serve_one(
    hashes: Seq<Hashes>,
    disps: Seq<(u32, u32)>,
    slots: Seq<Option<int>>,
    done: Set<int>,
    b: int,
    d1: int,
    d2: int,
)
    requires
        hashes.len() > 0,
        placed_right(hashes, disps, slots, done),
        0 <= b < bucket_count(hashes.len() as int),
        !done.contains(b),
        pair_fits(hashes, members(hashes, b), slots, d1, d2),
    ensures
        placed_right(
            hashes,
            disps.update(b, (d1 as u32, d2 as u32)),
            place_first(
                hashes,
                members(hashes, b),
                slots,
                d1,
                d2,
                members(hashes, b).len() as int,
            ),
            done.insert(b),
        ),
{
    let n = hashes.len() as int;
    let bucket = members(hashes, b);
    let new_disps = disps.update(b, (d1 as u32, d2 as u32));
    let new_slots = place_first(hashes, bucket, slots, d1, d2, bucket.len() as int);
    let new_done = done.insert(b);
    lemma_members(hashes, b, n);
    lemma_place_first(hashes, bucket, slots, d1, d2, bucket.len() as int);
    assert forall|a: int| 0 <= a < bucket.len() implies slot_of_key(
        hashes,
        new_disps,
        #[trigger] bucket[a],
    ) == key_slot(hashes, bucket[a], d1, d2) by {
        assert(bucket_of_key(hashes, bucket[a]) == b);
    }
    assert forall|p: int| 0 <= p < new_slots.len() && (#[trigger] new_slots[p]).is_some() implies {
        &&& 0 <= new_slots[p].unwrap() < hashes.len()
        &&& new_done.contains(bucket_of_key(hashes, new_slots[p].unwrap()))
        &&& slot_of_key(hashes, new_disps, new_slots[p].unwrap()) == p
    } by {
        if exists|a: int| 0 <= a < bucket.len() && key_slot(hashes, #[trigger] bucket[a], d1, d2) == p {
            let a = choose|a: int|
                0 <= a < bucket.len() && key_slot(hashes, #[trigger] bucket[a], d1, d2) == p;
            assert(new_slots[key_slot(hashes, bucket[a], d1, d2)] == Some(bucket[a]));
            assert(slot_of_key(hashes, new_disps, bucket[a]) == p);
        } else {
            assert(forall|a: int|
                0 <= a < bucket.len() ==> key_slot(hashes, #[trigger] bucket[a], d1, d2) != p);
            assert(new_slots[p] == slots[p]);
            let i = slots[p].unwrap();
            assert(done.contains(bucket_of_key(hashes, i)));
            assert(bucket_of_key(hashes, i) != b);
        }
    }
    assert forall|i: int|
        0 <= i < hashes.len() && new_done.contains(
            #[trigger] bucket_of_key(hashes, i),
        ) implies new_slots[slot_of_key(hashes, new_disps, i)] == Some(i) by {
        if bucket_of_key(hashes, i) == b {
            assert(bucket.contains(i));
            let a = choose|a: int| 0 <= a < bucket.len() && bucket[a] == i;
            assert(new_slots[key_slot(hashes, bucket[a], d1, d2)] == Some(bucket[a]));
            assert(slot_of_key(hashes, new_disps, bucket[a]) == key_slot(
                hashes,
                bucket[a],
                d1,
                d2,
            ));
        } else {
            let p = slot_of_key(hashes, disps, i);
            assert(slots[p] == Some(i));
            assert(0 <= p < n);
            assert forall|a: int| 0 <= a < bucket.len() implies key_slot(
                hashes,
                #[trigger] bucket[a],
                d1,
                d2,
            ) != p by {
                assert(slots[key_slot(hashes, bucket[a], d1, d2)].is_none());
            }
            assert(new_slots[p] == slots[p]);
        }
    }
}

/// Serving the buckets from the `j`-th on keeps every key in its place.
pub proof fn lemma_serve_buckets(
    hashes: Seq<Hashes>,
    order: Seq<(int, int)>,
    j: int,
    disps: Seq<(u32, u32)>,
    slots: Seq<Option<int>>,
)
    requires
        hashes.len() > 0,
        0 <= j <= order.len(),
        order.no_duplicates(),
        forall|a: int, b: int| 0 <= a < b < order.len() ==> (#[trigger] order[a]).1 != (
        #[trigger] order[b]).1,
        forall|a: int|
            0 <= a < order.len() ==> 0 <= (#[trigger] order[a]).1 < bucket_count(
                hashes.len() as int,
            ),
        placed_right(hashes, disps, slots, served(order, j)),
        serve_buckets(hashes, order, j, disps, slots).is_some(),
    ensures
        placed_right(
            hashes,
            serve_buckets(hashes, order, j, disps, slots).unwrap().0,
            serve_buckets(hashes, order, j, disps, slots).unwrap().1,
            served(order, order.len() as int),
        ),
    decreases order.len() - j,
{
    if j < order.len() {
        let b = order[j].1;
        let bucket = members(hashes, b);
        lemma_first_pair_fits(hashes, bucket, slots, 0, 0);
        let pair = first_pair(hashes, bucket, slots, 0, 0).unwrap();
        assert(!served(order, j).contains(b)) by {
            if served(order, j).contains(b) {
                let a = choose|a: int| 0 <= a < j && a < order.len() && (#[trigger] order[a]).1 == b;
                assert(order[a].1 != order[j].1);
            }
        }
        lemma_serve_one(hashes, disps, slots, served(order, j), b, pair.0, pair.1);
        assert(served(order, j).insert(b) =~= served(order, j + 1)) by {
            assert forall|c: int| served(order, j).insert(b).contains(c) implies served(
                order,
                j + 1,
            ).contains(c) by {
                if c == b {
                    assert(order[j].1 == c);
                } else {
                    let a = choose|a: int|
                        0 <= a < j && a < order.len() && (#[trigger] order[a]).1 == c;
                    assert(order[a].1 == c);
                }
            }
            assert forall|c: int| served(order, j + 1).contains(c) implies served(
                order,
                j,
            ).insert(b).contains(c) by {
                let a = choose|a: int|
                    0 <= a < j + 1 && a < order.len() && (#[trigger] order[a]).1 == c;
                if a < j {
                    assert(order[a].1 == c);
                }
            }
        }
        lemma_serve_buckets(
            hashes,
            order,
            j + 1,
            disps.update(b, (pair.0 as u32, pair.1 as u32)),
            place_first(hashes, bucket, slots, pair.0, pair.1, bucket.len() as int),
        );
    }
}

/// The construction yields a perfect hash: every slot holds a key that its
/// displacement pair sends there, and every key stands in the slot that its
/// displacement pair sends it to.
pub proof fn lemma_generated_is_perfect(hashes: Seq<Hashes>)
    requires
        chd_generate(hashes).is_some(),
    ensures
        chd_generate(hashes).unwrap().map.len() == hashes.len(),
        chd_generate(hashes).unwrap().disps.len() == bucket_count(hashes.len() as int),
        forall|p: int|
            0 <= p < hashes.len() ==> 0 <= (#[trigger] chd_generate(hashes).unwrap().map[p])
                < hashes.len() && slot_of_key(
                hashes,
                chd_generate(hashes).unwrap().disps,
                chd_generate(hashes).unwrap().map[p],
            ) == p,
        forall|i: int|
            0 <= i < hashes.len() ==> 0 <= #[trigger] slot_of_key(
                hashes,
                chd_generate(hashes).unwrap().disps,
                i,
            ) < hashes.len() && chd_generate(hashes).unwrap().map[slot_of_key(
                hashes,
                chd_generate(hashes).unwrap().disps,
                i,
            )] == i,
{
    let n = hashes.len() as int;
    let buckets = bucket_count(n);
    let order = bucket_order(hashes);
    let first_disps = Seq::new(buckets as nat, |b: int| (0u32, 0u32));
    let first_slots = Seq::new(hashes.len(), |p: int| None::<int>);
    let table = chd_generate(hashes).unwrap();
    if n > 0 {
        lemma_bucket_order(hashes);
        assert forall|a: int, b: int| 0 <= a < b < order.len() implies (#[trigger] order[a]).1 != (
        #[trigger] order[b]).1 by {
            lemma_order_names_buckets_once(hashes, a, b);
        }
        assert(placed_right(hashes, first_disps, first_slots, served(order, 0)));
        lemma_serve_buckets(hashes, order, 0, first_disps, first_slots);
        let served_all = served(order, order.len() as int);
        let end = serve_buckets(hashes, order, 0, first_disps, first_slots).unwrap();
        assert(placed_right(hashes, end.0, end.1, served_all));
        assert forall|b: int| 0 <= b < buckets implies served_all.contains(b) by {
            assert(order.contains(bucket_weights(hashes)[b]));
            let a = choose|a: int| 0 <= a < order.len() && order[a] == bucket_weights(hashes)[b];
            assert(order[a].1 == b);
        }
        assert forall|p: int| 0 <= p < hashes.len() implies 0 <= (#[trigger] table.map[p])
            < hashes.len() && slot_of_key(hashes, table.disps, table.map[p]) == p by {
            assert(end.1[p].is_some());
        }
        assert forall|i: int| 0 <= i < hashes.len() implies 0 <= #[trigger] slot_of_key(
            hashes,
            table.disps,
            i,
        ) < hashes.len() && table.map[slot_of_key(hashes, table.disps, i)] == i by {
            let b = bucket_of_key(hashes, i);
            assert(0 <= b < buckets);
            assert(served_all.contains(bucket_of_key(hashes, i)));
        }
    }
}

/// The order of the buckets names no bucket twice.
pub proof fn lemma_order_names_buckets_once(hashes: Seq<Hashes>, a: int, b: int)
    requires
        0 <= a < b < bucket_order(hashes).len(),
    ensures
        bucket_order(hashes)[a].1 != bucket_order(hashes)[b].1,
{
    broadcast use vstd::seq_lib::group_to_multiset_ensures;

    let w = bucket_weights(hashes);
    let o = bucket_order(hashes);
    lemma_bucket_order(hashes);
    crate::chd::lemma_pair_total_order();
    w.lemma_sort_by_ensures(crate::chd::pair_order());
    assert(o.contains(o[a]));
    assert(o.contains(o[b]));
    assert(w.to_multiset().count(o[a]) > 0);
    assert(w.to_multiset().count(o[b]) > 0);
    assert(w.contains(o[a]));
    assert(w.contains(o[b]));
    let x = choose|x: int| 0 <= x < w.len() && w[x] == o[a];
    let y = choose|y: int| 0 <= y < w.len() && w[y] == o[b];
    assert(o[a] != o[b]);
}

} // verus!
