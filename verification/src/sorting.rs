//! Sorting the keys of a map, and what follows from their being sorted.

use crate::encoding::{has_duplicate_key, keyed, keyed_le, keyed_order, sorted_keyed, sorted_order};
use crate::order::{keys_equal, lemma_lex_asymmetric, lemma_lex_total, lemma_lex_transitive, lex_lt};
use vstd::prelude::*;
use vstd::relations::{sorted_by, total_ordering};
use vstd::seq_lib::lemma_sorted_unique;

verus! {

/// The keys and positions that a list of pairs holds.
pub open spec fn keyed_view(pairs: Seq<(&[u8], usize)>) -> Seq<(Seq<u8>, int)> {
    Seq::new(pairs.len(), |i: int| (pairs[i].0@, pairs[i].1 as int))
}

/// Sorts pairs of a key and a position by `<[T]>::sort`. Byte slices compare
/// lexicographically and tuples compare component by component, so the
/// result holds the same pairs in ascending order of `keyed_le`.
#[verifier::external_body]
fn sort_keyed(pairs: &mut Vec<(&[u8], usize)>)
    ensures
        keyed_view(final(pairs)@).to_multiset() == keyed_view(old(pairs)@).to_multiset(),
        sorted_by(keyed_view(final(pairs)@), keyed_order()),
{
    pairs.sort();
}

/// Keys with their positions are totally ordered.
pub proof fn lemma_keyed_total_order()
    ensures
        total_ordering(keyed_order()),
{
    let r = keyed_order();
    assert forall|x: (Seq<u8>, int)| #[trigger] r(x, x) by {}
    assert forall|x: (Seq<u8>, int), y: (Seq<u8>, int)| #[trigger] r(x, y) && #[trigger] r(
        y,
        x,
    ) implies x == y by {
        lemma_lex_asymmetric(x.0, y.0);
        lemma_lex_asymmetric(x.0, x.0);
    }
    assert forall|x: (Seq<u8>, int), y: (Seq<u8>, int), z: (Seq<u8>, int)| #[trigger] r(x, y)
        && #[trigger] r(y, z) implies r(x, z) by {
        if lex_lt(x.0, y.0) && lex_lt(y.0, z.0) {
            lemma_lex_transitive(x.0, y.0, z.0);
        }
    }
    assert forall|x: (Seq<u8>, int), y: (Seq<u8>, int)| #[trigger] r(x, y) || #[trigger] r(
        y,
        x,
    ) by {
        lemma_lex_total(x.0, y.0);
    }
}

/// What the sorted keys are: the same keys, each with its own position, in
/// ascending order, every position once.
pub proof fn lemma_sorted_keyed(keys: Seq<Seq<u8>>)
    ensures
        sorted_keyed(keys).len() == keys.len(),
        sorted_by(sorted_keyed(keys), keyed_order()),
        sorted_keyed(keys).no_duplicates(),
        forall|s: int|
            0 <= s < keys.len() ==> 0 <= (#[trigger] sorted_keyed(keys)[s]).1 < keys.len()
                && sorted_keyed(keys)[s].0 == keys[sorted_keyed(keys)[s].1],
        forall|i: int| 0 <= i < keys.len() ==> sorted_keyed(keys).contains(#[trigger] keyed(keys)[i]),
{
    broadcast use vstd::seq_lib::group_to_multiset_ensures;

    let k = keyed(keys);
    let s = sorted_keyed(keys);
    lemma_keyed_total_order();
    k.lemma_sort_by_ensures(keyed_order());
    assert(k.len() == k.to_multiset().len());
    assert(s.len() == s.to_multiset().len());
    assert(k.no_duplicates());
    k.lemma_multiset_has_no_duplicates();
    s.lemma_multiset_has_no_duplicates_conv();
    assert forall|t: int| 0 <= t < keys.len() implies 0 <= (#[trigger] s[t]).1 < keys.len() && s[t].0
        == keys[s[t].1] by {
        assert(s.contains(s[t]));
        assert(k.to_multiset().count(s[t]) > 0);
        assert(k.contains(s[t]));
        let i = choose|i: int| 0 <= i < k.len() && k[i] == s[t];
        assert(k[i] == (keys[i], i));
    }
    assert forall|i: int| 0 <= i < keys.len() implies s.contains(#[trigger] k[i]) by {
        assert(k.contains(k[i]));
        assert(s.to_multiset().count(k[i]) > 0);
    }
}

/// Whether two neighbours among the sorted keys are equal.
pub open spec fn has_equal_neighbours(keys: Seq<Seq<u8>>) -> bool {
    exists|s: int|
        0 <= s < keys.len() - 1 && (#[trigger] sorted_keyed(keys)[s]).0 == sorted_keyed(keys)[s
            + 1].0
}

/// A key occurs twice exactly if two neighbours among the sorted keys are
/// equal.
pub proof fn lemma_duplicates_are_neighbours(keys: Seq<Seq<u8>>)
    ensures
        has_duplicate_key(keys) == has_equal_neighbours(keys),
{
    let sk = sorted_keyed(keys);
    let r = keyed_order();
    lemma_sorted_keyed(keys);
    if has_equal_neighbours(keys) {
        let s = choose|s: int| 0 <= s < keys.len() - 1 && (#[trigger] sk[s]).0 == sk[s + 1].0;
        let a = sk[s].1;
        let b = sk[s + 1].1;
        assert(sk[s] != sk[s + 1]);
        assert(a != b);
        if a < b {
            assert(keys[a] == keys[b]);
        } else {
            assert(keys[b] == keys[a]);
        }
    }
    if has_duplicate_key(keys) {
        let (i, j) = choose|i: int, j: int|
            0 <= i < j < keys.len() && #[trigger] keys[i] == #[trigger] keys[j];
        assert(sk.contains(keyed(keys)[i]));
        assert(sk.contains(keyed(keys)[j]));
        let at_i = choose|s: int| 0 <= s < sk.len() && sk[s] == keyed(keys)[i];
        let at_j = choose|s: int| 0 <= s < sk.len() && sk[s] == keyed(keys)[j];
        assert(at_i != at_j);
        let lo = if at_i < at_j {
            at_i
        } else {
            at_j
        };
        let hi = if at_i < at_j {
            at_j
        } else {
            at_i
        };
        assert(sk[lo].0 == sk[hi].0);
        assert(r(sk[lo], sk[lo + 1]));
        if lo + 1 < hi {
            assert(r(sk[lo + 1], sk[hi]));
        }
        lemma_lex_asymmetric(sk[lo].0, sk[lo + 1].0);
        assert(sk[lo].0 == sk[lo + 1].0);
    }
}

/// The positions of the keys of a list of entries, in ascending order of the
/// keys; among equal keys the earlier entry comes first.
pub fn sorted_positions(entries: &Vec<(&[u8], &Vec<u8>)>) -> (res: Vec<usize>)
    ensures
        res@.len() == entries@.len(),
        forall|s: int|
            0 <= s < res@.len() ==> (#[trigger] res@[s]) as int == sorted_order(
                crate::serializer::placed_keys(entries@),
            )[s],
        forall|s: int| 0 <= s < res@.len() ==> (#[trigger] res@[s]) < entries@.len(),
{
    let ghost keys = crate::serializer::placed_keys(entries@);
    let n = entries.len();
    let mut pairs: Vec<(&[u8], usize)> = Vec::new();
    let mut i: usize = 0;
    while i < n
        invariant
            i <= n,
            n == entries@.len(),
            keys == crate::serializer::placed_keys(entries@),
            pairs@.len() == i,
            forall|j: int| 0 <= j < i ==> (#[trigger] pairs@[j]).0@ == keys[j] && pairs@[j].1 == j,
        decreases n - i,
    {
        pairs.push((entries[i].0, i));
        i += 1;
    }
    assert(keyed_view(pairs@) =~= keyed(keys));
    sort_keyed(&mut pairs);
    proof {
        lemma_keyed_total_order();
        lemma_sorted_keyed(keys);
        keyed(keys).lemma_sort_by_ensures(keyed_order());
        lemma_sorted_unique(keyed_view(pairs@), sorted_keyed(keys), keyed_order());
        assert(keyed_view(pairs@) =~= sorted_keyed(keys));
        assert(pairs@.len() == keyed_view(pairs@).len());
    }
    let mut res: Vec<usize> = Vec::new();
    let mut s: usize = 0;
    while s < n
        invariant
            s <= n,
            n == entries@.len(),
            n == pairs@.len(),
            keys == crate::serializer::placed_keys(entries@),
            keyed_view(pairs@) == sorted_keyed(keys),
            res@.len() == s,
            forall|t: int| 0 <= t < s ==> (#[trigger] res@[t]) as int == sorted_order(keys)[t],
            forall|t: int| 0 <= t < s ==> (#[trigger] res@[t]) < n,
        decreases n - s,
    {
        proof {
            lemma_sorted_keyed(keys);
            assert(keyed_view(pairs@)[s as int] == (pairs@[s as int].0@, pairs@[s as int].1 as int));
        }
        res.push(pairs[s].1);
        s += 1;
    }
    res
}

/// Whether some key occurs twice among the entries, given the positions of
/// the keys in ascending order.
pub(crate) fn has_duplicates(entries: &Vec<(&[u8], &Vec<u8>)>, sorted: &Vec<usize>) -> (res: bool)
    requires
        sorted@.len() == entries@.len(),
        forall|s: int|
            0 <= s < sorted@.len() ==> (#[trigger] sorted@[s]) as int == sorted_order(
                crate::serializer::placed_keys(entries@),
            )[s],
        forall|s: int| 0 <= s < sorted@.len() ==> (#[trigger] sorted@[s]) < entries@.len(),
    ensures
        res == has_duplicate_key(crate::serializer::placed_keys(entries@)),
{
    let ghost keys = crate::serializer::placed_keys(entries@);
    let n = entries.len();
    proof {
        lemma_duplicates_are_neighbours(keys);
        lemma_sorted_keyed(keys);
    }
    if n < 2 {
        return false;
    }
    let mut s: usize = 0;
    while s < n - 1
        invariant
            s <= n - 1,
            2 <= n,
            n == entries@.len(),
            n == sorted@.len(),
            keys == crate::serializer::placed_keys(entries@),
            keys.len() == n,
            sorted_keyed(keys).len() == n,
            has_duplicate_key(keys) == has_equal_neighbours(keys),
            forall|t: int|
                0 <= t < sorted@.len() ==> (#[trigger] sorted@[t]) as int == sorted_order(keys)[t],
            forall|t: int| 0 <= t < sorted@.len() ==> (#[trigger] sorted@[t]) < entries@.len(),
            forall|t: int|
                0 <= t < keys.len() ==> 0 <= (#[trigger] sorted_keyed(keys)[t]).1 < keys.len()
                    && sorted_keyed(keys)[t].0 == keys[sorted_keyed(keys)[t].1],
            forall|t: int| 0 <= t < s ==> (#[trigger] sorted_keyed(keys)[t]).0 != sorted_keyed(keys)[t + 1].0,
        decreases n - s,
    {
        let a = sorted[s];
        let b = sorted[s + 1];
        proof {
            assert(sorted@[s as int] as int == sorted_order(keys)[s as int]);
            assert(sorted@[s + 1] as int == sorted_order(keys)[s + 1]);
            assert(sorted_keyed(keys)[s as int].1 == a);
            assert(sorted_keyed(keys)[s + 1].1 == b);
            assert(keys[a as int] == entries@[a as int].0@);
            assert(keys[b as int] == entries@[b as int].0@);
        }
        if keys_equal(entries[a].0, entries[b].0) {
            assert(sorted_keyed(keys)[s as int].0 == sorted_keyed(keys)[s + 1].0);
            return true;
        }
        s += 1;
    }
    false
}

} // verus!
