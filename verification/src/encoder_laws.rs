//! What holds of the maps that the encoder writes.

use crate::chd::{chd_first_seed, chd_generate, ChdTable, key_hashes};
use crate::encoding::{
    arranged, chd_extra, chd_map_encoding, has_duplicate_key, has_long_key, keyed, keyed_le,
    keyed_order, map_node, ordered_layout, ordered_map_encoding, sorted_keyed, sorted_order,
};
use crate::hashing::{Hashes, phf_hash};
use crate::heap_order::{
    inorder_rank, lemma_rank_is_permutation, lemma_rank_is_search_tree, position_of_rank,
};
use crate::layout::{bucket_count, chd_displacement, chd_seed};
use crate::map_laws::{
    chd_slot, keys_in_bounds, stored_key, under_left, under_right, well_formed_chd,
    well_formed_ordered,
};
use crate::order::lex_lt;
use crate::readback::{
    lemma_disps_part, lemma_map_node_pieces, lemma_map_node_reads, lemma_read_word,
    lemma_read_words, map_header, map_layout_ok,
};
use crate::sorting::lemma_sorted_keyed;
use vstd::prelude::*;

verus! {

/// Whether an order names every position below `count` exactly once.
pub open spec fn is_permutation(order: Seq<int>, count: int) -> bool {
    &&& order.len() == count
    &&& forall|i: int| 0 <= i < count ==> 0 <= #[trigger] order[i] < count
    &&& forall|i: int, j: int| 0 <= i < j < count ==> #[trigger] order[i] != #[trigger] order[j]
    &&& forall|p: int| 0 <= p < count ==> #[trigger] order.contains(p)
}

/// The sorted order of keys names every key once, and lists them in
/// ascending order; strictly so where no key occurs twice.
pub proof fn lemma_sorted_order(keys: Seq<Seq<u8>>)
    ensures
        is_permutation(sorted_order(keys), keys.len() as int),
        forall|s: int, t: int|
            0 <= s < t < keys.len() ==> keyed_le(
                (#[trigger] keys[sorted_order(keys)[s]], s),
                (#[trigger] keys[sorted_order(keys)[t]], t),
            ),
        !has_duplicate_key(keys) ==> forall|s: int, t: int|
            0 <= s < t < keys.len() ==> lex_lt(
                #[trigger] keys[sorted_order(keys)[s]],
                #[trigger] keys[sorted_order(keys)[t]],
            ),
{
    let sk = sorted_keyed(keys);
    let so = sorted_order(keys);
    let n = keys.len() as int;
    lemma_sorted_keyed(keys);
    assert forall|i: int, j: int| 0 <= i < j < n implies #[trigger] so[i] != #[trigger] so[j] by {
        assert(sk[i] != sk[j]);
        assert(sk[i].0 == keys[sk[i].1]);
        assert(sk[j].0 == keys[sk[j].1]);
    }
    assert forall|p: int| 0 <= p < n implies #[trigger] so.contains(p) by {
        assert(sk.contains(keyed(keys)[p]));
        let s = choose|s: int| 0 <= s < sk.len() && sk[s] == keyed(keys)[p];
        assert(so[s] == p);
    }
    assert forall|s: int, t: int| 0 <= s < t < n implies keyed_le(
        (#[trigger] keys[so[s]], s),
        (#[trigger] keys[so[t]], t),
    ) by {
        assert(keyed_order()(sk[s], sk[t]));
        assert(sk[s].0 == keys[sk[s].1]);
        assert(sk[t].0 == keys[sk[t].1]);
    }
    if !has_duplicate_key(keys) {
        assert forall|s: int, t: int| 0 <= s < t < n implies lex_lt(
            #[trigger] keys[so[s]],
            #[trigger] keys[so[t]],
        ) by {
            assert(keyed_order()(sk[s], sk[t]));
            assert(sk[s].0 == keys[sk[s].1]);
            assert(sk[t].0 == keys[sk[t].1]);
            assert(so[s] != so[t]);
            if keys[so[s]] == keys[so[t]] {
                if so[s] < so[t] {
                    assert(keys[so[s]] == keys[so[t]]);
                } else {
                    assert(keys[so[t]] == keys[so[s]]);
                }
            }
        }
    }
}

/// The layout of an ordered map names every entry once.
pub proof fn lemma_ordered_layout_is_permutation(keys: Seq<Seq<u8>>)
    ensures
        is_permutation(ordered_layout(keys), keys.len() as int),
{
    let n = keys.len() as int;
    let so = sorted_order(keys);
    let order = ordered_layout(keys);
    lemma_sorted_order(keys);
    lemma_rank_is_permutation(n);
    assert forall|i: int| 0 <= i < n implies 0 <= #[trigger] order[i] < n by {
        assert(0 <= inorder_rank(i + 1, n) < n);
    }
    assert forall|i: int, j: int| 0 <= i < j < n implies #[trigger] order[i] != #[trigger] order[j] by {
        let s = inorder_rank(i + 1, n);
        let t = inorder_rank(j + 1, n);
        assert(s != t);
        if s < t {
            assert(so[s] != so[t]);
        } else {
            assert(so[t] != so[s]);
        }
    }
    assert forall|p: int| 0 <= p < n implies #[trigger] order.contains(p) by {
        assert(so.contains(p));
        let s = choose|s: int| 0 <= s < so.len() && so[s] == p;
        let k = position_of_rank(1, s, n);
        assert(inorder_rank(k, n) == s);
        assert(order[k - 1] == p);
    }
}

/// An arrangement of keys by a permutation holds no long key and no key
/// twice, where the keys themselves hold none.
pub proof fn lemma_arranged_keys(keys: Seq<Seq<u8>>, order: Seq<int>)
    requires
        is_permutation(order, keys.len() as int),
        !has_long_key(keys),
        !has_duplicate_key(keys),
    ensures
        arranged(keys, order).len() == keys.len(),
        forall|k: int| 0 <= k < keys.len() ==> (#[trigger] arranged(keys, order)[k]).len() <= 255,
        forall|i: int, j: int|
            0 <= i < j < keys.len() ==> #[trigger] arranged(keys, order)[i] != #[trigger] arranged(
                keys,
                order,
            )[j],
{
    let placed = arranged(keys, order);
    assert forall|k: int| 0 <= k < keys.len() implies (#[trigger] placed[k]).len() <= 255 by {
        assert(keys[order[k]].len() <= 255);
    }
    assert forall|i: int, j: int| 0 <= i < j < keys.len() implies #[trigger] placed[i]
        != #[trigger] placed[j] by {
        assert(order[i] != order[j]);
        if order[i] < order[j] {
            assert(keys[order[i]] != keys[order[j]]);
        } else {
            assert(keys[order[j]] != keys[order[i]]);
        }
    }
}

/// Every key of a map node lies inside the node, and entry `i` holds key `i`
/// of the arrangement that was laid out.
pub proof fn lemma_node_keys(tag: u8, extra: Seq<u8>, keys: Seq<Seq<u8>>, parts: Seq<Seq<u8>>)
    requires
        map_layout_ok(tag, extra, keys, parts),
    ensures
        keys_in_bounds(map_node(tag, extra, keys, parts), map_header(tag, keys.len() as int)),
        forall|i: int|
            0 <= i < keys.len() ==> #[trigger] stored_key(
                map_node(tag, extra, keys, parts),
                map_header(tag, keys.len() as int),
                i,
            ) == keys[i],
{
    let node = map_node(tag, extra, keys, parts);
    let header = map_header(tag, keys.len() as int);
    lemma_map_node_pieces(tag, extra, keys, parts);
    assert forall|i: int| 0 <= i < header.child_count implies (
    #[trigger] crate::layout::map_descriptor(node, header, i)).key_offset
        + crate::layout::map_descriptor(node, header, i).key_length <= node.len() by {
        lemma_map_node_reads(tag, extra, keys, parts, i);
    }
    assert forall|i: int| 0 <= i < keys.len() implies #[trigger] stored_key(node, header, i)
        == keys[i] by {
        lemma_map_node_reads(tag, extra, keys, parts, i);
    }
}

/// The keys of an ordered map, as the encoder arranges them, form a search
/// tree.
pub proof fn lemma_ordered_layout_is_search_tree(keys: Seq<Seq<u8>>, j: int, k: int)
    requires
        !has_duplicate_key(keys),
        1 <= j <= keys.len(),
        1 <= k <= keys.len(),
    ensures
        under_left(j, k) ==> lex_lt(
            arranged(keys, ordered_layout(keys))[j - 1],
            arranged(keys, ordered_layout(keys))[k - 1],
        ),
        under_right(j, k) ==> lex_lt(
            arranged(keys, ordered_layout(keys))[k - 1],
            arranged(keys, ordered_layout(keys))[j - 1],
        ),
{
    let n = keys.len() as int;
    let so = sorted_order(keys);
    lemma_sorted_order(keys);
    lemma_rank_is_permutation(n);
    lemma_rank_is_search_tree(j, k, n);
    let s = inorder_rank(j, n);
    let t = inorder_rank(k, n);
    assert(0 <= s < n && 0 <= t < n);
    if under_left(j, k) {
        assert(lex_lt(keys[so[s]], keys[so[t]]));
    }
    if under_right(j, k) {
        assert(lex_lt(keys[so[t]], keys[so[s]]));
    }
}

/// The ordered map that the encoder writes is well-formed, and entry `i` of
/// it holds the key that the Eytzinger layout of the sorted keys puts there.
pub proof fn lemma_ordered_map_is_well_formed(keys: Seq<Seq<u8>>, parts: Seq<Seq<u8>>)
    requires
        keys.len() == parts.len(),
        !has_long_key(keys),
        !has_duplicate_key(keys),
        ordered_map_encoding(keys, parts).is_ok(),
    ensures
        well_formed_ordered(
            ordered_map_encoding(keys, parts).unwrap(),
            map_header(0x03, keys.len() as int),
        ),
        crate::layout::parse_header(ordered_map_encoding(keys, parts).unwrap()) == Ok::<
            crate::raw_cursor::RawCursor,
            crate::types::CursorError,
        >(map_header(0x03, keys.len() as int)),
        is_permutation(ordered_layout(keys), keys.len() as int),
        map_layout_ok(
            0x03,
            Seq::empty(),
            arranged(keys, ordered_layout(keys)),
            arranged(parts, ordered_layout(keys)),
        ),
        forall|i: int|
            0 <= i < keys.len() ==> #[trigger] stored_key(
                ordered_map_encoding(keys, parts).unwrap(),
                map_header(0x03, keys.len() as int),
                i,
            ) == keys[sorted_order(keys)[inorder_rank(i + 1, keys.len() as int)]],
{
    let n = keys.len() as int;
    let order = ordered_layout(keys);
    let pk = arranged(keys, order);
    let pp = arranged(parts, order);
    let node = map_node(0x03, Seq::empty(), pk, pp);
    let header = map_header(0x03, n);
    lemma_ordered_layout_is_permutation(keys);
    lemma_arranged_keys(keys, order);
    assert(map_layout_ok(0x03, Seq::empty(), pk, pp));
    lemma_map_node_pieces(0x03, Seq::empty(), pk, pp);
    lemma_node_keys(0x03, Seq::empty(), pk, pp);
    assert(header.child_count == n);
    assert forall|j: int, k: int|
        1 <= j <= header.child_count && 1 <= k <= header.child_count && #[trigger] under_left(
            j,
            k,
        ) implies lex_lt(stored_key(node, header, j - 1), stored_key(node, header, k - 1)) by {
        lemma_ordered_layout_is_search_tree(keys, j, k);
    }
    assert forall|j: int, k: int|
        1 <= j <= header.child_count && 1 <= k <= header.child_count && #[trigger] under_right(
            j,
            k,
        ) implies lex_lt(stored_key(node, header, k - 1), stored_key(node, header, j - 1)) by {
        lemma_ordered_layout_is_search_tree(keys, j, k);
    }
}

/// The seed that the construction settles on is one under which it succeeds.
pub proof fn lemma_first_seed(keys: Seq<Seq<u8>>, attempt: int)
    requires
        0 <= attempt,
        chd_first_seed(keys, attempt).is_some(),
    ensures
        chd_generate(key_hashes(keys, chd_first_seed(keys, attempt).unwrap().0)) == Some(
            chd_first_seed(keys, attempt).unwrap().1,
        ),
    decreases crate::chd::SEED_ATTEMPTS - attempt,
{
    if attempt < crate::chd::SEED_ATTEMPTS {
        let seed = (crate::chd::FIRST_SEED + attempt) as u32;
        if chd_generate(key_hashes(keys, seed)).is_none() {
            lemma_first_seed(keys, attempt + 1);
        }
    }
}

/// The table of a perfect hash names every key once.
pub proof fn lemma_table_is_permutation(hashes: Seq<Hashes>)
    requires
        chd_generate(hashes).is_some(),
    ensures
        is_permutation(chd_generate(hashes).unwrap().map, hashes.len() as int),
{
    let table = chd_generate(hashes).unwrap();
    let n = hashes.len() as int;
    crate::chd_laws::lemma_generated_is_perfect(hashes);
    assert forall|i: int, j: int| 0 <= i < j < n implies #[trigger] table.map[i]
        != #[trigger] table.map[j] by {
        assert(crate::chd_laws::slot_of_key(hashes, table.disps, table.map[i]) == i);
        assert(crate::chd_laws::slot_of_key(hashes, table.disps, table.map[j]) == j);
    }
    assert forall|p: int| 0 <= p < n implies #[trigger] table.map.contains(p) by {
        let slot = crate::chd_laws::slot_of_key(hashes, table.disps, p);
        assert(table.map[slot] == p);
    }
}

/// The seed and the displacement pairs are read back from the header of a
/// perfect-hash map node.
pub proof fn lemma_chd_header_reads(
    seed: u32,
    table: ChdTable,
    keys: Seq<Seq<u8>>,
    parts: Seq<Seq<u8>>,
    bucket: int,
)
    requires
        table.disps.len() == bucket_count(keys.len() as int),
        map_layout_ok(0x20, chd_extra(seed, table), keys, parts),
        0 <= bucket < table.disps.len(),
    ensures
        chd_seed(map_node(0x20, chd_extra(seed, table), keys, parts)) == Ok::<
            u32,
            crate::types::CursorError,
        >(seed),
        chd_displacement(map_node(0x20, chd_extra(seed, table), keys, parts), bucket) == Ok::<
            (u32, u32),
            crate::types::CursorError,
        >(table.disps[bucket]),
{
    let extra = chd_extra(seed, table);
    let node = map_node(0x20, extra, keys, parts);
    let pairs = crate::encoding::disps_first(table.disps, table.disps.len() as int);
    lemma_map_node_pieces(0x20, extra, keys, parts);
    crate::bytes::lemma_u32_le_roundtrip(seed);
    lemma_disps_part(table.disps, bucket, table.disps.len() as int);
    assert(extra =~= crate::bytes::u32_to_le(seed) + pairs);
    assert(node.subrange(5, 9) =~= extra.subrange(0, 4));
    assert(extra.subrange(0, 4) =~= crate::bytes::u32_to_le(seed));
    lemma_read_word(node, 5, seed);
    assert(node.subrange(9 + 8 * bucket, 9 + 8 * bucket + 8) =~= extra.subrange(
        4 + 8 * bucket,
        4 + 8 * bucket + 8,
    ));
    assert(extra.subrange(4 + 8 * bucket, 4 + 8 * bucket + 8) =~= pairs.subrange(
        8 * bucket,
        8 * bucket + 8,
    ));
    lemma_read_words(node, 9 + 8 * bucket, table.disps[bucket].0, table.disps[bucket].1);
}

/// The seed and the table that the encoder settles on for a perfect-hash map.
pub open spec fn chosen_seed(keys: Seq<Seq<u8>>) -> u32 {
    chd_first_seed(keys, 0).unwrap().0
}

/// The table that the encoder settles on for a perfect-hash map.
pub open spec fn chosen_table(keys: Seq<Seq<u8>>) -> ChdTable {
    chd_first_seed(keys, 0).unwrap().1
}

/// The perfect-hash map that the encoder writes is well-formed, and entry `i`
/// of it holds the key that the construction placed in slot `i`.
pub proof fn lemma_chd_map_is_well_formed(keys: Seq<Seq<u8>>, parts: Seq<Seq<u8>>)
    requires
        keys.len() == parts.len(),
        !has_long_key(keys),
        !has_duplicate_key(keys),
        chd_map_encoding(keys, parts).is_ok(),
    ensures
        well_formed_chd(chd_map_encoding(keys, parts).unwrap(), map_header(0x20, keys.len() as int)),
        crate::layout::parse_header(chd_map_encoding(keys, parts).unwrap()) == Ok::<
            crate::raw_cursor::RawCursor,
            crate::types::CursorError,
        >(map_header(0x20, keys.len() as int)),
        is_permutation(chosen_table(keys).map, keys.len() as int),
        map_layout_ok(
            0x20,
            chd_extra(chosen_seed(keys), chosen_table(keys)),
            arranged(keys, chosen_table(keys).map),
            arranged(parts, chosen_table(keys).map),
        ),
        forall|i: int|
            0 <= i < keys.len() ==> #[trigger] stored_key(
                chd_map_encoding(keys, parts).unwrap(),
                map_header(0x20, keys.len() as int),
                i,
            ) == keys[chosen_table(keys).map[i]],
{
    let n = keys.len() as int;
    let seed = chosen_seed(keys);
    let table = chosen_table(keys);
    let hashes = key_hashes(keys, seed);
    let extra = chd_extra(seed, table);
    let pk = arranged(keys, table.map);
    let pp = arranged(parts, table.map);
    let node = map_node(0x20, extra, pk, pp);
    let header = map_header(0x20, n);
    lemma_first_seed(keys, 0);
    crate::chd_laws::lemma_generated_is_perfect(hashes);
    lemma_table_is_permutation(hashes);
    lemma_arranged_keys(keys, table.map);
    crate::serializer::lemma_disps_len(table.disps, table.disps.len() as int);
    assert(map_layout_ok(0x20, extra, pk, pp));
    lemma_map_node_pieces(0x20, extra, pk, pp);
    lemma_node_keys(0x20, extra, pk, pp);
    assert(header.child_count == n);
    assert forall|i: int| 0 <= i < header.child_count implies chd_slot(
        node,
        header,
        #[trigger] stored_key(node, header, i),
    ) == i by {
        let k = table.map[i];
        let h = phf_hash(keys[k], seed as u64);
        assert(hashes[k] == h);
        let bucket = (h.g as int) % bucket_count(n);
        assert(bucket == crate::chd_laws::bucket_of_key(hashes, k));
        assert(0 <= bucket < bucket_count(n));
        lemma_chd_header_reads(seed, table, pk, pp, bucket);
        assert(stored_key(node, header, i) == keys[k]);
        assert(crate::chd_laws::slot_of_key(hashes, table.disps, k) == i);
    }
}

} // verus!
