//! What holds of lookups in well-formed maps.

use crate::hashing::{phf_hash, slot_of};
use crate::heap_order::{in_subtree, lemma_in_subtree_children};
use crate::layout::{
    bucket_count, chd_displacement, chd_seed, descriptors_end, descriptors_offset,
    key_bytes_by_index, lemma_ordered_search_step, Located, map_descriptor, map_table,
    ordered_search, value_by_index, value_by_key,
};
use crate::order::{lemma_lex_asymmetric, lemma_lex_total, lex_lt};
use crate::raw_cursor::RawCursor;
use crate::types::{CursorError, ElementTypeCode};
use vstd::prelude::*;

verus! {

/// The bytes that descriptor `index` of a map declares as its key.
pub open spec fn stored_key(buffer: Seq<u8>, header: RawCursor, index: int) -> Seq<u8> {
    let d = map_descriptor(buffer, header, index);
    buffer.subrange(d.key_offset, d.key_offset + d.key_length)
}

/// Whether every key of a map lies inside the node.
pub open spec fn keys_in_bounds(buffer: Seq<u8>, header: RawCursor) -> bool {
    forall|i: int|
        0 <= i < header.child_count ==> (#[trigger] map_descriptor(buffer, header, i)).key_offset
            + map_descriptor(buffer, header, i).key_length <= buffer.len()
}

/// Whether no key of a map occurs twice.
pub open spec fn keys_distinct(buffer: Seq<u8>, header: RawCursor) -> bool {
    forall|i: int, j: int|
        0 <= i < j < header.child_count ==> #[trigger] stored_key(buffer, header, i)
            != #[trigger] stored_key(buffer, header, j)
}

/// Whether position `j` lies under the left child of position `k`.
pub open spec fn under_left(j: int, k: int) -> bool {
    in_subtree(j, 2 * k)
}

/// Whether position `j` lies under the right child of position `k`.
pub open spec fn under_right(j: int, k: int) -> bool {
    in_subtree(j, 2 * k + 1)
}

/// Whether the keys of a map stand in Eytzinger order: every key under the
/// left child of a position is smaller than the key at the position, and every
/// key under the right child is larger.
pub open spec fn is_search_tree(buffer: Seq<u8>, header: RawCursor) -> bool {
    &&& forall|j: int, k: int|
        1 <= j <= header.child_count && 1 <= k <= header.child_count && #[trigger] under_left(j, k)
            ==> lex_lt(stored_key(buffer, header, j - 1), stored_key(buffer, header, k - 1))
    &&& forall|j: int, k: int|
        1 <= j <= header.child_count && 1 <= k <= header.child_count && #[trigger] under_right(
            j,
            k,
        ) ==> lex_lt(stored_key(buffer, header, k - 1), stored_key(buffer, header, j - 1))
}

/// A well-formed ordered map: the descriptor table and the keys lie inside the
/// node, and the keys stand in Eytzinger order.
pub open spec fn well_formed_ordered(buffer: Seq<u8>, header: RawCursor) -> bool {
    &&& header.element_type == ElementTypeCode::OrderedMap
    &&& map_table(buffer, header).is_ok()
    &&& keys_in_bounds(buffer, header)
    &&& is_search_tree(buffer, header)
}

/// In a search tree no key occurs twice.
pub proof fn lemma_search_tree_keys_differ(buffer: Seq<u8>, header: RawCursor, i: int, j: int)
    requires
        is_search_tree(buffer, header),
        0 <= i < header.child_count,
        0 <= j < header.child_count,
        i != j,
    ensures
        stored_key(buffer, header, i) != stored_key(buffer, header, j),
{
    let a = stored_key(buffer, header, i);
    let b = stored_key(buffer, header, j);
    let k = crate::heap_order::meeting_point(i + 1, j + 1);
    let c = stored_key(buffer, header, k - 1);
    crate::heap_order::lemma_meeting_point(i + 1, j + 1);
    lemma_in_subtree_children(i + 1, k);
    lemma_in_subtree_children(j + 1, k);
    lemma_lex_asymmetric(a, b);
    lemma_lex_asymmetric(a, a);
    if under_left(i + 1, k) {
        assert(lex_lt(a, c));
    }
    if under_right(i + 1, k) {
        assert(lex_lt(c, a));
    }
    if under_left(j + 1, k) {
        assert(lex_lt(b, c));
    }
    if under_right(j + 1, k) {
        assert(lex_lt(c, b));
    }
    if k != i + 1 && k != j + 1 {
        if under_left(i + 1, k) {
            crate::order::lemma_lex_transitive(a, c, b);
        } else {
            crate::order::lemma_lex_transitive(b, c, a);
        }
    }
}

/// In a well-formed ordered map no key occurs twice.
pub proof fn lemma_ordered_keys_distinct(buffer: Seq<u8>, header: RawCursor)
    requires
        well_formed_ordered(buffer, header),
    ensures
        keys_distinct(buffer, header),
{
    assert forall|i: int, j: int| 0 <= i < j < header.child_count implies #[trigger] stored_key(
        buffer,
        header,
        i,
    ) != #[trigger] stored_key(buffer, header, j) by {
        lemma_search_tree_keys_differ(buffer, header, i, j);
    }
}

/// The entry that a perfect-hash map sends a key to.
pub open spec fn chd_slot(buffer: Seq<u8>, header: RawCursor, key: Seq<u8>) -> int {
    let seed = chd_seed(buffer).unwrap();
    let hashes = phf_hash(key, seed as u64);
    let count = header.child_count as int;
    slot_of(
        hashes,
        chd_displacement(buffer, (hashes.g as int) % bucket_count(count)).unwrap(),
        count,
    )
}

/// A well-formed perfect-hash map: the descriptor table and the keys lie
/// inside the node, and the hash sends every key to its own entry.
pub open spec fn well_formed_chd(buffer: Seq<u8>, header: RawCursor) -> bool {
    &&& header.element_type == ElementTypeCode::MapCHD
    &&& map_table(buffer, header).is_ok()
    &&& keys_in_bounds(buffer, header)
    &&& forall|i: int|
        0 <= i < header.child_count ==> chd_slot(
            buffer,
            header,
            #[trigger] stored_key(buffer, header, i),
        ) == i
}

/// A well-formed map of either layout.
pub open spec fn well_formed_map(buffer: Seq<u8>, header: RawCursor) -> bool {
    well_formed_ordered(buffer, header) || well_formed_chd(buffer, header)
}

/// Whether the map declares the key.
pub open spec fn declares_key(buffer: Seq<u8>, header: RawCursor, key: Seq<u8>) -> bool {
    exists|i: int| 0 <= i < header.child_count && #[trigger] stored_key(buffer, header, i) == key
}

/// The naive search: the declared entries one after another from `from` on,
/// until one holds the key.
pub open spec fn linear_search(buffer: Seq<u8>, header: RawCursor, key: Seq<u8>, from: int) -> Result<
    Located,
    CursorError,
>
    decreases header.child_count - from,
{
    if from < 0 || from >= header.child_count {
        Err(CursorError::KeyNotFound)
    } else if stored_key(buffer, header, from) == key {
        value_by_index(buffer, header, from)
    } else {
        linear_search(buffer, header, key, from + 1)
    }
}

/// The naive search finds the first entry that holds the key.
pub proof fn lemma_linear_search_finds(
    buffer: Seq<u8>,
    header: RawCursor,
    key: Seq<u8>,
    from: int,
    index: int,
)
    requires
        0 <= from <= index < header.child_count,
        stored_key(buffer, header, index) == key,
        forall|i: int| from <= i < index ==> #[trigger] stored_key(buffer, header, i) != key,
    ensures
        linear_search(buffer, header, key, from) == value_by_index(buffer, header, index),
    decreases index - from,
{
    if from < index {
        assert(stored_key(buffer, header, from) != key);
        lemma_linear_search_finds(buffer, header, key, from + 1, index);
    }
}

/// The naive search misses a key that no entry holds.
pub proof fn lemma_linear_search_misses(buffer: Seq<u8>, header: RawCursor, key: Seq<u8>, from: int)
    requires
        0 <= from,
        forall|i: int|
            from <= i < header.child_count ==> #[trigger] stored_key(buffer, header, i) != key,
    ensures
        linear_search(buffer, header, key, from) == Err::<Located, CursorError>(
            CursorError::KeyNotFound,
        ),
    decreases header.child_count - from,
{
    if from < header.child_count {
        assert(stored_key(buffer, header, from) != key);
        lemma_linear_search_misses(buffer, header, key, from + 1);
    }
}

/// The tree search from position `k`, where the key can only stand under `k`:
/// it finds the entry at position `found` that holds the key, or misses where
/// no entry holds it (`found` is 0).
pub proof fn lemma_tree_search(
    buffer: Seq<u8>,
    header: RawCursor,
    key: Seq<u8>,
    k: int,
    found: int,
)
    requires
        well_formed_ordered(buffer, header),
        1 <= k,
        found == 0 ==> !declares_key(buffer, header, key),
        found != 0 ==> 1 <= found <= header.child_count && stored_key(buffer, header, found - 1)
            == key && in_subtree(found, k),
    ensures
        ordered_search(buffer, header, key, k) == if found == 0 {
            Err::<Located, CursorError>(CursorError::KeyNotFound)
        } else {
            value_by_index(buffer, header, found - 1)
        },
    decreases 2 * header.child_count + 2 - k,
{
    lemma_ordered_search_step(buffer, header, key, k);
    lemma_in_subtree_children(found, k);
    lemma_ordered_keys_distinct(buffer, header);
    if k <= header.child_count {
        let current = stored_key(buffer, header, k - 1);
        assert(map_descriptor(buffer, header, k - 1).key_offset + map_descriptor(
            buffer,
            header,
            k - 1,
        ).key_length <= buffer.len());
        lemma_lex_total(key, current);
        lemma_lex_asymmetric(key, current);
        if key == current {
            if found == 0 {
                assert(stored_key(buffer, header, k - 1) == key);
                assert(false);
            }
            if found != k {
                if found < k {
                    assert(stored_key(buffer, header, found - 1) != stored_key(
                        buffer,
                        header,
                        k - 1,
                    ));
                } else {
                    assert(stored_key(buffer, header, k - 1) != stored_key(
                        buffer,
                        header,
                        found - 1,
                    ));
                }
            }
        } else if lex_lt(key, current) {
            if found != 0 {
                if under_right(found, k) {
                    assert(lex_lt(current, key));
                }
                assert(in_subtree(found, 2 * k));
            }
            lemma_tree_search(buffer, header, key, 2 * k, found);
        } else {
            if found != 0 {
                if under_left(found, k) {
                    assert(lex_lt(key, current));
                }
                assert(in_subtree(found, 2 * k + 1));
            }
            lemma_tree_search(buffer, header, key, 2 * k + 1, found);
        }
    }
}

/// In a well-formed ordered map, a lookup gives what the naive search over
/// the declared entries gives.
pub proof fn lemma_ordered_lookup_is_linear_search(
    buffer: Seq<u8>,
    header: RawCursor,
    key: Seq<u8>,
)
    requires
        well_formed_ordered(buffer, header),
    ensures
        value_by_key(buffer, header, key) == linear_search(buffer, header, key, 0),
{
    lemma_ordered_keys_distinct(buffer, header);
    if declares_key(buffer, header, key) {
        let i = choose|i: int|
            0 <= i < header.child_count && #[trigger] stored_key(buffer, header, i) == key;
        crate::heap_order::lemma_in_subtree_of_root(i + 1);
        lemma_tree_search(buffer, header, key, 1, i + 1);
        assert forall|j: int| 0 <= j < i implies #[trigger] stored_key(buffer, header, j)
            != key by {
            assert(stored_key(buffer, header, j) != stored_key(buffer, header, i));
        }
        lemma_linear_search_finds(buffer, header, key, 0, i);
    } else {
        lemma_tree_search(buffer, header, key, 1, 0);
        lemma_linear_search_misses(buffer, header, key, 0);
    }
}

/// In a well-formed map of either layout, the key of every entry leads to
/// that entry: the lookup by the key gives what the index gives. So the
/// set of values reached by key is the set of values reached by index, and
/// different keys lead to different entries.
pub proof fn lemma_key_leads_to_its_entry(buffer: Seq<u8>, header: RawCursor, index: int)
    requires
        well_formed_map(buffer, header),
        0 <= index < header.child_count,
    ensures
        key_bytes_by_index(buffer, header, index) == Ok::<Seq<u8>, CursorError>(
            stored_key(buffer, header, index),
        ),
        value_by_key(buffer, header, stored_key(buffer, header, index)) == value_by_index(
            buffer,
            header,
            index,
        ),
{
    let key = stored_key(buffer, header, index);
    assert(map_descriptor(buffer, header, index).key_offset + map_descriptor(
        buffer,
        header,
        index,
    ).key_length <= buffer.len());
    if well_formed_ordered(buffer, header) {
        crate::heap_order::lemma_in_subtree_of_root(index + 1);
        lemma_tree_search(buffer, header, key, 1, index + 1);
    } else {
        lemma_chd_tables_readable(buffer, header, key);
    }
}

/// In a well-formed map of either layout, the text of the key at an index
/// leads back to the entry at that index.
pub proof fn lemma_key_text_leads_to_its_entry(buffer: Seq<u8>, header: RawCursor, index: int)
    requires
        well_formed_map(buffer, header),
        crate::layout::key_by_index(buffer, header, index).is_ok(),
    ensures
        value_by_key(
            buffer,
            header,
            vstd::utf8::encode_utf8(crate::layout::key_by_index(buffer, header, index).unwrap()),
        ) == value_by_index(buffer, header, index),
{
    lemma_key_leads_to_its_entry(buffer, header, index);
    vstd::utf8::decode_utf8_encode_utf8(stored_key(buffer, header, index));
}

/// In a well-formed perfect-hash map, the seed and the displacement pair of
/// every bucket lie inside the node.
pub proof fn lemma_chd_tables_readable(buffer: Seq<u8>, header: RawCursor, key: Seq<u8>)
    requires
        well_formed_chd(buffer, header),
        header.child_count > 0,
    ensures
        chd_seed(buffer).is_ok(),
        chd_displacement(
            buffer,
            (phf_hash(key, chd_seed(buffer).unwrap() as u64).g as int) % bucket_count(
                header.child_count as int,
            ),
        ).is_ok(),
        0 <= chd_slot(buffer, header, key) < header.child_count,
{
    let count = header.child_count as int;
    let buckets = bucket_count(count);
    assert(buckets >= 1);
    let hashes = phf_hash(key, chd_seed(buffer).unwrap() as u64);
    let bucket = (hashes.g as int) % buckets;
    assert(0 <= bucket < buckets);
    assert(9 + 8 * bucket + 8 <= descriptors_offset(header));
}

/// Two entries of a well-formed perfect-hash map with different keys are
/// different entries: the hash sends different declared keys to different
/// indices.
pub proof fn lemma_chd_lookup_is_injective(buffer: Seq<u8>, header: RawCursor, i: int, j: int)
    requires
        well_formed_chd(buffer, header),
        0 <= i < header.child_count,
        0 <= j < header.child_count,
        stored_key(buffer, header, i) != stored_key(buffer, header, j),
    ensures
        chd_slot(buffer, header, stored_key(buffer, header, i)) != chd_slot(
            buffer,
            header,
            stored_key(buffer, header, j),
        ),
        chd_slot(buffer, header, stored_key(buffer, header, i)) == i,
        chd_slot(buffer, header, stored_key(buffer, header, j)) == j,
{
}

/// In a well-formed map of either layout, the lookup of a key that the map
/// does not declare is `KeyNotFound`.
pub proof fn lemma_lookup_miss(buffer: Seq<u8>, header: RawCursor, key: Seq<u8>)
    requires
        well_formed_map(buffer, header),
        !declares_key(buffer, header, key),
    ensures
        value_by_key(buffer, header, key) == Err::<Located, CursorError>(CursorError::KeyNotFound),
{
    if well_formed_ordered(buffer, header) {
        lemma_tree_search(buffer, header, key, 1, 0);
    } else if header.child_count > 0 {
        lemma_chd_tables_readable(buffer, header, key);
        let index = chd_slot(buffer, header, key);
        assert(map_descriptor(buffer, header, index).key_offset + map_descriptor(
            buffer,
            header,
            index,
        ).key_length <= buffer.len());
        assert(stored_key(buffer, header, index) != key);
    } else {
        assert(9 <= descriptors_end(header));
    }
}

} // verus!
