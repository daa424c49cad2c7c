//! What the serializer writes, as a function from values to byte sequences.

use crate::bytes::{i32_bits, i64_bits, u32_to_le, u64_to_le};
use crate::chd::{chd_first_seed, ChdTable};
use crate::heap_order::inorder_rank;
use crate::order::lex_lt;
use crate::value::{SerializeError, Value};
use vstd::prelude::*;

verus! {

/// The first `i` parts, one after another.
pub open spec fn concat_first(parts: Seq<Seq<u8>>, i: int) -> Seq<u8>
    decreases i,
{
    if i <= 0 {
        Seq::empty()
    } else {
        concat_first(parts, i - 1) + parts[i - 1]
    }
}

/// The first `i` keys, each followed by a NUL byte.
pub open spec fn keys_first(keys: Seq<Seq<u8>>, i: int) -> Seq<u8>
    decreases i,
{
    if i <= 0 {
        Seq::empty()
    } else {
        keys_first(keys, i - 1) + keys[i - 1] + seq![0u8]
    }
}

/// The offset of child `i` of an array, from the start of the array node.
pub open spec fn array_offset(parts: Seq<Seq<u8>>, i: int) -> int {
    5 + 4 * (parts.len() as int) + concat_first(parts, i).len()
}

/// The first `i` descriptors of an array.
pub open spec fn array_table_first(parts: Seq<Seq<u8>>, i: int) -> Seq<u8>
    decreases i,
{
    if i <= 0 {
        Seq::empty()
    } else {
        array_table_first(parts, i - 1) + u32_to_le(array_offset(parts, i - 1) as u32)
    }
}

/// Whether the count and every offset of an array fit their 32-bit fields.
pub open spec fn array_fits(parts: Seq<Seq<u8>>) -> bool {
    &&& parts.len() <= u32::MAX
    &&& forall|i: int| 0 <= i < parts.len() ==> #[trigger] array_offset(parts, i) <= u32::MAX
}

/// The array node whose children have the given encodings.
pub open spec fn array_node(parts: Seq<Seq<u8>>) -> Seq<u8> {
    seq![0x04u8] + u32_to_le(parts.len() as u32) + array_table_first(parts, parts.len() as int)
        + concat_first(parts, parts.len() as int)
}

/// The offset of key `i` of a map whose header is followed by `extra` bytes.
pub open spec fn map_key_offset(extra: int, keys: Seq<Seq<u8>>, i: int) -> int {
    5 + extra + 8 * (keys.len() as int) + keys_first(keys, i).len()
}

/// The offset of value `i` of a map whose header is followed by `extra` bytes.
pub open spec fn map_value_offset(extra: int, keys: Seq<Seq<u8>>, parts: Seq<Seq<u8>>, i: int) -> int {
    5 + extra + 8 * (keys.len() as int) + keys_first(keys, keys.len() as int).len() + concat_first(
        parts,
        i,
    ).len()
}

/// The first `i` descriptors of a map: for each entry the key's length and
/// offset packed into one word, then the value's offset.
pub open spec fn map_table_first(extra: int, keys: Seq<Seq<u8>>, parts: Seq<Seq<u8>>, i: int) -> Seq<
    u8,
>
    decreases i,
{
    if i <= 0 {
        Seq::empty()
    } else {
        map_table_first(extra, keys, parts, i - 1) + u32_to_le(
            (keys[i - 1].len() * 0x100_0000 + map_key_offset(extra, keys, i - 1)) as u32,
        ) + u32_to_le(map_value_offset(extra, keys, parts, i - 1) as u32)
    }
}

/// Whether the count and every offset of a map fit their fields: 24 bits for
/// key offsets, 32 bits for the rest.
pub open spec fn map_fits(extra: int, keys: Seq<Seq<u8>>, parts: Seq<Seq<u8>>) -> bool {
    &&& keys.len() <= u32::MAX
    &&& map_key_offset(extra, keys, 0) < 0x100_0000
    &&& forall|i: int|
        0 <= i < keys.len() ==> #[trigger] map_key_offset(extra, keys, i) < 0x100_0000
    &&& forall|i: int|
        0 <= i < keys.len() ==> #[trigger] map_value_offset(extra, keys, parts, i) <= u32::MAX
}

/// The map node with the given tag, extra header bytes, and entries in the
/// given order.
pub open spec fn map_node(tag: u8, extra: Seq<u8>, keys: Seq<Seq<u8>>, parts: Seq<Seq<u8>>) -> Seq<
    u8,
> {
    seq![tag] + u32_to_le(keys.len() as u32) + extra + map_table_first(
        extra.len() as int,
        keys,
        parts,
        keys.len() as int,
    ) + keys_first(keys, keys.len() as int) + concat_first(parts, keys.len() as int)
}

/// The sequence that holds, at each place, the item that `order` names there.
pub open spec fn arranged<A>(items: Seq<A>, order: Seq<int>) -> Seq<A> {
    Seq::new(order.len(), |i: int| items[order[i]])
}

/// The positions that a list of indices holds.
pub open spec fn positions(order: Seq<usize>) -> Seq<int> {
    Seq::new(order.len(), |i: int| order[i] as int)
}

/// Each key with its position in the list.
pub open spec fn keyed(keys: Seq<Seq<u8>>) -> Seq<(Seq<u8>, int)> {
    Seq::new(keys.len(), |i: int| (keys[i], i))
}

/// The order of keyed entries: by key, then by position.
pub open spec fn keyed_le(a: (Seq<u8>, int), b: (Seq<u8>, int)) -> bool {
    lex_lt(a.0, b.0) || (a.0 == b.0 && a.1 <= b.1)
}

/// `keyed_le` as a relation.
pub open spec fn keyed_order() -> spec_fn((Seq<u8>, int), (Seq<u8>, int)) -> bool {
    |a: (Seq<u8>, int), b: (Seq<u8>, int)| keyed_le(a, b)
}

/// The keys with their positions, in ascending order.
pub open spec fn sorted_keyed(keys: Seq<Seq<u8>>) -> Seq<(Seq<u8>, int)> {
    keyed(keys).sort_by(keyed_order())
}

/// The positions of the keys, in ascending order of the keys.
pub open spec fn sorted_order(keys: Seq<Seq<u8>>) -> Seq<int> {
    Seq::new(keys.len(), |s: int| sorted_keyed(keys)[s].1)
}

/// The order of the entries of an ordered map: the Eytzinger layout of the
/// keys in ascending order.
pub open spec fn ordered_layout(keys: Seq<Seq<u8>>) -> Seq<int> {
    let sorted = sorted_order(keys);
    Seq::new(keys.len(), |i: int| sorted[inorder_rank(i + 1, keys.len() as int)])
}

/// Whether some key is longer than 255 bytes.
pub open spec fn has_long_key(keys: Seq<Seq<u8>>) -> bool {
    exists|i: int| 0 <= i < keys.len() && (#[trigger] keys[i]).len() > 255
}

/// Whether some key occurs twice.
pub open spec fn has_duplicate_key(keys: Seq<Seq<u8>>) -> bool {
    exists|i: int, j: int| 0 <= i < j < keys.len() && #[trigger] keys[i] == #[trigger] keys[j]
}

/// The bytes of the keys of a list of entries.
pub open spec fn entry_keys(entries: Seq<(String, Value)>) -> Seq<Seq<u8>> {
    Seq::new(entries.len(), |i: int| vstd::utf8::encode_utf8(entries[i].0@))
}

/// The displacement pairs as they stand in the header: two words each.
pub open spec fn disps_first(disps: Seq<(u32, u32)>, i: int) -> Seq<u8>
    decreases i,
{
    if i <= 0 {
        Seq::empty()
    } else {
        disps_first(disps, i - 1) + u32_to_le(disps[i - 1].0) + u32_to_le(disps[i - 1].1)
    }
}

/// The ordered map node of the given keys and encoded values.
pub open spec fn ordered_map_encoding(keys: Seq<Seq<u8>>, parts: Seq<Seq<u8>>) -> Result<
    Seq<u8>,
    SerializeError,
> {
    let order = ordered_layout(keys);
    let placed_keys = arranged(keys, order);
    let placed_parts = arranged(parts, order);
    if map_fits(0, placed_keys, placed_parts) {
        Ok(map_node(0x03, Seq::empty(), placed_keys, placed_parts))
    } else {
        Err(SerializeError::DocumentTooLarge)
    }
}

/// The bytes between the count and the descriptors of a perfect-hash map: the
/// seed, then the displacement pairs.
pub open spec fn chd_extra(seed: u32, table: ChdTable) -> Seq<u8> {
    u32_to_le(seed) + disps_first(table.disps, table.disps.len() as int)
}

/// Where the keys of a perfect-hash map with `count` entries start.
pub open spec fn chd_keys_start(count: int) -> int {
    9 + 8 * crate::layout::bucket_count(count) + 8 * count
}

/// The perfect-hash map node of the given keys and encoded values.
pub open spec fn chd_map_encoding(keys: Seq<Seq<u8>>, parts: Seq<Seq<u8>>) -> Result<
    Seq<u8>,
    SerializeError,
> {
    if chd_keys_start(keys.len() as int) >= 0x100_0000 {
        Err(SerializeError::DocumentTooLarge)
    } else {
        match chd_first_seed(keys, 0) {
            None => Err(SerializeError::CHDConstructionFailed),
            Some((seed, table)) => {
                let extra = chd_extra(seed, table);
                let placed_keys = arranged(keys, table.map);
                let placed_parts = arranged(parts, table.map);
                if map_fits(extra.len() as int, placed_keys, placed_parts) {
                    Ok(map_node(0x20, extra, placed_keys, placed_parts))
                } else {
                    Err(SerializeError::DocumentTooLarge)
                }
            },
        }
    }
}

/// The map node of the given keys and encoded values: a perfect-hash map from
/// `threshold` entries on, an ordered map below.
pub open spec fn map_encoding(keys: Seq<Seq<u8>>, parts: Seq<Seq<u8>>, threshold: int) -> Result<
    Seq<u8>,
    SerializeError,
> {
    if has_long_key(keys) {
        Err(SerializeError::KeyTooLong)
    } else if has_duplicate_key(keys) {
        Err(SerializeError::DuplicateKey)
    } else if keys.len() >= threshold {
        chd_map_encoding(keys, parts)
    } else {
        ordered_map_encoding(keys, parts)
    }
}

/// The encoding of a value. Containers encode their children first, in the
/// order given, and fail with the first error among them.
pub open spec fn encoding(v: Value, threshold: int) -> Result<Seq<u8>, SerializeError>
    decreases v,
{
    match v {
        Value::Null => Ok(seq![0x0Au8]),
        Value::Bool(b) => Ok(
            seq![
                if b {
                    0x09u8
                } else {
                    0x08u8
                },
            ],
        ),
        Value::Int32(x) => Ok(seq![0x10u8] + u32_to_le(i32_bits(x))),
        Value::UInt32(x) => Ok(seq![0x11u8] + u32_to_le(x)),
        Value::Int64(x) => Ok(seq![0x12u8] + u64_to_le(i64_bits(x))),
        Value::UInt64(x) => Ok(seq![0x13u8] + u64_to_le(x)),
        Value::Double(bits) => Ok(seq![0x01u8] + u64_to_le(bits)),
        Value::String(s) => Ok(seq![0x02u8] + vstd::utf8::encode_utf8(s@) + seq![0u8]),
        Value::Binary(b) => Ok(seq![0x05u8] + b@),
        Value::Array(items) => match encode_items(items@, items@.len() as int, threshold) {
            Err(e) => Err(e),
            Ok(parts) => if array_fits(parts) {
                Ok(array_node(parts))
            } else {
                Err(SerializeError::DocumentTooLarge)
            },
        },
        Value::Object(entries) => match encode_entries(
            entries@,
            entries@.len() as int,
            threshold,
        ) {
            Err(e) => Err(e),
            Ok(parts) => map_encoding(entry_keys(entries@), parts, threshold),
        },
    }
}

/// The encodings of the first `i` items, or the first error among them.
pub open spec fn encode_items(items: Seq<Value>, i: int, threshold: int) -> Result<
    Seq<Seq<u8>>,
    SerializeError,
>
    decreases items, i,
{
    if i <= 0 || i > items.len() {
        Ok(Seq::empty())
    } else {
        match encode_items(items, i - 1, threshold) {
            Err(e) => Err(e),
            Ok(parts) => match encoding(items[i - 1], threshold) {
                Err(e) => Err(e),
                Ok(part) => Ok(parts.push(part)),
            },
        }
    }
}

/// The encodings of the values of the first `i` entries, or the first error
/// among them.
pub open spec fn encode_entries(entries: Seq<(String, Value)>, i: int, threshold: int) -> Result<
    Seq<Seq<u8>>,
    SerializeError,
>
    decreases entries, i,
{
    if i <= 0 || i > entries.len() {
        Ok(Seq::empty())
    } else {
        match encode_entries(entries, i - 1, threshold) {
            Err(e) => Err(e),
            Ok(parts) => match encoding(entries[i - 1].1, threshold) {
                Err(e) => Err(e),
                Ok(part) => Ok(parts.push(part)),
            },
        }
    }
}

} // verus!
