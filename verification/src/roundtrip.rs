//! Reading back what was written: a cursor over the encoding of a value finds
//! the value again.

use crate::bytes::{
    i32_bits, i64_bits, lemma_signed_bits_roundtrip, lemma_u32_le_roundtrip, lemma_u64_le_roundtrip,
    read_u32, read_u64, u32_to_le, u64_to_le,
};
use crate::encoder_laws::{
    chosen_seed, chosen_table, lemma_chd_map_is_well_formed, lemma_ordered_map_is_well_formed,
};
use crate::encoding::{
    arranged, array_fits, array_node, chd_extra, chd_map_encoding, encode_entries, encode_items,
    encoding, entry_keys, map_encoding, map_node, ordered_layout, ordered_map_encoding,
};
use crate::layout::{
    binary_value, bool_value, child_range, expect_type, first_nul, i32_value, i64_value, Located,
    long_value, parse_header, string_value, value_by_index, value_by_key, word_value,
};
use crate::map_laws::{lemma_key_leads_to_its_entry, well_formed_map};
use crate::raw_cursor::RawCursor;
use crate::readback::{
    array_header, lemma_array_node_reads, lemma_map_node_pieces, lemma_map_node_reads,
    lemma_read_word, map_header, map_layout_ok,
};
use crate::types::{CursorError, ElementTypeCode};
use crate::value::{SerializeError, Value};
use vstd::prelude::*;

verus! {

/// Whether no string of the tree holds a NUL character. A string that holds
/// one is read back only up to it.
pub open spec fn holds_no_nul(v: Value) -> bool
    decreases v,
{
    match v {
        Value::String(s) => !s@.contains('\0'),
        Value::Array(items) => forall|i: int|
            0 <= i < items@.len() ==> holds_no_nul(#[trigger] items@[i]),
        Value::Object(entries) => forall|i: int|
            0 <= i < entries@.len() ==> holds_no_nul((#[trigger] entries@[i]).1),
        _ => true,
    }
}

/// Whether a reader finds the value in the bytes of a node: the leaf
/// accessors give the value of a leaf, every index of an array leads to a node
/// that holds the item, and the key of every entry of a map leads to a node
/// that holds the entry's value.
pub open spec fn represents(buffer: Seq<u8>, v: Value) -> bool
    decreases v, 0nat,
{
    match parse_header(buffer) {
        Err(_) => false,
        Ok(header) => match v {
            Value::Null => expect_type(header, ElementTypeCode::Null).is_ok(),
            Value::Bool(b) => bool_value(header) == Ok::<bool, CursorError>(b),
            Value::Int32(x) => i32_value(buffer, header) == Ok::<i32, CursorError>(x),
            Value::Int64(x) => i64_value(buffer, header) == Ok::<i64, CursorError>(x),
            Value::UInt32(x) => word_value(buffer, header, ElementTypeCode::UInt32) == Ok::<
                u32,
                CursorError,
            >(x),
            Value::UInt64(x) => long_value(buffer, header, ElementTypeCode::UInt64) == Ok::<
                u64,
                CursorError,
            >(x),
            Value::Double(bits) => long_value(buffer, header, ElementTypeCode::Double) == Ok::<
                u64,
                CursorError,
            >(bits),
            Value::String(s) => string_value(buffer, header) == Ok::<Seq<char>, CursorError>(s@),
            Value::Binary(b) => binary_value(buffer, header) == Ok::<Seq<u8>, CursorError>(b@),
            Value::Array(items) => {
                &&& header.element_type == ElementTypeCode::Array
                &&& header.child_count == items@.len()
                &&& forall|i: int|
                    0 <= i < items@.len() ==> holds_at(
                        buffer,
                        value_by_index(buffer, header, i),
                        #[trigger] items@[i],
                    )
            },
            Value::Object(entries) => {
                &&& header.element_type.is_map()
                &&& header.child_count == entries@.len()
                &&& forall|i: int|
                    0 <= i < entries@.len() ==> holds_at(
                        buffer,
                        value_by_key(buffer, header, vstd::utf8::encode_utf8(entries@[i].0@)),
                        (#[trigger] entries@[i]).1,
                    )
            },
        },
    }
}

/// Whether a child was found, and the bytes found hold the value.
pub open spec fn holds_at(buffer: Seq<u8>, found: Result<Located, CursorError>, v: Value) -> bool
    decreases v, 1nat,
{
    match found {
        Err(_) => false,
        Ok(located) => represents(buffer.subrange(located.start, located.end), v),
    }
}

/// Where the first `n` items encode, each of them encodes, to its part.
pub proof fn lemma_encode_items_parts(items: Seq<Value>, n: int, threshold: int)
    requires
        0 <= n <= items.len(),
        encode_items(items, n, threshold).is_ok(),
    ensures
        encode_items(items, n, threshold).unwrap().len() == n,
        forall|i: int|
            0 <= i < n ==> encoding(#[trigger] items[i], threshold) == Ok::<
                Seq<u8>,
                SerializeError,
            >(encode_items(items, n, threshold).unwrap()[i]),
    decreases n,
{
    if n > 0 {
        lemma_encode_items_parts(items, n - 1, threshold);
    }
}

/// Where the values of the first `n` entries encode, each of them encodes, to
/// its part.
pub proof fn lemma_encode_entries_parts(entries: Seq<(String, Value)>, n: int, threshold: int)
    requires
        0 <= n <= entries.len(),
        encode_entries(entries, n, threshold).is_ok(),
    ensures
        encode_entries(entries, n, threshold).unwrap().len() == n,
        forall|i: int|
            0 <= i < n ==> encoding((#[trigger] entries[i]).1, threshold) == Ok::<
                Seq<u8>,
                SerializeError,
            >(encode_entries(entries, n, threshold).unwrap()[i]),
    decreases n,
{
    if n > 0 {
        lemma_encode_entries_parts(entries, n - 1, threshold);
    }
}

/// A long that stands after the tag of a node is read back from there.
pub proof fn lemma_read_long(tag: u8, x: u64)
    ensures
        read_u64(seq![tag] + u64_to_le(x), 1) == Ok::<u64, CursorError>(x),
        (seq![tag] + u64_to_le(x)).len() == 9,
        (seq![tag] + u64_to_le(x))[0] == tag,
{
    lemma_u64_le_roundtrip(x);
    let node = seq![tag] + u64_to_le(x);
    assert(node.subrange(1, 9) =~= u64_to_le(x));
}

/// A word that stands after the tag of a node is read back from there.
pub proof fn lemma_read_short(tag: u8, x: u32)
    ensures
        read_u32(seq![tag] + u32_to_le(x), 1) == Ok::<u32, CursorError>(x),
        (seq![tag] + u32_to_le(x)).len() == 5,
        (seq![tag] + u32_to_le(x))[0] == tag,
{
    lemma_u32_le_roundtrip(x);
    let node = seq![tag] + u32_to_le(x);
    assert(node.subrange(1, 5) =~= u32_to_le(x));
}

/// In a string node whose text holds no NUL, the first NUL is the terminator.
pub proof fn lemma_first_nul_is_terminator(text: Seq<u8>, from: int)
    requires
        !text.contains(0u8),
        1 <= from <= text.len() + 1,
    ensures
        first_nul(seq![0x02u8] + text + seq![0u8], from) == text.len() + 1,
    decreases text.len() + 1 - from,
{
    let node = seq![0x02u8] + text + seq![0u8];
    if from < text.len() + 1 {
        assert(node[from] == text[from - 1]);
        assert(text.contains(text[from - 1]));
        lemma_first_nul_is_terminator(text, from + 1);
    } else {
        assert(node[from] == 0u8);
    }
}

/// No byte of the UTF-8 form of a character with more than one byte is zero.
proof fn lemma_wide_bytes_are_not_nul(scalar: u32)
    by (bit_vector)
    ensures
        0xC0u8 | ((scalar >> 6) & 0x1F) as u8 != 0,
        0xE0u8 | ((scalar >> 12) & 0x0F) as u8 != 0,
        0xF0u8 | ((scalar >> 18) & 0x7) as u8 != 0,
        0x80u8 | (scalar & 0x3F) as u8 != 0,
        0x80u8 | ((scalar >> 6) & 0x3F) as u8 != 0,
        0x80u8 | ((scalar >> 12) & 0x3F) as u8 != 0,
        scalar <= 0x7F ==> ((scalar & 0x7F) as u8 == 0 <==> scalar == 0),
{
}

/// The UTF-8 form of a character holds a zero byte only if the character is
/// NUL.
pub proof fn lemma_scalar_nul(c: char)
    ensures
        vstd::utf8::encode_scalar(c as u32).contains(0u8) <==> c == '\0',
{
    let scalar = c as u32;
    let bytes = vstd::utf8::encode_scalar(scalar);
    vstd::utf8::char_is_scalar(c);
    lemma_wide_bytes_are_not_nul(scalar);
    vstd::utf8::char_u32_cast(c, scalar);
    vstd::utf8::char_u32_cast('\0', 0u32);
    if bytes.contains(0u8) {
        let i = choose|i: int| 0 <= i < bytes.len() && bytes[i] == 0u8;
        assert(bytes[i] == 0u8);
        assert(scalar == 0);
    }
    if c == '\0' {
        assert(bytes[0] == 0u8);
    }
}

/// The UTF-8 form of a text holds a zero byte only if the text holds a NUL.
pub proof fn lemma_text_nul(text: Seq<char>)
    ensures
        vstd::utf8::encode_utf8(text).contains(0u8) <==> text.contains('\0'),
    decreases text.len(),
{
    if text.len() > 0 {
        let head = vstd::utf8::encode_scalar(text[0] as u32);
        let tail = vstd::utf8::encode_utf8(text.drop_first());
        let bytes = vstd::utf8::encode_utf8(text);
        lemma_scalar_nul(text[0]);
        lemma_text_nul(text.drop_first());
        assert(bytes == head + tail);
        if bytes.contains(0u8) {
            let i = choose|i: int| 0 <= i < bytes.len() && bytes[i] == 0u8;
            if i < head.len() {
                assert(head[i] == 0u8);
                assert(text[0] == '\0');
            } else {
                assert(tail[i - head.len()] == 0u8);
                let j = choose|j: int|
                    0 <= j < text.drop_first().len() && text.drop_first()[j] == '\0';
                assert(text[j + 1] == '\0');
            }
        }
        if text.contains('\0') {
            let j = choose|j: int| 0 <= j < text.len() && text[j] == '\0';
            if j == 0 {
                let i = choose|i: int| 0 <= i < head.len() && head[i] == 0u8;
                assert(bytes[i] == 0u8);
            } else {
                assert(text.drop_first()[j - 1] == '\0');
                let i = choose|i: int| 0 <= i < tail.len() && tail[i] == 0u8;
                assert(bytes[head.len() + i] == 0u8);
            }
        }
    }
}

/// A reader finds a leaf in its encoding.
pub proof fn lemma_leaf_round_trip(v: Value, threshold: int)
    requires
        holds_no_nul(v),
        !(v is Array),
        !(v is Object),
    ensures
        encoding(v, threshold).is_ok(),
        represents(encoding(v, threshold).unwrap(), v),
{
    let node = encoding(v, threshold).unwrap();
    match v {
        Value::Null => {},
        Value::Bool(b) => {},
        Value::Int32(x) => {
            lemma_read_short(0x10, i32_bits(x));
            lemma_signed_bits_roundtrip(x, 0);
        },
        Value::UInt32(x) => {
            lemma_read_short(0x11, x);
        },
        Value::Int64(x) => {
            lemma_read_long(0x12, i64_bits(x));
            lemma_signed_bits_roundtrip(0, x);
        },
        Value::UInt64(x) => {
            lemma_read_long(0x13, x);
        },
        Value::Double(bits) => {
            lemma_read_long(0x01, bits);
        },
        Value::String(s) => {
            let text = vstd::utf8::encode_utf8(s@);
            lemma_text_nul(s@);
            lemma_first_nul_is_terminator(text, 1);
            assert(node =~= seq![0x02u8] + text + seq![0u8]);
            assert(node[0] == 0x02u8);
            assert(node.subrange(1, text.len() as int + 1) =~= text);
            vstd::utf8::encode_utf8_valid_utf8(s@);
            vstd::utf8::encode_utf8_decode_utf8(s@);
        },
        Value::Binary(b) => {
            assert(node =~= seq![0x05u8] + b@);
            assert(node[0] == 0x05u8);
            assert(node.subrange(1, node.len() as int) =~= b@);
        },
        _ => {},
    }
}

/// A reader finds item `i` of an array node at index `i`, where a node starts
/// in the item's encoding.
pub proof fn lemma_array_item_found(parts: Seq<Seq<u8>>, i: int)
    requires
        array_fits(parts),
        0 <= i < parts.len(),
        parse_header(parts[i]).is_ok(),
    ensures
        value_by_index(array_node(parts), array_header(parts), i) matches Ok(located)
            && located.index == i && array_node(parts).subrange(located.start, located.end)
            == parts[i],
{
    lemma_array_node_reads(parts, i);
}

/// A reader finds entry `p` of a well-formed map node under the entry's key,
/// where a node starts in the encoding of the entry's value.
pub proof fn lemma_map_entry_found(
    tag: u8,
    extra: Seq<u8>,
    keys: Seq<Seq<u8>>,
    parts: Seq<Seq<u8>>,
    p: int,
)
    requires
        map_layout_ok(tag, extra, keys, parts),
        well_formed_map(map_node(tag, extra, keys, parts), map_header(tag, keys.len() as int)),
        0 <= p < keys.len(),
        parse_header(parts[p]).is_ok(),
    ensures
        value_by_key(
            map_node(tag, extra, keys, parts),
            map_header(tag, keys.len() as int),
            keys[p],
        ) matches Ok(located) && located.index == p && map_node(
            tag,
            extra,
            keys,
            parts,
        ).subrange(located.start, located.end) == parts[p],
{
    let node = map_node(tag, extra, keys, parts);
    let header = map_header(tag, keys.len() as int);
    lemma_map_node_pieces(tag, extra, keys, parts);
    lemma_map_node_reads(tag, extra, keys, parts, p);
    lemma_key_leads_to_its_entry(node, header, p);
}

/// The encoding of a map with the given keys and encoded values is a
/// well-formed map node in which every key leads to its value.
pub proof fn lemma_map_round_trip(keys: Seq<Seq<u8>>, parts: Seq<Seq<u8>>, threshold: int, i: int)
    requires
        keys.len() == parts.len(),
        map_encoding(keys, parts, threshold).is_ok(),
        0 <= i < keys.len(),
        parse_header(parts[i]).is_ok(),
    ensures
        parse_header(map_encoding(keys, parts, threshold).unwrap()).is_ok(),
        value_by_key(
            map_encoding(keys, parts, threshold).unwrap(),
            parse_header(map_encoding(keys, parts, threshold).unwrap()).unwrap(),
            keys[i],
        ) matches Ok(located) && map_encoding(keys, parts, threshold).unwrap().subrange(
            located.start,
            located.end,
        ) == parts[i],
{
    let n = keys.len() as int;
    if n >= threshold {
        lemma_chd_map_is_well_formed(keys, parts);
        let order = chosen_table(keys).map;
        let extra = chd_extra(chosen_seed(keys), chosen_table(keys));
        assert(order.contains(i));
        let p = choose|p: int| 0 <= p < order.len() && order[p] == i;
        lemma_map_entry_found(0x20, extra, arranged(keys, order), arranged(parts, order), p);
    } else {
        lemma_ordered_map_is_well_formed(keys, parts);
        let order = ordered_layout(keys);
        assert(order.contains(i));
        let p = choose|p: int| 0 <= p < order.len() && order[p] == i;
        lemma_map_entry_found(
            0x03,
            Seq::empty(),
            arranged(keys, order),
            arranged(parts, order),
            p,
        );
    }
}

/// The keys that the encoding of a map declares are the keys of the map.
pub proof fn lemma_encoded_map_declares(
    keys: Seq<Seq<u8>>,
    parts: Seq<Seq<u8>>,
    threshold: int,
    key: Seq<u8>,
)
    requires
        keys.len() == parts.len(),
        map_encoding(keys, parts, threshold).is_ok(),
    ensures
        crate::map_laws::declares_key(
            map_encoding(keys, parts, threshold).unwrap(),
            parse_header(map_encoding(keys, parts, threshold).unwrap()).unwrap(),
            key,
        ) == keys.contains(key),
{
    let n = keys.len() as int;
    let node = map_encoding(keys, parts, threshold).unwrap();
    let header = parse_header(node).unwrap();
    let order = if n >= threshold {
        chosen_table(keys).map
    } else {
        ordered_layout(keys)
    };
    if n >= threshold {
        lemma_chd_map_is_well_formed(keys, parts);
        crate::encoder_laws::lemma_node_keys(
            0x20,
            chd_extra(chosen_seed(keys), chosen_table(keys)),
            arranged(keys, order),
            arranged(parts, order),
        );
    } else {
        lemma_ordered_map_is_well_formed(keys, parts);
        crate::encoder_laws::lemma_node_keys(
            0x03,
            Seq::empty(),
            arranged(keys, order),
            arranged(parts, order),
        );
    }
    assert(header.child_count == n);
    assert forall|p: int| 0 <= p < n implies #[trigger] crate::map_laws::stored_key(
        node,
        header,
        p,
    ) == keys[order[p]] by {
        assert(arranged(keys, order)[p] == keys[order[p]]);
    }
    if keys.contains(key) {
        let i = choose|i: int| 0 <= i < keys.len() && keys[i] == key;
        assert(order.contains(i));
        let p = choose|p: int| 0 <= p < order.len() && order[p] == i;
        assert(crate::map_laws::stored_key(node, header, p) == key);
    }
    if crate::map_laws::declares_key(node, header, key) {
        let p = choose|p: int|
            0 <= p < header.child_count && #[trigger] crate::map_laws::stored_key(node, header, p)
                == key;
        assert(keys[order[p]] == key);
    }
}

/// Lookup miss: in the encoding of a map, the lookup of a key that the map
/// does not hold is `KeyNotFound`.
pub proof fn lemma_encoded_map_lookup_miss(
    entries: Vec<(String, Value)>,
    threshold: int,
    key: Seq<u8>,
)
    requires
        encoding(Value::Object(entries), threshold).is_ok(),
        !entry_keys(entries@).contains(key),
    ensures
        value_by_key(
            encoding(Value::Object(entries), threshold).unwrap(),
            parse_header(encoding(Value::Object(entries), threshold).unwrap()).unwrap(),
            key,
        ) == Err::<Located, CursorError>(CursorError::KeyNotFound),
{
    let parts = encode_entries(entries@, entries@.len() as int, threshold).unwrap();
    let keys = entry_keys(entries@);
    lemma_encode_entries_parts(entries@, entries@.len() as int, threshold);
    lemma_map_header(keys, parts, threshold);
    lemma_encoded_map_declares(keys, parts, threshold, key);
    let node = map_encoding(keys, parts, threshold).unwrap();
    crate::map_laws::lemma_lookup_miss(node, parse_header(node).unwrap(), key);
}

/// The header of a map node, also of one without entries.
pub proof fn lemma_map_header(keys: Seq<Seq<u8>>, parts: Seq<Seq<u8>>, threshold: int)
    requires
        keys.len() == parts.len(),
        map_encoding(keys, parts, threshold).is_ok(),
    ensures
        parse_header(map_encoding(keys, parts, threshold).unwrap()).is_ok(),
        parse_header(map_encoding(keys, parts, threshold).unwrap()).unwrap().element_type.is_map(),
        parse_header(map_encoding(keys, parts, threshold).unwrap()).unwrap().child_count
            == keys.len(),
        well_formed_map(
            map_encoding(keys, parts, threshold).unwrap(),
            parse_header(map_encoding(keys, parts, threshold).unwrap()).unwrap(),
        ),
{
    if keys.len() >= threshold {
        lemma_chd_map_is_well_formed(keys, parts);
    } else {
        lemma_ordered_map_is_well_formed(keys, parts);
    }
}

/// The header of an array node, also of one without items.
pub proof fn lemma_array_header(parts: Seq<Seq<u8>>)
    requires
        array_fits(parts),
    ensures
        parse_header(array_node(parts)) == Ok::<RawCursor, CursorError>(array_header(parts)),
{
    let n = parts.len() as int;
    let node = array_node(parts);
    lemma_u32_le_roundtrip(n as u32);
    assert(node[0] == 0x04u8);
    assert(node.subrange(1, 5) =~= u32_to_le(n as u32));
    lemma_read_word(node, 1, n as u32);
}

/// Round trip: a reader finds every value in its encoding, whatever the
/// options it was encoded with, if no string of the value holds a NUL.
pub proof fn lemma_round_trip(v: Value, threshold: int)
    requires
        holds_no_nul(v),
        encoding(v, threshold).is_ok(),
    ensures
        represents(encoding(v, threshold).unwrap(), v),
    decreases v,
{
    let node = encoding(v, threshold).unwrap();
    match v {
        Value::Array(items) => {
            let parts = encode_items(items@, items@.len() as int, threshold).unwrap();
            lemma_encode_items_parts(items@, items@.len() as int, threshold);
            lemma_array_header(parts);
            let header = array_header(parts);
            assert forall|i: int| 0 <= i < items@.len() implies holds_at(
                node,
                value_by_index(node, header, i),
                #[trigger] items@[i],
            ) by {
                lemma_round_trip(items@[i], threshold);
                lemma_array_item_found(parts, i);
            }
        },
        Value::Object(entries) => {
            let parts = encode_entries(entries@, entries@.len() as int, threshold).unwrap();
            let keys = entry_keys(entries@);
            lemma_encode_entries_parts(entries@, entries@.len() as int, threshold);
            lemma_map_header(keys, parts, threshold);
            let header = parse_header(node).unwrap();
            assert forall|i: int| 0 <= i < entries@.len() implies holds_at(
                node,
                value_by_key(node, header, vstd::utf8::encode_utf8(entries@[i].0@)),
                (#[trigger] entries@[i]).1,
            ) by {
                lemma_round_trip(entries@[i].1, threshold);
                lemma_map_round_trip(keys, parts, threshold, i);
            }
        },
        _ => {
            lemma_leaf_round_trip(v, threshold);
        },
    }
}

/// No encoding is empty: each starts with a tag.
pub proof fn lemma_encoding_is_not_empty(v: Value, threshold: int)
    requires
        encoding(v, threshold).is_ok(),
    ensures
        encoding(v, threshold).unwrap().len() >= 1,
{
    match v {
        Value::Object(entries) => {
            let parts = encode_entries(entries@, entries@.len() as int, threshold).unwrap();
            let keys = entry_keys(entries@);
            assert(map_encoding(keys, parts, threshold).is_ok());
            if keys.len() >= threshold {
                assert(chd_map_encoding(keys, parts).unwrap().len() >= 1);
            } else {
                assert(ordered_map_encoding(keys, parts).unwrap().len() >= 1);
            }
        },
        _ => {},
    }
}

/// In the encoding of an array, the offsets in the descriptors grow strictly
/// from one child to the next: each child's range starts where its descriptor
/// says, is not empty, ends where the next child starts, and lies between the
/// descriptor table and the end of the array node.
pub proof fn lemma_array_descriptors_increase(items: Vec<Value>, threshold: int, i: int)
    requires
        encoding(Value::Array(items), threshold).is_ok(),
        0 <= i < items@.len(),
    ensures
        ({
            let node = encoding(Value::Array(items), threshold).unwrap();
            let header = RawCursor {
                element_type: ElementTypeCode::Array,
                child_count: items@.len() as u32,
            };
            &&& parse_header(node) == Ok::<RawCursor, CursorError>(header)
            &&& child_range(node, header, i) matches Ok(range) && {
                &&& 5 + 4 * items@.len() <= range.0 < range.1 <= node.len()
                &&& read_u32(node, 5 + 4 * i) == Ok::<u32, CursorError>(range.0 as u32)
                &&& range.0 as u32 == range.0
                &&& i + 1 < items@.len() ==> read_u32(node, 5 + 4 * (i + 1)) == Ok::<
                    u32,
                    CursorError,
                >(range.1 as u32) && range.1 as u32 == range.1
            }
        }),
{
    let parts = encode_items(items@, items@.len() as int, threshold).unwrap();
    lemma_encode_items_parts(items@, items@.len() as int, threshold);
    lemma_array_header(parts);
    lemma_array_node_reads(parts, i);
    lemma_encoding_is_not_empty(items@[i], threshold);
    crate::readback::lemma_concat_grows(parts, 0, i);
    if i + 1 < items@.len() {
        lemma_array_node_reads(parts, i + 1);
    }
}

} // verus!
