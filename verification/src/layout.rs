//! The wire format, as functions on byte sequences.
//!
//! Every function here takes the bytes of one node (its tag byte first) and
//! says what a reader finds in them. Offsets stored in a node count from the
//! node's first byte.

use crate::bytes::{i32_from_bits, i64_from_bits, read_u32, read_u32_pair, read_u64};
use crate::hashing::{Hashes, phf_hash, slot_of};
use crate::order::lex_lt;
use crate::raw_cursor::RawCursor;
use crate::types::{CursorError, ElementTypeCode, parse_tag};
use vstd::prelude::*;

verus! {

/// A child of a container node: its position among the children, the range
/// of its bytes inside the container, and its own header.
pub struct Located {
    pub index: int,
    pub start: int,
    pub end: int,
    pub header: RawCursor,
}

/// One descriptor of a map: where the key and the value start, and how long
/// the key is.
pub struct MapDescriptor {
    pub key_offset: int,
    pub key_length: int,
    pub value_offset: int,
}

/// The header of the node that starts the buffer: its element type and, for
/// containers, the number of children.
pub open spec fn parse_header(buffer: Seq<u8>) -> Result<RawCursor, CursorError> {
    if buffer.len() < 1 {
        Err(CursorError::DocumentTooShort)
    } else {
        match parse_tag(buffer[0]) {
            Err(e) => Err(e),
            Ok(t) => if t.is_container() {
                match read_u32(buffer, 1) {
                    Err(e) => Err(e),
                    Ok(count) => Ok(RawCursor { element_type: t, child_count: count }),
                }
            } else {
                Ok(RawCursor { element_type: t, child_count: 0 })
            },
        }
    }
}

/// The number of displacement pairs of a perfect-hash map with `count`
/// entries: one for every five entries, rounded up.
pub open spec fn bucket_count(count: int) -> int {
    (count + 4) / 5
}

/// Where the descriptor table of a container starts.
pub open spec fn descriptors_offset(header: RawCursor) -> int {
    if header.element_type == ElementTypeCode::MapCHD {
        9 + 8 * bucket_count(header.child_count as int)
    } else {
        5
    }
}

/// The size of one descriptor.
pub open spec fn descriptor_size(header: RawCursor) -> int {
    if header.element_type == ElementTypeCode::Array {
        4
    } else {
        8
    }
}

/// Where the descriptor table of a container ends.
pub open spec fn descriptors_end(header: RawCursor) -> int {
    descriptors_offset(header) + descriptor_size(header) * (header.child_count as int)
}

/// Where the value offset of child `index` is stored.
pub open spec fn value_offset_position(header: RawCursor, index: int) -> int {
    descriptors_offset(header) + descriptor_size(header) * index + if header.element_type
        == ElementTypeCode::Array {
        0int
    } else {
        4int
    }
}

/// The range of child `index`: from its own value offset to that of the next
/// child, or to the end of the node for the last child.
pub open spec fn child_range(buffer: Seq<u8>, header: RawCursor, index: int) -> Result<
    (int, int),
    CursorError,
> {
    if !header.element_type.is_container() {
        Err(CursorError::WrongElementType { actual: header.element_type })
    } else if index < 0 || index >= header.child_count {
        Err(CursorError::ItemIndexOutOfBounds)
    } else {
        match read_u32(buffer, value_offset_position(header, index)) {
            Err(e) => Err(e),
            Ok(start) => if index == header.child_count - 1 {
                checked_range(buffer, start as int, buffer.len() as int)
            } else {
                match read_u32(buffer, value_offset_position(header, index + 1)) {
                    Err(e) => Err(e),
                    Ok(end) => checked_range(buffer, start as int, end as int),
                }
            },
        }
    }
}

/// A range that lies inside the buffer, or `DocumentTooShort`.
pub open spec fn checked_range(buffer: Seq<u8>, start: int, end: int) -> Result<
    (int, int),
    CursorError,
> {
    if 0 <= start <= end <= buffer.len() {
        Ok((start, end))
    } else {
        Err(CursorError::DocumentTooShort)
    }
}

/// Child `index` of a container: its range and the header found there.
pub open spec fn value_by_index(buffer: Seq<u8>, header: RawCursor, index: int) -> Result<
    Located,
    CursorError,
> {
    match child_range(buffer, header, index) {
        Err(e) => Err(e),
        Ok((start, end)) => match parse_header(buffer.subrange(start, end)) {
            Err(e) => Err(e),
            Ok(child) => Ok(Located { index, start, end, header: child }),
        },
    }
}

/// Whether the whole descriptor table of a map lies inside the buffer; the
/// error is `WrongElementType` for anything but a map.
pub open spec fn map_table(buffer: Seq<u8>, header: RawCursor) -> Result<(), CursorError> {
    if !header.element_type.is_map() {
        Err(CursorError::WrongElementType { actual: header.element_type })
    } else if descriptors_end(header) > buffer.len() {
        Err(CursorError::DocumentTooShort)
    } else {
        Ok(())
    }
}

/// Descriptor `index` of a map whose table lies inside the buffer. The first
/// word packs the key's length (high byte) and offset (low three bytes); the
/// second is the value's offset.
pub open spec fn map_descriptor(buffer: Seq<u8>, header: RawCursor, index: int) -> MapDescriptor {
    let words = read_u32_pair(buffer, descriptors_offset(header) + 8 * index).unwrap();
    MapDescriptor {
        key_offset: (words.0 as int) % 0x100_0000,
        key_length: (words.0 as int) / 0x100_0000,
        value_offset: words.1 as int,
    }
}

/// The bytes of key `index` of a map.
pub open spec fn key_bytes_by_index(buffer: Seq<u8>, header: RawCursor, index: int) -> Result<
    Seq<u8>,
    CursorError,
> {
    if index < 0 || index >= header.child_count {
        Err(CursorError::ItemIndexOutOfBounds)
    } else {
        match map_table(buffer, header) {
            Err(e) => Err(e),
            Ok(_) => {
                let d = map_descriptor(buffer, header, index);
                if d.key_offset + d.key_length <= buffer.len() {
                    Ok(buffer.subrange(d.key_offset, d.key_offset + d.key_length))
                } else {
                    Err(CursorError::DocumentTooShort)
                }
            },
        }
    }
}

/// Key `index` of a map as text.
pub open spec fn key_by_index(buffer: Seq<u8>, header: RawCursor, index: int) -> Result<
    Seq<char>,
    CursorError,
> {
    match key_bytes_by_index(buffer, header, index) {
        Err(e) => Err(e),
        Ok(bytes) => if vstd::utf8::valid_utf8(bytes) {
            Ok(vstd::utf8::decode_utf8(bytes))
        } else {
            Err(CursorError::Utf8Error)
        },
    }
}

/// The search of an ordered map from position `k` of the implicit tree
/// (positions count from 1; the children of `k` are `2k` and `2k + 1`): go left
/// where the key sought is smaller than the key at `k`, right where it is
/// larger, and stop where they are equal or the position is past the last
/// entry.
#[verifier::opaque]
pub open spec fn ordered_search(buffer: Seq<u8>, header: RawCursor, key: Seq<u8>, k: int) -> Result<
    Located,
    CursorError,
>
    decreases
        if 1 <= k <= header.child_count {
            header.child_count - k + 1
        } else {
            0
        },
{
    if k < 1 || k > header.child_count {
        Err(CursorError::KeyNotFound)
    } else {
        let d = map_descriptor(buffer, header, k - 1);
        if d.key_offset + d.key_length > buffer.len() {
            Err(CursorError::EmbeddedOffsetOutOfBounds)
        } else {
            let current = buffer.subrange(d.key_offset, d.key_offset + d.key_length);
            if key == current {
                value_by_index(buffer, header, k - 1)
            } else if lex_lt(key, current) {
                ordered_search(buffer, header, key, 2 * k)
            } else {
                ordered_search(buffer, header, key, 2 * k + 1)
            }
        }
    }
}

/// The key that the search compares with at position `k`, if the descriptor
/// there points inside the buffer.
pub open spec fn search_key(buffer: Seq<u8>, header: RawCursor, k: int) -> Option<Seq<u8>> {
    let d = map_descriptor(buffer, header, k - 1);
    if d.key_offset + d.key_length > buffer.len() {
        None
    } else {
        Some(buffer.subrange(d.key_offset, d.key_offset + d.key_length))
    }
}

/// One step of the search, spelled out.
pub proof fn lemma_ordered_search_step(buffer: Seq<u8>, header: RawCursor, key: Seq<u8>, k: int)
    ensures
        k < 1 || k > header.child_count ==> ordered_search(buffer, header, key, k) == Err::<
            Located,
            CursorError,
        >(CursorError::KeyNotFound),
        1 <= k <= header.child_count ==> ordered_search(buffer, header, key, k) == match search_key(
            buffer,
            header,
            k,
        ) {
            None => Err(CursorError::EmbeddedOffsetOutOfBounds),
            Some(current) => if key == current {
                value_by_index(buffer, header, k - 1)
            } else if lex_lt(key, current) {
                ordered_search(buffer, header, key, 2 * k)
            } else {
                ordered_search(buffer, header, key, 2 * k + 1)
            },
        },
{
    reveal(ordered_search);
}

/// The seed of a perfect-hash map.
pub open spec fn chd_seed(buffer: Seq<u8>) -> Result<u32, CursorError> {
    read_u32(buffer, 5)
}

/// The displacement pair of bucket `bucket` of a perfect-hash map.
pub open spec fn chd_displacement(buffer: Seq<u8>, bucket: int) -> Result<(u32, u32), CursorError> {
    read_u32_pair(buffer, 9 + 8 * bucket)
}

/// The probe of a perfect-hash map, given the hash values of the key: the
/// bucket's displacement pair sends them to one entry, which is the answer if
/// it holds the key. An empty map holds no key.
pub open spec fn chd_probe(buffer: Seq<u8>, header: RawCursor, key: Seq<u8>, hashes: Hashes) -> Result<
    Located,
    CursorError,
> {
    let count = header.child_count as int;
    if count == 0 {
        Err(CursorError::KeyNotFound)
    } else {
        match chd_displacement(buffer, (hashes.g as int) % bucket_count(count)) {
            Err(e) => Err(e),
            Ok(d) => {
                let index = slot_of(hashes, d, count);
                match key_bytes_by_index(buffer, header, index) {
                    Err(e) => Err(e),
                    Ok(stored) => if stored == key {
                        value_by_index(buffer, header, index)
                    } else {
                        Err(CursorError::KeyNotFound)
                    },
                }
            },
        }
    }
}

/// The lookup of a key in a perfect-hash map.
pub open spec fn chd_lookup(buffer: Seq<u8>, header: RawCursor, key: Seq<u8>) -> Result<
    Located,
    CursorError,
> {
    match chd_seed(buffer) {
        Err(e) => Err(e),
        Ok(seed) => chd_probe(buffer, header, key, phf_hash(key, seed as u64)),
    }
}

/// The lookup of a key in a map of either layout.
pub open spec fn value_by_key(buffer: Seq<u8>, header: RawCursor, key: Seq<u8>) -> Result<
    Located,
    CursorError,
> {
    if header.element_type == ElementTypeCode::MapCHD {
        chd_lookup(buffer, header, key)
    } else {
        match map_table(buffer, header) {
            Err(e) => Err(e),
            Ok(_) => ordered_search(buffer, header, key, 1),
        }
    }
}

/// Nothing, if the node has the expected element type.
pub open spec fn expect_type(header: RawCursor, expected: ElementTypeCode) -> Result<
    (),
    CursorError,
> {
    if header.element_type == expected {
        Ok(())
    } else {
        Err(CursorError::WrongElementType { actual: header.element_type })
    }
}

/// The truth value of a `True` or `False` node.
pub open spec fn bool_value(header: RawCursor) -> Result<bool, CursorError> {
    if header.element_type == ElementTypeCode::True {
        Ok(true)
    } else if header.element_type == ElementTypeCode::False {
        Ok(false)
    } else {
        Err(CursorError::WrongElementType { actual: header.element_type })
    }
}

/// The four payload bytes of a node of the expected type, as a number.
pub open spec fn word_value(node: Seq<u8>, header: RawCursor, expected: ElementTypeCode) -> Result<
    u32,
    CursorError,
> {
    match expect_type(header, expected) {
        Err(e) => Err(e),
        Ok(_) => read_u32(node, 1),
    }
}

/// The eight payload bytes of a node of the expected type, as a number.
pub open spec fn long_value(node: Seq<u8>, header: RawCursor, expected: ElementTypeCode) -> Result<
    u64,
    CursorError,
> {
    match expect_type(header, expected) {
        Err(e) => Err(e),
        Ok(_) => read_u64(node, 1),
    }
}

/// The number that an `Int32` node holds.
pub open spec fn i32_value(node: Seq<u8>, header: RawCursor) -> Result<i32, CursorError> {
    match word_value(node, header, ElementTypeCode::Int32) {
        Err(e) => Err(e),
        Ok(u) => Ok(i32_from_bits(u)),
    }
}

/// The number that an `Int64` node holds.
pub open spec fn i64_value(node: Seq<u8>, header: RawCursor) -> Result<i64, CursorError> {
    match long_value(node, header, ElementTypeCode::Int64) {
        Err(e) => Err(e),
        Ok(u) => Ok(i64_from_bits(u)),
    }
}

/// The position of the first NUL byte at or after `from`, or the length of
/// the sequence if there is none.
pub open spec fn first_nul(bytes: Seq<u8>, from: int) -> int
    decreases bytes.len() - from,
{
    if from < 0 || from >= bytes.len() {
        bytes.len() as int
    } else if bytes[from] == 0 {
        from
    } else {
        first_nul(bytes, from + 1)
    }
}

/// The bytes of the text of a `String` node: the payload up to its first NUL.
pub open spec fn string_bytes(node: Seq<u8>, header: RawCursor) -> Result<Seq<u8>, CursorError> {
    match expect_type(header, ElementTypeCode::String) {
        Err(e) => Err(e),
        Ok(_) => if first_nul(node, 1) >= node.len() {
            Err(CursorError::UnterminatedString)
        } else {
            Ok(node.subrange(1, first_nul(node, 1)))
        },
    }
}

/// The text of a `String` node.
pub open spec fn string_value(node: Seq<u8>, header: RawCursor) -> Result<Seq<char>, CursorError> {
    match string_bytes(node, header) {
        Err(e) => Err(e),
        Ok(bytes) => if vstd::utf8::valid_utf8(bytes) {
            Ok(vstd::utf8::decode_utf8(bytes))
        } else {
            Err(CursorError::Utf8Error)
        },
    }
}

/// The payload of a `Binary` node: everything after the tag.
pub open spec fn binary_value(node: Seq<u8>, header: RawCursor) -> Result<Seq<u8>, CursorError> {
    match expect_type(header, ElementTypeCode::Binary) {
        Err(e) => Err(e),
        Ok(_) => if node.len() >= 1 {
            Ok(node.subrange(1, node.len() as int))
        } else {
            Err(CursorError::DocumentTooShort)
        },
    }
}

/// Entry `index` of a map as an iteration yields it: the key as text and the
/// range of the value, moved by `offset`. A key that lies outside the node is
/// `EmbeddedOffsetOutOfBounds`; a range that cannot be moved is
/// `DocumentTooShort`.
pub open spec fn map_item(buffer: Seq<u8>, header: RawCursor, offset: int, index: int) -> Result<
    (Seq<char>, int, int),
    CursorError,
> {
    let d = map_descriptor(buffer, header, index);
    if d.key_offset + d.key_length > buffer.len() {
        Err(CursorError::EmbeddedOffsetOutOfBounds)
    } else {
        let key = buffer.subrange(d.key_offset, d.key_offset + d.key_length);
        if !vstd::utf8::valid_utf8(key) {
            Err(CursorError::Utf8Error)
        } else {
            let end = if index < header.child_count - 1 {
                map_descriptor(buffer, header, index + 1).value_offset
            } else {
                buffer.len() as int
            };
            if offset + d.value_offset > usize::MAX || offset + end > usize::MAX {
                Err(CursorError::DocumentTooShort)
            } else {
                Ok((vstd::utf8::decode_utf8(key), offset + d.value_offset, offset + end))
            }
        }
    }
}

/// The range of child `index` of an array as an iteration yields it, moved by
/// `offset`; `None` where it cannot be moved.
pub open spec fn array_item(buffer: Seq<u8>, header: RawCursor, offset: int, index: int) -> Option<
    (int, int),
> {
    let start = read_u32(buffer, value_offset_position(header, index)).unwrap() as int;
    let end = if index < header.child_count - 1 {
        read_u32(buffer, value_offset_position(header, index + 1)).unwrap() as int
    } else {
        buffer.len() as int
    };
    if offset + start > usize::MAX || offset + end > usize::MAX {
        None
    } else {
        Some((offset + start, offset + end))
    }
}

} // verus!
