//! Reading back what the encoder lays out: where each piece of a container
//! node stands, and what the reader finds there.

use crate::bytes::{lemma_u32_le_roundtrip, read_u32, read_u32_pair, u32_to_le};
use crate::encoding::{
    array_fits, array_node, array_offset, array_table_first, concat_first, disps_first, keys_first,
    map_fits, map_key_offset, map_node, map_table_first, map_value_offset,
};
use crate::layout::{
    bucket_count, child_range, descriptors_offset, map_descriptor, map_table, MapDescriptor,
    parse_header, value_offset_position,
};
use crate::map_laws::stored_key;
use crate::raw_cursor::RawCursor;
use crate::types::{CursorError, ElementTypeCode};
use vstd::prelude::*;

verus! {

/// A word that stands at a place in a buffer is read back from that place.
pub proof fn lemma_read_word(buffer: Seq<u8>, at: int, x: u32)
    requires
        0 <= at,
        at + 4 <= buffer.len(),
        buffer.subrange(at, at + 4) == u32_to_le(x),
    ensures
        read_u32(buffer, at) == Ok::<u32, CursorError>(x),
{
    lemma_u32_le_roundtrip(x);
}

/// Two words that stand at a place in a buffer are read back from that place.
pub proof fn lemma_read_words(buffer: Seq<u8>, at: int, x: u32, y: u32)
    requires
        0 <= at,
        at + 8 <= buffer.len(),
        buffer.subrange(at, at + 8) == u32_to_le(x) + u32_to_le(y),
    ensures
        read_u32_pair(buffer, at) == Ok::<(u32, u32), CursorError>((x, y)),
        read_u32(buffer, at + 4) == Ok::<u32, CursorError>(y),
        read_u32(buffer, at) == Ok::<u32, CursorError>(x),
{
    lemma_u32_le_roundtrip(x);
    lemma_u32_le_roundtrip(y);
    let pair = buffer.subrange(at, at + 8);
    assert(pair.subrange(0, 4) =~= u32_to_le(x));
    assert(pair.subrange(4, 8) =~= u32_to_le(y));
    assert(buffer.subrange(at, at + 4) =~= u32_to_le(x));
    assert(buffer.subrange(at + 4, at + 8) =~= u32_to_le(y));
}

/// Where part `i` stands among the first `m` parts.
pub proof fn lemma_concat_part(parts: Seq<Seq<u8>>, i: int, m: int)
    requires
        0 <= i < m <= parts.len(),
    ensures
        concat_first(parts, i + 1).len() == concat_first(parts, i).len() + parts[i].len(),
        concat_first(parts, i + 1).len() <= concat_first(parts, m).len(),
        concat_first(parts, m).subrange(
            concat_first(parts, i).len() as int,
            concat_first(parts, i + 1).len() as int,
        ) == parts[i],
    decreases m - i,
{
    if i + 1 < m {
        lemma_concat_part(parts, i, m - 1);
        assert(concat_first(parts, m).subrange(
            concat_first(parts, i).len() as int,
            concat_first(parts, i + 1).len() as int,
        ) =~= concat_first(parts, m - 1).subrange(
            concat_first(parts, i).len() as int,
            concat_first(parts, i + 1).len() as int,
        ));
    } else {
        assert(concat_first(parts, m).subrange(
            concat_first(parts, i).len() as int,
            concat_first(parts, i + 1).len() as int,
        ) =~= parts[i]);
    }
}

/// The parts stand one after another: their lengths add up.
pub proof fn lemma_concat_grows(parts: Seq<Seq<u8>>, i: int, j: int)
    requires
        0 <= i <= j <= parts.len(),
    ensures
        concat_first(parts, i).len() <= concat_first(parts, j).len(),
    decreases j - i,
{
    if i < j {
        lemma_concat_grows(parts, i, j - 1);
    }
}

/// Where key `i` stands among the first `m` keys.
pub proof fn lemma_keys_part(keys: Seq<Seq<u8>>, i: int, m: int)
    requires
        0 <= i < m <= keys.len(),
    ensures
        keys_first(keys, i + 1).len() == keys_first(keys, i).len() + keys[i].len() + 1,
        keys_first(keys, i + 1).len() <= keys_first(keys, m).len(),
        keys_first(keys, m).subrange(
            keys_first(keys, i).len() as int,
            (keys_first(keys, i).len() + keys[i].len()) as int,
        ) == keys[i],
    decreases m - i,
{
    if i + 1 < m {
        lemma_keys_part(keys, i, m - 1);
        assert(keys_first(keys, m).subrange(
            keys_first(keys, i).len() as int,
            (keys_first(keys, i).len() + keys[i].len()) as int,
        ) =~= keys_first(keys, m - 1).subrange(
            keys_first(keys, i).len() as int,
            (keys_first(keys, i).len() + keys[i].len()) as int,
        ));
    } else {
        assert(keys_first(keys, m).subrange(
            keys_first(keys, i).len() as int,
            (keys_first(keys, i).len() + keys[i].len()) as int,
        ) =~= keys[i]);
    }
}

/// Where descriptor `i` stands among the first `m` descriptors of an array.
pub proof fn lemma_array_table_part(parts: Seq<Seq<u8>>, i: int, m: int)
    requires
        0 <= i < m,
    ensures
        array_table_first(parts, m).len() == 4 * m,
        array_table_first(parts, m).subrange(4 * i, 4 * i + 4) == u32_to_le(
            array_offset(parts, i) as u32,
        ),
    decreases m,
{
    lemma_array_table_len(parts, m - 1);
    if i + 1 < m {
        lemma_array_table_part(parts, i, m - 1);
        assert(array_table_first(parts, m).subrange(4 * i, 4 * i + 4) =~= array_table_first(
            parts,
            m - 1,
        ).subrange(4 * i, 4 * i + 4));
    } else {
        assert(array_table_first(parts, m).subrange(4 * i, 4 * i + 4) =~= u32_to_le(
            array_offset(parts, i) as u32,
        ));
    }
}

/// The descriptors of an array take four bytes each.
pub proof fn lemma_array_table_len(parts: Seq<Seq<u8>>, m: int)
    requires
        0 <= m,
    ensures
        array_table_first(parts, m).len() == 4 * m,
    decreases m,
{
    if m > 0 {
        lemma_array_table_len(parts, m - 1);
    }
}

/// The two words of descriptor `i` of a map.
pub open spec fn map_descriptor_words(extra: int, keys: Seq<Seq<u8>>, parts: Seq<Seq<u8>>, i: int) -> (
    u32,
    u32,
) {
    (
        (keys[i].len() * 0x100_0000 + map_key_offset(extra, keys, i)) as u32,
        map_value_offset(extra, keys, parts, i) as u32,
    )
}

/// The descriptors of a map take eight bytes each.
pub proof fn lemma_map_table_len(extra: int, keys: Seq<Seq<u8>>, parts: Seq<Seq<u8>>, m: int)
    requires
        0 <= m,
    ensures
        map_table_first(extra, keys, parts, m).len() == 8 * m,
    decreases m,
{
    if m > 0 {
        lemma_map_table_len(extra, keys, parts, m - 1);
    }
}

/// Where descriptor `i` stands among the first `m` descriptors of a map.
pub proof fn lemma_map_table_part(
    extra: int,
    keys: Seq<Seq<u8>>,
    parts: Seq<Seq<u8>>,
    i: int,
    m: int,
)
    requires
        0 <= i < m,
    ensures
        map_table_first(extra, keys, parts, m).len() == 8 * m,
        map_table_first(extra, keys, parts, m).subrange(8 * i, 8 * i + 8) == u32_to_le(
            map_descriptor_words(extra, keys, parts, i).0,
        ) + u32_to_le(map_descriptor_words(extra, keys, parts, i).1),
    decreases m,
{
    lemma_map_table_len(extra, keys, parts, m - 1);
    if i + 1 < m {
        lemma_map_table_part(extra, keys, parts, i, m - 1);
        assert(map_table_first(extra, keys, parts, m).subrange(8 * i, 8 * i + 8)
            =~= map_table_first(extra, keys, parts, m - 1).subrange(8 * i, 8 * i + 8));
    } else {
        assert(map_table_first(extra, keys, parts, m).subrange(8 * i, 8 * i + 8) =~= u32_to_le(
            map_descriptor_words(extra, keys, parts, i).0,
        ) + u32_to_le(map_descriptor_words(extra, keys, parts, i).1));
    }
}

/// Where pair `i` stands among the first `m` displacement pairs.
pub proof fn lemma_disps_part(disps: Seq<(u32, u32)>, i: int, m: int)
    requires
        0 <= i < m,
    ensures
        disps_first(disps, m).len() == 8 * m,
        disps_first(disps, m).subrange(8 * i, 8 * i + 8) == u32_to_le(disps[i].0) + u32_to_le(
            disps[i].1,
        ),
    decreases m,
{
    crate::serializer::lemma_disps_len(disps, m - 1);
    if i + 1 < m {
        lemma_disps_part(disps, i, m - 1);
        assert(disps_first(disps, m).subrange(8 * i, 8 * i + 8) =~= disps_first(
            disps,
            m - 1,
        ).subrange(8 * i, 8 * i + 8));
    } else {
        assert(disps_first(disps, m).subrange(8 * i, 8 * i + 8) =~= u32_to_le(disps[i].0)
            + u32_to_le(disps[i].1));
    }
}

/// The header of the array node of the given parts.
pub open spec fn array_header(parts: Seq<Seq<u8>>) -> RawCursor {
    RawCursor { element_type: ElementTypeCode::Array, child_count: parts.len() as u32 }
}

/// What a reader finds in an array node: its header, and for each child the
/// range that the descriptors declare, which holds the child's encoding.
pub proof fn lemma_array_node_reads(parts: Seq<Seq<u8>>, i: int)
    requires
        array_fits(parts),
        0 <= i < parts.len(),
    ensures
        parse_header(array_node(parts)) == Ok::<RawCursor, CursorError>(array_header(parts)),
        array_node(parts).len() == array_offset(parts, parts.len() as int),
        read_u32(array_node(parts), 5 + 4 * i) == Ok::<u32, CursorError>(
            array_offset(parts, i) as u32,
        ),
        child_range(array_node(parts), array_header(parts), i) == Ok::<(int, int), CursorError>(
            (array_offset(parts, i), array_offset(parts, i + 1)),
        ),
        array_offset(parts, i + 1) == array_offset(parts, i) + parts[i].len(),
        array_offset(parts, i + 1) <= array_node(parts).len(),
        array_node(parts).subrange(array_offset(parts, i), array_offset(parts, i + 1)) == parts[i],
{
    let n = parts.len() as int;
    let node = array_node(parts);
    let head = seq![0x04u8] + u32_to_le(n as u32);
    let table = array_table_first(parts, n);
    let body = concat_first(parts, n);
    let header = array_header(parts);
    lemma_u32_le_roundtrip(n as u32);
    lemma_array_table_len(parts, n);
    assert(node =~= head + table + body);
    assert(node.subrange(1, 5) =~= u32_to_le(n as u32));
    lemma_read_word(node, 1, n as u32);
    assert(node[0] == 0x04u8);
    lemma_array_word(parts, i);
    lemma_concat_part(parts, i, n);
    assert(node.subrange(array_offset(parts, i), array_offset(parts, i + 1)) =~= body.subrange(
        concat_first(parts, i).len() as int,
        concat_first(parts, i + 1).len() as int,
    ));
    assert(value_offset_position(header, i) == 5 + 4 * i);
    if i + 1 < n {
        lemma_array_word(parts, i + 1);
        assert(value_offset_position(header, i + 1) == 5 + 4 * (i + 1));
    }
}

/// The word that descriptor `i` of an array node holds.
pub proof fn lemma_array_word(parts: Seq<Seq<u8>>, i: int)
    requires
        array_fits(parts),
        0 <= i < parts.len(),
    ensures
        read_u32(array_node(parts), 5 + 4 * i) == Ok::<u32, CursorError>(
            array_offset(parts, i) as u32,
        ),
        array_offset(parts, i) as u32 == array_offset(parts, i),
{
    let n = parts.len() as int;
    let node = array_node(parts);
    let head = seq![0x04u8] + u32_to_le(n as u32);
    let table = array_table_first(parts, n);
    let body = concat_first(parts, n);
    lemma_array_table_part(parts, i, n);
    assert(node =~= head + table + body);
    assert(node.subrange(5 + 4 * i, 5 + 4 * i + 4) =~= table.subrange(4 * i, 4 * i + 4));
    lemma_read_word(node, 5 + 4 * i, array_offset(parts, i) as u32);
    assert(array_offset(parts, i) <= u32::MAX);
}

/// The header of a map node with the given tag and number of entries.
pub open spec fn map_header(tag: u8, count: int) -> RawCursor {
    RawCursor {
        element_type: if tag == 0x20 {
            ElementTypeCode::MapCHD
        } else {
            ElementTypeCode::OrderedMap
        },
        child_count: count as u32,
    }
}

/// Whether a map node can be laid out: the tag is one of the two map tags,
/// the extra header bytes are as many as the tag asks for, there is a value
/// for every key, no key is too long, and every offset fits its field.
pub open spec fn map_layout_ok(tag: u8, extra: Seq<u8>, keys: Seq<Seq<u8>>, parts: Seq<Seq<u8>>) -> bool {
    &&& (tag == 0x03 && extra.len() == 0) || (tag == 0x20 && extra.len() == 4 + 8 * bucket_count(
        keys.len() as int,
    ))
    &&& keys.len() == parts.len()
    &&& forall|k: int| 0 <= k < keys.len() ==> (#[trigger] keys[k]).len() <= 255
    &&& map_fits(extra.len() as int, keys, parts)
}

/// The pieces of a map node, and where each starts.
pub proof fn lemma_map_node_pieces(tag: u8, extra: Seq<u8>, keys: Seq<Seq<u8>>, parts: Seq<Seq<u8>>)
    requires
        map_layout_ok(tag, extra, keys, parts),
    ensures
        parse_header(map_node(tag, extra, keys, parts)) == Ok::<RawCursor, CursorError>(
            map_header(tag, keys.len() as int),
        ),
        descriptors_offset(map_header(tag, keys.len() as int)) == 5 + extra.len(),
        map_table(map_node(tag, extra, keys, parts), map_header(tag, keys.len() as int)).is_ok(),
        map_node(tag, extra, keys, parts).len() == map_value_offset(
            extra.len() as int,
            keys,
            parts,
            keys.len() as int,
        ),
        map_node(tag, extra, keys, parts).subrange(5, 5 + extra.len() as int) == extra,
{
    let n = keys.len() as int;
    let e = extra.len() as int;
    let node = map_node(tag, extra, keys, parts);
    let table = map_table_first(e, keys, parts, n);
    let block = keys_first(keys, n);
    let body = concat_first(parts, n);
    lemma_u32_le_roundtrip(n as u32);
    lemma_map_table_len(e, keys, parts, n);
    assert(node =~= seq![tag] + u32_to_le(n as u32) + extra + table + block + body);
    assert(node[0] == tag);
    assert(node.subrange(1, 5) =~= u32_to_le(n as u32));
    lemma_read_word(node, 1, n as u32);
    assert(node.subrange(5, 5 + e) =~= extra);
}

/// A stretch of the key block of a map node, as a stretch of the node.
pub proof fn lemma_map_node_key_block(
    tag: u8,
    extra: Seq<u8>,
    keys: Seq<Seq<u8>>,
    parts: Seq<Seq<u8>>,
    from: int,
    to: int,
)
    requires
        0 <= from <= to <= keys_first(keys, keys.len() as int).len(),
    ensures
        5 + extra.len() + 8 * keys.len() + to <= map_node(tag, extra, keys, parts).len(),
        map_node(tag, extra, keys, parts).subrange(
            5 + extra.len() + 8 * keys.len() + from,
            5 + extra.len() + 8 * keys.len() + to,
        ) == keys_first(keys, keys.len() as int).subrange(from, to),
{
    let n = keys.len() as int;
    let e = extra.len() as int;
    let node = map_node(tag, extra, keys, parts);
    let head = seq![tag] + u32_to_le(n as u32) + extra + map_table_first(e, keys, parts, n);
    let block = keys_first(keys, n);
    let body = concat_first(parts, n);
    lemma_map_table_len(e, keys, parts, n);
    assert(head.len() == 5 + e + 8 * n);
    assert(node =~= head + block + body);
    assert(node.subrange(5 + e + 8 * n + from, 5 + e + 8 * n + to) =~= block.subrange(from, to));
}

/// A stretch of the values of a map node, as a stretch of the node.
pub proof fn lemma_map_node_body(
    tag: u8,
    extra: Seq<u8>,
    keys: Seq<Seq<u8>>,
    parts: Seq<Seq<u8>>,
    from: int,
    to: int,
)
    requires
        0 <= from <= to <= concat_first(parts, keys.len() as int).len(),
    ensures
        map_node(tag, extra, keys, parts).len() == 5 + extra.len() + 8 * keys.len() + keys_first(
            keys,
            keys.len() as int,
        ).len() + concat_first(parts, keys.len() as int).len(),
        map_node(tag, extra, keys, parts).subrange(
            5 + extra.len() + 8 * keys.len() + keys_first(keys, keys.len() as int).len() + from,
            5 + extra.len() + 8 * keys.len() + keys_first(keys, keys.len() as int).len() + to,
        ) == concat_first(parts, keys.len() as int).subrange(from, to),
{
    let n = keys.len() as int;
    let e = extra.len() as int;
    let node = map_node(tag, extra, keys, parts);
    let head = seq![tag] + u32_to_le(n as u32) + extra + map_table_first(e, keys, parts, n)
        + keys_first(keys, n);
    let body = concat_first(parts, n);
    lemma_map_table_len(e, keys, parts, n);
    assert(head.len() == 5 + e + 8 * n + keys_first(keys, n).len());
    assert(node =~= head + body);
    assert(node.subrange(head.len() + from, head.len() + to) =~= body.subrange(from, to));
}

/// The descriptor that a reader finds at entry `i` of a map node.
pub proof fn lemma_map_node_descriptor(
    tag: u8,
    extra: Seq<u8>,
    keys: Seq<Seq<u8>>,
    parts: Seq<Seq<u8>>,
    i: int,
)
    requires
        map_layout_ok(tag, extra, keys, parts),
        0 <= i < keys.len(),
    ensures
        map_descriptor(
            map_node(tag, extra, keys, parts),
            map_header(tag, keys.len() as int),
            i,
        ) == (MapDescriptor {
            key_offset: map_key_offset(extra.len() as int, keys, i),
            key_length: keys[i].len() as int,
            value_offset: map_value_offset(extra.len() as int, keys, parts, i),
        }),
        read_u32(
            map_node(tag, extra, keys, parts),
            value_offset_position(map_header(tag, keys.len() as int), i),
        ) == Ok::<u32, CursorError>(map_value_offset(extra.len() as int, keys, parts, i) as u32),
        map_value_offset(extra.len() as int, keys, parts, i) as u32 == map_value_offset(
            extra.len() as int,
            keys,
            parts,
            i,
        ),
{
    let header = map_header(tag, keys.len() as int);
    assert(descriptors_offset(header) == 5 + extra.len());
    assert(value_offset_position(header, i) == 5 + extra.len() + 8 * i + 4);
    lemma_map_words(tag, extra, keys, parts, i);
}

/// The key that a reader finds at entry `i` of a map node.
pub proof fn lemma_map_node_key(
    tag: u8,
    extra: Seq<u8>,
    keys: Seq<Seq<u8>>,
    parts: Seq<Seq<u8>>,
    i: int,
)
    requires
        map_layout_ok(tag, extra, keys, parts),
        0 <= i < keys.len(),
    ensures
        map_key_offset(extra.len() as int, keys, i) + keys[i].len() <= map_node(
            tag,
            extra,
            keys,
            parts,
        ).len(),
        stored_key(map_node(tag, extra, keys, parts), map_header(tag, keys.len() as int), i)
            == keys[i],
{
    let n = keys.len() as int;
    lemma_map_node_descriptor(tag, extra, keys, parts, i);
    lemma_keys_part(keys, i, n);
    lemma_map_node_key_block(
        tag,
        extra,
        keys,
        parts,
        keys_first(keys, i).len() as int,
        (keys_first(keys, i).len() + keys[i].len()) as int,
    );
}

/// The range of the value that a reader finds at entry `i` of a map node.
pub proof fn lemma_map_node_value(
    tag: u8,
    extra: Seq<u8>,
    keys: Seq<Seq<u8>>,
    parts: Seq<Seq<u8>>,
    i: int,
)
    requires
        map_layout_ok(tag, extra, keys, parts),
        0 <= i < keys.len(),
    ensures
        child_range(map_node(tag, extra, keys, parts), map_header(tag, keys.len() as int), i)
            == Ok::<(int, int), CursorError>(
            (
                map_value_offset(extra.len() as int, keys, parts, i),
                map_value_offset(extra.len() as int, keys, parts, i + 1),
            ),
        ),
        map_value_offset(extra.len() as int, keys, parts, i + 1) == map_value_offset(
            extra.len() as int,
            keys,
            parts,
            i,
        ) + parts[i].len(),
        map_value_offset(extra.len() as int, keys, parts, i + 1) <= map_node(
            tag,
            extra,
            keys,
            parts,
        ).len(),
        map_node(tag, extra, keys, parts).subrange(
            map_value_offset(extra.len() as int, keys, parts, i),
            map_value_offset(extra.len() as int, keys, parts, i + 1),
        ) == parts[i],
{
    let n = keys.len() as int;
    let header = map_header(tag, n);
    lemma_map_node_descriptor(tag, extra, keys, parts, i);
    if i + 1 < n {
        lemma_map_node_descriptor(tag, extra, keys, parts, i + 1);
    }
    lemma_concat_part(parts, i, n);
    lemma_map_node_body(
        tag,
        extra,
        keys,
        parts,
        concat_first(parts, i).len() as int,
        concat_first(parts, i + 1).len() as int,
    );
    assert(header.child_count == n);
    assert(header.element_type.is_container());
}

/// What a reader finds at entry `i` of a map node: the descriptor that the
/// encoder wrote, the key, and the range that holds the value's encoding.
pub proof fn lemma_map_node_reads(
    tag: u8,
    extra: Seq<u8>,
    keys: Seq<Seq<u8>>,
    parts: Seq<Seq<u8>>,
    i: int,
)
    requires
        map_layout_ok(tag, extra, keys, parts),
        0 <= i < keys.len(),
    ensures
        map_descriptor(
            map_node(tag, extra, keys, parts),
            map_header(tag, keys.len() as int),
            i,
        ) == (MapDescriptor {
            key_offset: map_key_offset(extra.len() as int, keys, i),
            key_length: keys[i].len() as int,
            value_offset: map_value_offset(extra.len() as int, keys, parts, i),
        }),
        map_key_offset(extra.len() as int, keys, i) + keys[i].len() <= map_node(
            tag,
            extra,
            keys,
            parts,
        ).len(),
        stored_key(map_node(tag, extra, keys, parts), map_header(tag, keys.len() as int), i)
            == keys[i],
        child_range(map_node(tag, extra, keys, parts), map_header(tag, keys.len() as int), i)
            == Ok::<(int, int), CursorError>(
            (
                map_value_offset(extra.len() as int, keys, parts, i),
                map_value_offset(extra.len() as int, keys, parts, i + 1),
            ),
        ),
        map_value_offset(extra.len() as int, keys, parts, i + 1) == map_value_offset(
            extra.len() as int,
            keys,
            parts,
            i,
        ) + parts[i].len(),
        map_value_offset(extra.len() as int, keys, parts, i + 1) <= map_node(
            tag,
            extra,
            keys,
            parts,
        ).len(),
        map_node(tag, extra, keys, parts).subrange(
            map_value_offset(extra.len() as int, keys, parts, i),
            map_value_offset(extra.len() as int, keys, parts, i + 1),
        ) == parts[i],
{
    lemma_map_node_descriptor(tag, extra, keys, parts, i);
    lemma_map_node_key(tag, extra, keys, parts, i);
    lemma_map_node_value(tag, extra, keys, parts, i);
}

/// The two words that descriptor `i` of a map node holds.
pub proof fn lemma_map_words(
    tag: u8,
    extra: Seq<u8>,
    keys: Seq<Seq<u8>>,
    parts: Seq<Seq<u8>>,
    i: int,
)
    requires
        map_layout_ok(tag, extra, keys, parts),
        0 <= i < keys.len(),
    ensures
        read_u32_pair(map_node(tag, extra, keys, parts), 5 + extra.len() + 8 * i) == Ok::<
            (u32, u32),
            CursorError,
        >(map_descriptor_words(extra.len() as int, keys, parts, i)),
        read_u32(map_node(tag, extra, keys, parts), 5 + extra.len() + 8 * i + 4) == Ok::<
            u32,
            CursorError,
        >(map_descriptor_words(extra.len() as int, keys, parts, i).1),
        map_descriptor_words(extra.len() as int, keys, parts, i).0 as int % 0x100_0000
            == map_key_offset(extra.len() as int, keys, i),
        map_descriptor_words(extra.len() as int, keys, parts, i).0 as int / 0x100_0000
            == keys[i].len(),
        map_descriptor_words(extra.len() as int, keys, parts, i).1 == map_value_offset(
            extra.len() as int,
            keys,
            parts,
            i,
        ),
{
    lemma_map_words_stand(tag, extra, keys, parts, i);
    let e = extra.len() as int;
    let ko = map_key_offset(e, keys, i);
    let kl = keys[i].len() as int;
    assert(0 <= ko < 0x100_0000);
    assert(0 <= kl <= 255);
    lemma_packed_key(kl, ko);
    assert(map_value_offset(e, keys, parts, i) <= u32::MAX);
}

/// Where the two words of descriptor `i` stand in a map node.
pub proof fn lemma_map_words_stand(
    tag: u8,
    extra: Seq<u8>,
    keys: Seq<Seq<u8>>,
    parts: Seq<Seq<u8>>,
    i: int,
)
    requires
        0 <= i < keys.len(),
    ensures
        read_u32_pair(map_node(tag, extra, keys, parts), 5 + extra.len() + 8 * i) == Ok::<
            (u32, u32),
            CursorError,
        >(map_descriptor_words(extra.len() as int, keys, parts, i)),
        read_u32(map_node(tag, extra, keys, parts), 5 + extra.len() + 8 * i + 4) == Ok::<
            u32,
            CursorError,
        >(map_descriptor_words(extra.len() as int, keys, parts, i).1),
{
    let n = keys.len() as int;
    let e = extra.len() as int;
    let node = map_node(tag, extra, keys, parts);
    let head = seq![tag] + u32_to_le(n as u32) + extra;
    let table = map_table_first(e, keys, parts, n);
    let rest = keys_first(keys, n) + concat_first(parts, n);
    let words = map_descriptor_words(e, keys, parts, i);
    lemma_map_table_part(e, keys, parts, i, n);
    assert(head.len() == 5 + e);
    assert(node =~= head + table + rest);
    assert(node.subrange(5 + e + 8 * i, 5 + e + 8 * i + 8) =~= table.subrange(8 * i, 8 * i + 8));
    lemma_read_words(node, 5 + e + 8 * i, words.0, words.1);
}

/// A key's length and offset are read back from the word that packs them.
pub proof fn lemma_packed_key(length: int, offset: int)
    requires
        0 <= length <= 255,
        0 <= offset < 0x100_0000,
    ensures
        length * 0x100_0000 + offset <= u32::MAX,
        (length * 0x100_0000 + offset) % 0x100_0000 == offset,
        (length * 0x100_0000 + offset) / 0x100_0000 == length,
{
}

} // verus!
