//! The serializer: from a value tree to the bytes of a document.

use crate::bytes::{i32_bits, i64_bits, push_bytes, push_u32, push_u64, u32_to_le, u64_to_le};
use crate::chd::{
    chd_first_seed, FIRST_SEED, HashState, keys_view, SEED_ATTEMPTS, try_generate_hash,
};
use crate::encoding::{
    arranged, array_fits, array_node, array_offset, array_table_first, chd_extra, chd_map_encoding,
    concat_first, disps_first, encode_entries, encode_items, encoding, entry_keys, has_long_key,
    keys_first, map_encoding, map_fits, map_key_offset, map_node, map_table_first, map_value_offset,
    ordered_layout, ordered_map_encoding, positions,
};
use crate::heap_order::collect_permutation;
use crate::sorting::{has_duplicates, sorted_positions};
use crate::value::{SerializeError, Value};
use vstd::prelude::*;

verus! {

/// How a document is to be encoded.
#[derive(Copy, Clone, Debug)]
pub struct SerializationOptions {
    /// The least number of entries from which a map is encoded as a
    /// perfect-hash map. Smaller maps are encoded as ordered maps, which are
    /// faster to build and smaller, but slower to search.
    pub chd_threshold: usize,
}

impl Default for SerializationOptions {
    fn default() -> (res: Self)
        ensures
            res.chd_threshold == 8000,
    {
        Self { chd_threshold: 8000 }
    }
}

/// The byte sequences that a list of buffers holds.
pub open spec fn parts_view(parts: Seq<Vec<u8>>) -> Seq<Seq<u8>> {
    Seq::new(parts.len(), |i: int| parts[i]@)
}

/// The two's-complement bits of an `i32`.
pub fn i32_to_bits(x: i32) -> (u: u32)
    ensures
        u == i32_bits(x),
{
    if x >= 0 {
        x as u32
    } else {
        ((x + 0x7fff_ffff) + 1) as u32 + 0x8000_0000u32
    }
}

/// The two's-complement bits of an `i64`.
pub fn i64_to_bits(x: i64) -> (u: u64)
    ensures
        u == i64_bits(x),
{
    if x >= 0 {
        x as u64
    } else {
        ((x + 0x7fff_ffff_ffff_ffff) + 1) as u64 + 0x8000_0000_0000_0000u64
    }
}

/// Builds the array node whose children have the given encodings.
pub fn write_array(parts: &Vec<Vec<u8>>) -> (res: Result<Vec<u8>, SerializeError>)
    ensures
        match res {
            Ok(out) => array_fits(parts_view(parts@)) && out@ == array_node(parts_view(parts@)),
            Err(e) => !array_fits(parts_view(parts@)) && e == SerializeError::DocumentTooLarge,
        },
{
    let ghost pv = parts_view(parts@);
    let n = parts.len();
    if n > u32::MAX as usize {
        return Err(SerializeError::DocumentTooLarge);
    }
    let mut out: Vec<u8> = Vec::new();
    out.push(0x04u8);
    push_u32(&mut out, n as u32);
    let ghost head = out@;
    assert(head =~= seq![0x04u8] + u32_to_le(n as u32));
    let mut offset: u128 = 5 + 4 * (n as u128);
    let mut i: usize = 0;
    while i < n
        invariant
            i <= n,
            n == parts@.len(),
            n <= u32::MAX,
            pv == parts_view(parts@),
            offset == array_offset(pv, i as int),
            offset <= 5 + 4 * n + i * 0x1_0000_0000_0000_0000,
            forall|j: int| 0 <= j < i ==> #[trigger] array_offset(pv, j) <= u32::MAX,
            out@ == head + array_table_first(pv, i as int),
        decreases n - i,
    {
        if offset > u32::MAX as u128 {
            return Err(SerializeError::DocumentTooLarge);
        }
        push_u32(&mut out, offset as u32);
        assert(pv[i as int] == parts@[i as int]@);
        assert(concat_first(pv, i + 1) == concat_first(pv, i as int) + pv[i as int]);
        offset = offset + parts[i].len() as u128;
        i += 1;
        assert(out@ =~= head + array_table_first(pv, i as int));
    }
    let mut k: usize = 0;
    let ghost table = out@;
    while k < n
        invariant
            k <= n,
            n == parts@.len(),
            pv == parts_view(parts@),
            out@ == table + concat_first(pv, k as int),
        decreases n - k,
    {
        push_bytes(&mut out, parts[k].as_slice());
        assert(pv[k as int] == parts@[k as int]@);
        k += 1;
        assert(out@ =~= table + concat_first(pv, k as int));
    }
    assert(out@ =~= array_node(pv));
    Ok(out)
}

/// What a function that appends an encoding owes: on success the output has
/// grown by exactly the expected bytes and their number is returned; it fails
/// exactly where the encoding fails, with the same error.
pub open spec fn appended(
    before: Seq<u8>,
    after: Seq<u8>,
    res: Result<usize, SerializeError>,
    expected: Result<Seq<u8>, SerializeError>,
) -> bool {
    match res {
        Ok(written) => expected matches Ok(bytes) && after == before + bytes && written
            == bytes.len(),
        Err(e) => expected == Err::<Seq<u8>, SerializeError>(e),
    }
}

/// The keys of a list of placed entries.
pub open spec fn placed_keys(entries: Seq<(&[u8], &Vec<u8>)>) -> Seq<Seq<u8>> {
    Seq::new(entries.len(), |i: int| entries[i].0@)
}

/// The encoded values of a list of placed entries.
pub open spec fn placed_parts(entries: Seq<(&[u8], &Vec<u8>)>) -> Seq<Seq<u8>> {
    Seq::new(entries.len(), |i: int| entries[i].1@)
}

/// What `encode_kvs` appends: the descriptors, then the keys, then the values.
pub open spec fn map_body(extra: int, keys: Seq<Seq<u8>>, parts: Seq<Seq<u8>>) -> Seq<u8> {
    map_table_first(extra, keys, parts, keys.len() as int) + keys_first(keys, keys.len() as int)
        + concat_first(parts, keys.len() as int)
}

/// Appends the entries of a map, in the order given: all descriptors, then
/// all keys, each followed by a NUL, then all values.
///
/// `descriptors_offset` is the number of bytes of this node that stand before
/// the descriptors: the offsets in the descriptors count from the start of
/// the node. Returns the number of bytes appended.
pub fn encode_kvs(
    entries: &Vec<(&[u8], &Vec<u8>)>,
    output: &mut Vec<u8>,
    descriptors_offset: usize,
) -> (res: Result<usize, SerializeError>)
    ensures
        match res {
            Ok(written) => {
                &&& !has_long_key(placed_keys(entries@))
                &&& map_fits(
                    descriptors_offset - 5,
                    placed_keys(entries@),
                    placed_parts(entries@),
                )
                &&& final(output)@ == old(output)@ + map_body(
                    descriptors_offset - 5,
                    placed_keys(entries@),
                    placed_parts(entries@),
                )
                &&& written == final(output)@.len() - old(output)@.len()
            },
            Err(e) => if has_long_key(placed_keys(entries@)) {
                e == SerializeError::KeyTooLong
            } else {
                e == SerializeError::DocumentTooLarge && !map_fits(
                    descriptors_offset - 5,
                    placed_keys(entries@),
                    placed_parts(entries@),
                )
            },
        },
{
    let ghost keys = placed_keys(entries@);
    let ghost parts = placed_parts(entries@);
    let ghost extra = descriptors_offset - 5;
    let ghost before = output@;
    let start = output.len();
    let n = entries.len();
    let mut total_key_size: u128 = 0;
    let mut i: usize = 0;
    while i < n
        invariant
            i <= n,
            n == entries@.len(),
            keys == placed_keys(entries@),
            total_key_size == keys_first(keys, i as int).len(),
            total_key_size <= i * 256,
            forall|j: int| 0 <= j < i ==> (#[trigger] keys[j]).len() <= 255,
        decreases n - i,
    {
        let key_length = entries[i].0.len();
        assert(keys[i as int] == entries@[i as int].0@);
        if key_length > 255 {
            return Err(SerializeError::KeyTooLong);
        }
        total_key_size = total_key_size + key_length as u128 + 1;
        i += 1;
    }
    assert(!has_long_key(keys));
    if n > u32::MAX as usize {
        return Err(SerializeError::DocumentTooLarge);
    }
    let table_end: u128 = descriptors_offset as u128 + 8 * (n as u128);
    if table_end >= 0x100_0000 {
        assert(map_key_offset(extra, keys, 0) >= 0x100_0000);
        return Err(SerializeError::DocumentTooLarge);
    }
    let mut key_offset: u128 = table_end;
    let mut value_offset: u128 = table_end + total_key_size;
    i = 0;
    while i < n
        invariant
            i <= n,
            n == entries@.len(),
            n <= u32::MAX,
            keys == placed_keys(entries@),
            parts == placed_parts(entries@),
            extra == descriptors_offset - 5,
            table_end == descriptors_offset + 8 * n,
            table_end < 0x100_0000,
            total_key_size == keys_first(keys, n as int).len(),
            total_key_size <= n * 256,
            forall|j: int| 0 <= j < n ==> (#[trigger] keys[j]).len() <= 255,
            key_offset == map_key_offset(extra, keys, i as int),
            value_offset == map_value_offset(extra, keys, parts, i as int),
            key_offset <= table_end + i * 256,
            value_offset <= table_end + total_key_size + i * 0x1_0000_0000_0000_0000,
            forall|j: int| 0 <= j < i ==> #[trigger] map_key_offset(extra, keys, j) < 0x100_0000,
            forall|j: int|
                0 <= j < i ==> #[trigger] map_value_offset(extra, keys, parts, j) <= u32::MAX,
            output@ == before + map_table_first(extra, keys, parts, i as int),
        decreases n - i,
    {
        if key_offset >= 0x100_0000 || value_offset > u32::MAX as u128 {
            return Err(SerializeError::DocumentTooLarge);
        }
        let key_length = entries[i].0.len();
        assert(keys[i as int] == entries@[i as int].0@);
        assert(parts[i as int] == entries@[i as int].1@);
        let key_data: u32 = (key_length as u32) * 0x100_0000 + key_offset as u32;
        push_u32(output, key_data);
        push_u32(output, value_offset as u32);
        key_offset = key_offset + key_length as u128 + 1;
        value_offset = value_offset + entries[i].1.len() as u128;
        i += 1;
        assert(output@ =~= before + map_table_first(extra, keys, parts, i as int));
    }
    assert(map_fits(extra, keys, parts));
    let ghost table = output@;
    i = 0;
    while i < n
        invariant
            i <= n,
            n == entries@.len(),
            keys == placed_keys(entries@),
            output@ == table + keys_first(keys, i as int),
        decreases n - i,
    {
        push_bytes(output, entries[i].0);
        output.push(0u8);
        assert(keys[i as int] == entries@[i as int].0@);
        i += 1;
        assert(output@ =~= table + keys_first(keys, i as int));
    }
    let ghost keyed = output@;
    i = 0;
    while i < n
        invariant
            i <= n,
            n == entries@.len(),
            parts == placed_parts(entries@),
            output@ == keyed + concat_first(parts, i as int),
        decreases n - i,
    {
        push_bytes(output, entries[i].1.as_slice());
        assert(parts[i as int] == entries@[i as int].1@);
        i += 1;
        assert(output@ =~= keyed + concat_first(parts, i as int));
    }
    assert(output@ =~= before + map_body(extra, keys, parts));
    Ok(output.len() - start)
}

/// Lists the entries in the order given.
pub(crate) fn arrange<'a>(entries: &Vec<(&'a [u8], &'a Vec<u8>)>, order: &Vec<usize>) -> (res: Vec<
    (&'a [u8], &'a Vec<u8>),
>)
    requires
        forall|i: int| 0 <= i < order@.len() ==> (#[trigger] order@[i]) < entries@.len(),
    ensures
        res@.len() == order@.len(),
        placed_keys(res@) == arranged(placed_keys(entries@), positions(order@)),
        placed_parts(res@) == arranged(placed_parts(entries@), positions(order@)),
{
    let mut res: Vec<(&'a [u8], &'a Vec<u8>)> = Vec::new();
    let mut i: usize = 0;
    while i < order.len()
        invariant
            i <= order@.len(),
            res@.len() == i,
            forall|j: int| 0 <= j < order@.len() ==> (#[trigger] order@[j]) < entries@.len(),
            forall|j: int| 0 <= j < i ==> (#[trigger] res@[j]) == entries@[order@[j] as int],
        decreases order@.len() - i,
    {
        res.push(entries[order[i]]);
        i += 1;
    }
    assert(placed_keys(res@) =~= arranged(placed_keys(entries@), positions(order@)));
    assert(placed_parts(res@) =~= arranged(placed_parts(entries@), positions(order@)));
    res
}

/// Whether some key of the entries is longer than 255 bytes.
pub fn has_long_keys(entries: &Vec<(&[u8], &Vec<u8>)>) -> (res: bool)
    ensures
        res == has_long_key(placed_keys(entries@)),
{
    let mut i: usize = 0;
    while i < entries.len()
        invariant
            i <= entries@.len(),
            forall|j: int| 0 <= j < i ==> (#[trigger] placed_keys(entries@)[j]).len() <= 255,
        decreases entries@.len() - i,
    {
        assert(placed_keys(entries@)[i as int] == entries@[i as int].0@);
        if entries[i].0.len() > 255 {
            return true;
        }
        i += 1;
    }
    false
}

/// The encoding of the entries as an ordered map, where no key is too long.
pub open spec fn ordered_entries_encoding(keys: Seq<Seq<u8>>, parts: Seq<Seq<u8>>) -> Result<
    Seq<u8>,
    SerializeError,
> {
    if has_long_key(keys) {
        Err(SerializeError::KeyTooLong)
    } else {
        ordered_map_encoding(keys, parts)
    }
}

/// Appends the ordered map node of the entries, given the positions of the
/// keys in ascending order. On an error the output may have grown.
fn write_ordered(
    entries: &Vec<(&[u8], &Vec<u8>)>,
    sorted: &Vec<usize>,
    output: &mut Vec<u8>,
) -> (res: Result<usize, SerializeError>)
    requires
        !has_long_key(placed_keys(entries@)),
        sorted@.len() == entries@.len(),
        forall|s: int|
            0 <= s < sorted@.len() ==> (#[trigger] sorted@[s]) as int == crate::encoding::sorted_order(
                placed_keys(entries@),
            )[s],
        forall|s: int| 0 <= s < sorted@.len() ==> (#[trigger] sorted@[s]) < entries@.len(),
    ensures
        appended(
            old(output)@,
            final(output)@,
            res,
            ordered_map_encoding(placed_keys(entries@), placed_parts(entries@)),
        ),
{
    let ghost keys = placed_keys(entries@);
    let ghost parts = placed_parts(entries@);
    let ghost before = output@;
    let n = entries.len();
    if n >= 0x20_0000 {
        assert(crate::encoding::map_key_offset(0, arranged(keys, ordered_layout(keys)), 0)
            >= 0x100_0000);
        return Err(SerializeError::DocumentTooLarge);
    }
    let perm = collect_permutation(n);
    proof {
        crate::heap_order::lemma_rank_is_permutation(n as int);
    }
    let mut order: Vec<usize> = Vec::new();
    let mut i: usize = 0;
    while i < n
        invariant
            i <= n,
            n == entries@.len(),
            n == sorted@.len(),
            n == perm@.len(),
            order@.len() == i,
            keys == placed_keys(entries@),
            forall|j: int| 0 <= j < n ==> (#[trigger] perm@[j]) < n,
            forall|j: int|
                0 <= j < n ==> (#[trigger] perm@[j]) == crate::heap_order::inorder_rank(
                    j + 1,
                    n as int,
                ),
            forall|s: int|
                0 <= s < n ==> (#[trigger] sorted@[s]) as int == crate::encoding::sorted_order(
                    keys,
                )[s],
            forall|s: int| 0 <= s < n ==> (#[trigger] sorted@[s]) < n,
            forall|j: int| 0 <= j < i ==> (#[trigger] order@[j]) < n,
            forall|j: int| 0 <= j < i ==> (#[trigger] order@[j]) as int == ordered_layout(keys)[j],
        decreases n - i,
    {
        let rank = perm[i];
        order.push(sorted[rank]);
        i += 1;
    }
    assert(positions(order@) =~= ordered_layout(keys));
    let placed = arrange(entries, &order);
    let start = output.len();
    output.push(0x03u8);
    push_u32(output, n as u32);
    let ghost head = output@;
    encode_kvs(&placed, output, 5)?;
    proof {
        let pk = arranged(keys, ordered_layout(keys));
        let pp = arranged(parts, ordered_layout(keys));
        assert(output@ =~= before + map_node(0x03, Seq::empty(), pk, pp));
    }
    Ok(output.len() - start)
}

/// Appends the ordered map node of the entries: the keys sorted bytewise and
/// laid out as a binary search tree, level by level. Returns the number of
/// bytes appended. On an error the output may have grown.
pub fn serialize_eytzinger(entries: &Vec<(&[u8], &Vec<u8>)>, output: &mut Vec<u8>) -> (res: Result<
    usize,
    SerializeError,
>)
    ensures
        appended(
            old(output)@,
            final(output)@,
            res,
            ordered_entries_encoding(placed_keys(entries@), placed_parts(entries@)),
        ),
{
    if has_long_keys(entries) {
        return Err(SerializeError::KeyTooLong);
    }
    let sorted = sorted_positions(entries);
    write_ordered(entries, &sorted, output)
}

/// The encoding of the entries as a perfect-hash map, where no key is too
/// long.
pub open spec fn chd_entries_encoding(keys: Seq<Seq<u8>>, parts: Seq<Seq<u8>>) -> Result<
    Seq<u8>,
    SerializeError,
> {
    if has_long_key(keys) {
        Err(SerializeError::KeyTooLong)
    } else {
        chd_map_encoding(keys, parts)
    }
}

/// Appends the perfect-hash map node of the entries. On an error the output
/// may have grown.
fn write_chd(entries: &Vec<(&[u8], &Vec<u8>)>, output: &mut Vec<u8>) -> (res: Result<
    usize,
    SerializeError,
>)
    requires
        !has_long_key(placed_keys(entries@)),
    ensures
        appended(
            old(output)@,
            final(output)@,
            res,
            chd_map_encoding(placed_keys(entries@), placed_parts(entries@)),
        ),
{
    let ghost keys = placed_keys(entries@);
    let ghost parts = placed_parts(entries@);
    let ghost before = output@;
    let n = entries.len();
    let buckets_len: u128 = (n as u128 + 4) / 5;
    if 9 + 8 * buckets_len + 8 * (n as u128) >= 0x100_0000 {
        return Err(SerializeError::DocumentTooLarge);
    }
    let mut key_list: Vec<&[u8]> = Vec::new();
    let mut i: usize = 0;
    while i < n
        invariant
            i <= n,
            n == entries@.len(),
            key_list@.len() == i,
            forall|j: int| 0 <= j < i ==> (#[trigger] key_list@[j])@ == entries@[j].0@,
        decreases n - i,
    {
        key_list.push(entries[i].0);
        i += 1;
    }
    assert(keys_view(key_list@) =~= keys);
    let mut attempt: u32 = 0;
    let mut found: Option<HashState> = None;
    while attempt < SEED_ATTEMPTS && found.is_none()
        invariant
            attempt <= SEED_ATTEMPTS,
            n == entries@.len(),
            n < 0x20_0000,
            key_list@.len() == n,
            keys_view(key_list@) == keys,
            match found {
                None => chd_first_seed(keys, 0) == chd_first_seed(keys, attempt as int),
                Some(state) => {
                    &&& chd_first_seed(keys, 0) == Some(
                        (
                            state.key,
                            crate::chd::ChdTable {
                                disps: state.disps@,
                                map: positions(state.map@),
                            },
                        ),
                    )
                    &&& state.disps@.len() == crate::layout::bucket_count(n as int)
                    &&& state.map@.len() == n
                    &&& forall|p: int| 0 <= p < n ==> (#[trigger] state.map@[p]) < n
                },
            },
        decreases SEED_ATTEMPTS - attempt, found.is_none() as int,
    {
        match try_generate_hash(&key_list, FIRST_SEED + attempt) {
            Some(state) => {
                found = Some(state);
            },
            None => {
                attempt += 1;
            },
        }
    }
    let hash_state = match found {
        Some(state) => state,
        None => {
            return Err(SerializeError::CHDConstructionFailed);
        },
    };
    let ghost table = crate::chd::ChdTable {
        disps: hash_state.disps@,
        map: positions(hash_state.map@),
    };
    let placed = arrange(entries, &hash_state.map);
    let start = output.len();
    output.push(0x20u8);
    push_u32(output, n as u32);
    push_u32(output, hash_state.key);
    let ghost head = output@;
    let mut b: usize = 0;
    while b < hash_state.disps.len()
        invariant
            b <= hash_state.disps@.len(),
            output@ == head + disps_first(hash_state.disps@, b as int),
        decreases hash_state.disps@.len() - b,
    {
        let (d1, d2) = hash_state.disps[b];
        push_u32(output, d1);
        push_u32(output, d2);
        b += 1;
        assert(output@ =~= head + disps_first(hash_state.disps@, b as int));
    }
    let ghost extra = chd_extra(hash_state.key, table);
    assert(output@ =~= before + seq![0x20u8] + u32_to_le(n as u32) + extra);
    assert(extra.len() == 4 + 8 * hash_state.disps@.len()) by {
        lemma_disps_len(hash_state.disps@, hash_state.disps@.len() as int);
    }
    let descriptors_offset = 9 + 8 * hash_state.disps.len();
    encode_kvs(&placed, output, descriptors_offset)?;
    proof {
        let pk = arranged(keys, table.map);
        let pp = arranged(parts, table.map);
        assert(output@ =~= before + map_node(0x20, extra, pk, pp));
    }
    Ok(output.len() - start)
}

/// The displacement pairs take eight bytes each.
pub proof fn lemma_disps_len(disps: Seq<(u32, u32)>, i: int)
    requires
        0 <= i,
    ensures
        disps_first(disps, i).len() == 8 * i,
    decreases i,
{
    if i > 0 {
        lemma_disps_len(disps, i - 1);
    }
}

/// Appends the perfect-hash map node of the entries: tries the seeds of the
/// attempt budget in turn, and lists the entries by the slot that each key
/// hashes to. Returns the number of bytes appended. On an error the output may
/// have grown.
pub fn serialize_chd(entries: &Vec<(&[u8], &Vec<u8>)>, output: &mut Vec<u8>) -> (res: Result<
    usize,
    SerializeError,
>)
    ensures
        appended(
            old(output)@,
            final(output)@,
            res,
            chd_entries_encoding(placed_keys(entries@), placed_parts(entries@)),
        ),
{
    if has_long_keys(entries) {
        return Err(SerializeError::KeyTooLong);
    }
    write_chd(entries, output)
}

/// Appends the map node of the entries: a perfect-hash map from
/// `chd_threshold` entries on, an ordered map below. Returns the number of
/// bytes appended. On an error the output may have grown.
pub fn serialize_map(
    entries: &Vec<(&[u8], &Vec<u8>)>,
    options: &SerializationOptions,
    output: &mut Vec<u8>,
) -> (res: Result<usize, SerializeError>)
    ensures
        appended(
            old(output)@,
            final(output)@,
            res,
            map_encoding(
                placed_keys(entries@),
                placed_parts(entries@),
                options.chd_threshold as int,
            ),
        ),
{
    if has_long_keys(entries) {
        return Err(SerializeError::KeyTooLong);
    }
    let sorted = sorted_positions(entries);
    if has_duplicates(entries, &sorted) {
        return Err(SerializeError::DuplicateKey);
    }
    if entries.len() >= options.chd_threshold {
        write_chd(entries, output)
    } else {
        write_ordered(entries, &sorted, output)
    }
}

/// Encodes a value into a buffer of its own.
pub fn encode_value(value: &Value, options: &SerializationOptions) -> (res: Result<
    Vec<u8>,
    SerializeError,
>)
    ensures
        match res {
            Ok(out) => encoding(*value, options.chd_threshold as int) == Ok::<
                Seq<u8>,
                SerializeError,
            >(out@),
            Err(e) => encoding(*value, options.chd_threshold as int) == Err::<
                Seq<u8>,
                SerializeError,
            >(e),
        },
    decreases value, 0nat,
{
    let ghost threshold = options.chd_threshold as int;
    let mut out: Vec<u8> = Vec::new();
    match value {
        Value::Null => {
            out.push(0x0Au8);
            assert(out@ =~= seq![0x0Au8]);
        },
        Value::Bool(b) => {
            if *b {
                out.push(0x09u8);
                assert(out@ =~= seq![0x09u8]);
            } else {
                out.push(0x08u8);
                assert(out@ =~= seq![0x08u8]);
            }
        },
        Value::Int32(x) => {
            out.push(0x10u8);
            push_u32(&mut out, i32_to_bits(*x));
            assert(out@ =~= seq![0x10u8] + u32_to_le(i32_bits(*x)));
        },
        Value::UInt32(x) => {
            out.push(0x11u8);
            push_u32(&mut out, *x);
            assert(out@ =~= seq![0x11u8] + u32_to_le(*x));
        },
        Value::Int64(x) => {
            out.push(0x12u8);
            push_u64(&mut out, i64_to_bits(*x));
            assert(out@ =~= seq![0x12u8] + u64_to_le(i64_bits(*x)));
        },
        Value::UInt64(x) => {
            out.push(0x13u8);
            push_u64(&mut out, *x);
            assert(out@ =~= seq![0x13u8] + u64_to_le(*x));
        },
        Value::Double(bits) => {
            out.push(0x01u8);
            push_u64(&mut out, *bits);
            assert(out@ =~= seq![0x01u8] + u64_to_le(*bits));
        },
        Value::String(s) => {
            out.push(0x02u8);
            push_bytes(&mut out, s.as_str().as_bytes());
            out.push(0u8);
            assert(out@ =~= seq![0x02u8] + vstd::utf8::encode_utf8(s@) + seq![0u8]);
        },
        Value::Binary(b) => {
            out.push(0x05u8);
            push_bytes(&mut out, b.as_slice());
            assert(out@ =~= seq![0x05u8] + b@);
        },
        Value::Array(items) => {
            proof {
                assert(decreases_to!(*value => value->Array_0));
            }
            return encode_array(items, options);
        },
        Value::Object(entries) => {
            proof {
                assert(decreases_to!(*value => value->Object_0));
            }
            return encode_object(entries, options);
        },
    }
    Ok(out)
}

/// Encodes an array: its items first, in order, then the node around them.
pub fn encode_array(items: &Vec<Value>, options: &SerializationOptions) -> (res: Result<
    Vec<u8>,
    SerializeError,
>)
    ensures
        match res {
            Ok(out) => encoding(Value::Array(*items), options.chd_threshold as int) == Ok::<
                Seq<u8>,
                SerializeError,
            >(out@),
            Err(e) => encoding(Value::Array(*items), options.chd_threshold as int) == Err::<
                Seq<u8>,
                SerializeError,
            >(e),
        },
    decreases items, 1nat,
{
    let ghost threshold = options.chd_threshold as int;
    let mut parts: Vec<Vec<u8>> = Vec::new();
    let mut i: usize = 0;
    assert(parts_view(parts@) =~= Seq::<Seq<u8>>::empty());
    while i < items.len()
        invariant
            i <= items@.len(),
            parts@.len() == i,
            threshold == options.chd_threshold as int,
            encode_items(items@, i as int, threshold) == Ok::<Seq<Seq<u8>>, SerializeError>(
                parts_view(parts@),
            ),
        decreases items@.len() - i,
    {
        proof {
            assert(decreases_to!(*items => items[i as int]));
        }
        let ghost before = parts@;
        match encode_value(&items[i], options) {
            Ok(part) => {
                parts.push(part);
            },
            Err(e) => {
                proof {
                    lemma_encode_items_error(items@, i + 1, items@.len() as int, threshold);
                }
                return Err(e);
            },
        }
        assert(parts_view(parts@) =~= parts_view(before).push(parts@[i as int]@));
        i += 1;
    }
    write_array(&parts)
}

/// Encodes a map: the values of its entries first, in order, then the node
/// around them.
pub fn encode_object(entries: &Vec<(String, Value)>, options: &SerializationOptions) -> (res:
    Result<Vec<u8>, SerializeError>)
    ensures
        match res {
            Ok(out) => encoding(Value::Object(*entries), options.chd_threshold as int) == Ok::<
                Seq<u8>,
                SerializeError,
            >(out@),
            Err(e) => encoding(Value::Object(*entries), options.chd_threshold as int) == Err::<
                Seq<u8>,
                SerializeError,
            >(e),
        },
    decreases entries, 1nat,
{
    let ghost threshold = options.chd_threshold as int;
    let mut parts: Vec<Vec<u8>> = Vec::new();
    let mut i: usize = 0;
    assert(parts_view(parts@) =~= Seq::<Seq<u8>>::empty());
    while i < entries.len()
        invariant
            i <= entries@.len(),
            parts@.len() == i,
            threshold == options.chd_threshold as int,
            encode_entries(entries@, i as int, threshold) == Ok::<Seq<Seq<u8>>, SerializeError>(
                parts_view(parts@),
            ),
        decreases entries@.len() - i,
    {
        proof {
            assert(decreases_to!(*entries => entries[i as int]));
            assert(decreases_to!(entries[i as int] => entries[i as int].1));
        }
        let ghost before = parts@;
        match encode_value(&entries[i].1, options) {
            Ok(part) => {
                parts.push(part);
            },
            Err(e) => {
                proof {
                    lemma_encode_entries_error(entries@, i + 1, entries@.len() as int, threshold);
                }
                return Err(e);
            },
        }
        assert(parts_view(parts@) =~= parts_view(before).push(parts@[i as int]@));
        i += 1;
    }
    let mut placed: Vec<(&[u8], &Vec<u8>)> = Vec::new();
    let mut k: usize = 0;
    while k < entries.len()
        invariant
            k <= entries@.len(),
            parts@.len() == entries@.len(),
            placed@.len() == k,
            forall|j: int|
                0 <= j < k ==> (#[trigger] placed@[j]).0@ == vstd::utf8::encode_utf8(
                    entries@[j].0@,
                ) && placed@[j].1@ == parts@[j]@,
        decreases entries@.len() - k,
    {
        placed.push((entries[k].0.as_str().as_bytes(), &parts[k]));
        k += 1;
    }
    assert(placed_keys(placed@) =~= entry_keys(entries@));
    assert(placed_parts(placed@) =~= parts_view(parts@));
    let mut out: Vec<u8> = Vec::new();
    match serialize_map(&placed, options, &mut out) {
        Ok(_) => {
            assert(out@ =~= map_encoding(
                entry_keys(entries@),
                parts_view(parts@),
                threshold,
            ).unwrap());
            Ok(out)
        },
        Err(e) => Err(e),
    }
}

/// Once the first `i` items fail to encode, so do the first `n`, alike.
pub proof fn lemma_encode_items_error(items: Seq<Value>, i: int, n: int, threshold: int)
    requires
        0 <= i <= n <= items.len(),
        encode_items(items, i, threshold).is_err(),
    ensures
        encode_items(items, n, threshold) == encode_items(items, i, threshold),
    decreases n - i,
{
    if i < n {
        lemma_encode_items_error(items, i, n - 1, threshold);
    }
}

/// Once the first `i` entries fail to encode, so do the first `n`, alike.
pub proof fn lemma_encode_entries_error(
    entries: Seq<(String, Value)>,
    i: int,
    n: int,
    threshold: int,
)
    requires
        0 <= i <= n <= entries.len(),
        encode_entries(entries, i, threshold).is_err(),
    ensures
        encode_entries(entries, n, threshold) == encode_entries(entries, i, threshold),
    decreases n - i,
{
    if i < n {
        lemma_encode_entries_error(entries, i, n - 1, threshold);
    }
}

/// A value that can be written as a document.
pub trait Serialize {
    /// The bytes that the value is written as.
    spec fn encoded(&self, options: &SerializationOptions) -> Result<Seq<u8>, SerializeError>;

    /// Appends the encoding of the value to `output`, and returns the number of
    /// bytes appended. On an error the output is left as it was.
    fn serialize(&self, options: &SerializationOptions, output: &mut Vec<u8>) -> (res: Result<
        usize,
        SerializeError,
    >)
        ensures
            appended(old(output)@, final(output)@, res, self.encoded(options)),
            res.is_err() ==> final(output)@ == old(output)@,
    ;
}

impl Serialize for Value {
    open spec fn encoded(&self, options: &SerializationOptions) -> Result<Seq<u8>, SerializeError> {
        encoding(*self, options.chd_threshold as int)
    }

    fn serialize(&self, options: &SerializationOptions, output: &mut Vec<u8>) -> (res: Result<
        usize,
        SerializeError,
    >) {
        let bytes = encode_value(self, options)?;
        push_bytes(output, bytes.as_slice());
        Ok(bytes.len())
    }
}

impl Serialize for bool {
    open spec fn encoded(&self, options: &SerializationOptions) -> Result<Seq<u8>, SerializeError> {
        encoding(Value::Bool(*self), options.chd_threshold as int)
    }

    fn serialize(&self, options: &SerializationOptions, output: &mut Vec<u8>) -> (res: Result<
        usize,
        SerializeError,
    >) {
        if *self {
            output.push(0x09u8);
            assert(output@ =~= old(output)@ + seq![0x09u8]);
        } else {
            output.push(0x08u8);
            assert(output@ =~= old(output)@ + seq![0x08u8]);
        }
        Ok(1)
    }
}

impl Serialize for i32 {
    open spec fn encoded(&self, options: &SerializationOptions) -> Result<Seq<u8>, SerializeError> {
        encoding(Value::Int32(*self), options.chd_threshold as int)
    }

    fn serialize(&self, options: &SerializationOptions, output: &mut Vec<u8>) -> (res: Result<
        usize,
        SerializeError,
    >) {
        output.push(0x10u8);
        push_u32(output, i32_to_bits(*self));
        assert(output@ =~= old(output)@ + (seq![0x10u8] + u32_to_le(i32_bits(*self))));
        Ok(5)
    }
}

impl Serialize for u32 {
    open spec fn encoded(&self, options: &SerializationOptions) -> Result<Seq<u8>, SerializeError> {
        encoding(Value::UInt32(*self), options.chd_threshold as int)
    }

    fn serialize(&self, options: &SerializationOptions, output: &mut Vec<u8>) -> (res: Result<
        usize,
        SerializeError,
    >) {
        output.push(0x11u8);
        push_u32(output, *self);
        assert(output@ =~= old(output)@ + (seq![0x11u8] + u32_to_le(*self)));
        Ok(5)
    }
}

impl Serialize for i64 {
    open spec fn encoded(&self, options: &SerializationOptions) -> Result<Seq<u8>, SerializeError> {
        encoding(Value::Int64(*self), options.chd_threshold as int)
    }

    fn serialize(&self, options: &SerializationOptions, output: &mut Vec<u8>) -> (res: Result<
        usize,
        SerializeError,
    >) {
        output.push(0x12u8);
        push_u64(output, i64_to_bits(*self));
        assert(output@ =~= old(output)@ + (seq![0x12u8] + u64_to_le(i64_bits(*self))));
        Ok(9)
    }
}

impl Serialize for u64 {
    open spec fn encoded(&self, options: &SerializationOptions) -> Result<Seq<u8>, SerializeError> {
        encoding(Value::UInt64(*self), options.chd_threshold as int)
    }

    fn serialize(&self, options: &SerializationOptions, output: &mut Vec<u8>) -> (res: Result<
        usize,
        SerializeError,
    >) {
        output.push(0x13u8);
        push_u64(output, *self);
        assert(output@ =~= old(output)@ + (seq![0x13u8] + u64_to_le(*self)));
        Ok(9)
    }
}

impl Serialize for &str {
    open spec fn encoded(&self, options: &SerializationOptions) -> Result<Seq<u8>, SerializeError> {
        Ok(seq![0x02u8] + vstd::utf8::encode_utf8(self@) + seq![0u8])
    }

    fn serialize(&self, options: &SerializationOptions, output: &mut Vec<u8>) -> (res: Result<
        usize,
        SerializeError,
    >) {
        let start = output.len();
        output.push(0x02u8);
        push_bytes(output, self.as_bytes());
        output.push(0u8);
        assert(output@ =~= old(output)@ + (seq![0x02u8] + vstd::utf8::encode_utf8(self@)
            + seq![0u8]));
        Ok(output.len() - start)
    }
}

impl<T: Serialize> Serialize for &T {
    open spec fn encoded(&self, options: &SerializationOptions) -> Result<Seq<u8>, SerializeError> {
        (**self).encoded(options)
    }

    fn serialize(&self, options: &SerializationOptions, output: &mut Vec<u8>) -> (res: Result<
        usize,
        SerializeError,
    >) {
        (*self).serialize(options, output)
    }
}

/// The encodings of the first `i` items of a list, or the first error among
/// them.
pub open spec fn encode_list<T: Serialize>(
    items: Seq<T>,
    i: int,
    options: &SerializationOptions,
) -> Result<Seq<Seq<u8>>, SerializeError>
    decreases i,
{
    if i <= 0 || i > items.len() {
        Ok(Seq::empty())
    } else {
        match encode_list(items, i - 1, options) {
            Err(e) => Err(e),
            Ok(parts) => match items[i - 1].encoded(options) {
                Err(e) => Err(e),
                Ok(part) => Ok(parts.push(part)),
            },
        }
    }
}

/// Once the first `i` items of a list fail to encode, so do the first `n`,
/// alike.
pub proof fn lemma_encode_list_error<T: Serialize>(
    items: Seq<T>,
    i: int,
    n: int,
    options: &SerializationOptions,
)
    requires
        0 <= i <= n <= items.len(),
        encode_list(items, i, options).is_err(),
    ensures
        encode_list(items, n, options) == encode_list(items, i, options),
    decreases n - i,
{
    if i < n {
        lemma_encode_list_error(items, i, n - 1, options);
    }
}

impl<T: Serialize> Serialize for &[T] {
    /// A list is written as an array of its items.
    open spec fn encoded(&self, options: &SerializationOptions) -> Result<Seq<u8>, SerializeError> {
        match encode_list(self@, self@.len() as int, options) {
            Err(e) => Err(e),
            Ok(parts) => if array_fits(parts) {
                Ok(array_node(parts))
            } else {
                Err(SerializeError::DocumentTooLarge)
            },
        }
    }

    fn serialize(&self, options: &SerializationOptions, output: &mut Vec<u8>) -> (res: Result<
        usize,
        SerializeError,
    >) {
        let mut parts: Vec<Vec<u8>> = Vec::new();
        let mut i: usize = 0;
        assert(parts_view(parts@) =~= Seq::<Seq<u8>>::empty());
        while i < self.len()
            invariant
                i <= self@.len(),
                parts@.len() == i,
                encode_list(self@, i as int, options) == Ok::<Seq<Seq<u8>>, SerializeError>(
                    parts_view(parts@),
                ),
            decreases self@.len() - i,
        {
            let ghost before = parts@;
            let mut part: Vec<u8> = Vec::new();
            match self[i].serialize(options, &mut part) {
                Ok(_) => {
                    assert(part@ =~= self@[i as int].encoded(options).unwrap());
                    parts.push(part);
                },
                Err(e) => {
                    proof {
                        lemma_encode_list_error(self@, i + 1, self@.len() as int, options);
                    }
                    return Err(e);
                },
            }
            assert(parts_view(parts@) =~= parts_view(before).push(parts@[i as int]@));
            i += 1;
        }
        let node = write_array(&parts)?;
        push_bytes(output, node.as_slice());
        Ok(node.len())
    }
}

} // verus!
