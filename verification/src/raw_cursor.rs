//! The raw reader: offset arithmetic over the bytes of one node.
//!
//! A `RawCursor` is only the header of a node. It neither owns nor borrows
//! the document, so every operation takes the node's bytes as an argument.

use crate::bytes::{
    get_u32_at_offset, get_u32_pair_at_offset, get_u64_at_offset, read_u32, read_u32_pair,
};
use crate::hashing::{displace_hashes, hash_key, Hashes};
use crate::layout::{
    array_item, binary_value, bool_value, bucket_count, chd_probe, descriptors_end,
    descriptors_offset, expect_type, first_nul, i32_value, i64_value, key_by_index,
    key_bytes_by_index, lemma_ordered_search_step, Located, long_value, map_descriptor, map_item,
    map_table, ordered_search, parse_header, string_bytes, string_value, value_by_index,
    value_by_key, value_offset_position, word_value,
};
use crate::order::{compare_keys, KeyOrder, keys_equal};
use crate::types::{CursorError, ElementTypeCode};
use core::ops::Range;
use vstd::prelude::*;
use vstd::slice::slice_subrange;
use vstd::string::StringSliceAdditionalSpecFns;

verus! {

/// The header of a node: its element type and its number of children.
#[derive(Copy, Clone, PartialEq, Eq, Debug, Structural)]
pub struct RawCursor {
    pub element_type: ElementTypeCode,
    /// Zero for anything but a map or an array.
    pub child_count: u32,
}

/// A child found at `index`, as the model describes it.
pub open spec fn located(index: usize, range: Range<usize>, header: RawCursor) -> Located {
    Located { index: index as int, start: range.start as int, end: range.end as int, header }
}

/// The text that valid UTF-8 bytes hold, by `core::str::from_utf8`: it accepts
/// exactly the valid UTF-8 sequences and returns a string of the same bytes.
#[verifier::external_body]
pub(crate) fn str_from_utf8(bytes: &[u8]) -> (res: Option<&str>)
    ensures
        res.is_some() == vstd::utf8::valid_utf8(bytes@),
        res matches Some(s) ==> s.spec_bytes() == bytes@,
{
    core::str::from_utf8(bytes).ok()
}

/// Reads a `u32` at a position that may not fit in `usize`.
fn get_u32_at_position(buffer: &[u8], position: u64) -> (res: Result<u32, CursorError>)
    ensures
        res == read_u32(buffer@, position as int),
{
    if position > buffer.len() as u64 {
        Err(CursorError::DocumentTooShort)
    } else {
        get_u32_at_offset(buffer, position as usize)
    }
}

/// Reads two `u32`s at a position that may not fit in `usize`.
fn get_u32_pair_at_position(buffer: &[u8], position: u64) -> (res: Result<(u32, u32), CursorError>)
    ensures
        res == read_u32_pair(buffer@, position as int),
{
    if position > buffer.len() as u64 {
        Err(CursorError::DocumentTooShort)
    } else {
        get_u32_pair_at_offset(buffer, position as usize)
    }
}

/// The number of displacement pairs of a perfect-hash map with `child_count`
/// entries.
pub fn calculate_bucket_count(child_count: u32) -> (res: usize)
    ensures
        res == bucket_count(child_count as int),
{
    ((child_count as u64 + 4) / 5) as usize
}

/// Where the descriptor table of a perfect-hash map with `child_count` entries
/// starts: after the tag, the count, the seed and the displacement pairs.
pub fn calculate_chd_descriptors_offset(child_count: u32) -> (res: u64)
    ensures
        res == 9 + 8 * bucket_count(child_count as int),
        res <= 9 + 8 * 0x3333_3334,
{
    9 + 8 * ((child_count as u64 + 4) / 5)
}

impl RawCursor {
    /// Checks that the node has the expected element type.
    pub fn ensure_element_type(&self, expected_type: ElementTypeCode) -> (res: Result<
        (),
        CursorError,
    >)
        ensures
            res == if self.element_type == expected_type {
                Ok::<(), CursorError>(())
            } else {
                Err(CursorError::WrongElementType { actual: self.element_type })
            },
    {
        if self.element_type != expected_type {
            return Err(CursorError::WrongElementType { actual: self.element_type });
        }
        Ok(())
    }

    /// Reads the header of the node that starts the buffer.
    pub fn new(buffer: &[u8]) -> (res: Result<Self, CursorError>)
        ensures
            res == parse_header(buffer@),
    {
        if buffer.len() < 1 {
            return Err(CursorError::DocumentTooShort);
        }
        let element_type = ElementTypeCode::try_from(buffer[0])?;
        let child_count = match element_type {
            ElementTypeCode::OrderedMap | ElementTypeCode::Array | ElementTypeCode::MapCHD => {
                get_u32_at_offset(buffer, 1)?
            },
            _ => 0,
        };
        Ok(RawCursor { element_type, child_count })
    }

    /// Where the descriptor table starts.
    fn descriptors_start(&self) -> (res: u64)
        ensures
            res == descriptors_offset(*self),
            res <= 9 + 8 * 0x3333_3334,
    {
        if self.element_type == ElementTypeCode::MapCHD {
            calculate_chd_descriptors_offset(self.child_count)
        } else {
            5
        }
    }

    /// Where the value offset of child `index` is stored.
    fn value_offset_at(&self, index: u64) -> (res: u64)
        requires
            index <= self.child_count,
        ensures
            res == value_offset_position(*self, index as int),
    {
        if self.element_type == ElementTypeCode::Array {
            self.descriptors_start() + 4 * index
        } else {
            self.descriptors_start() + 8 * index + 4
        }
    }

    /// Returns the range and the header of child `index` of a map or an array.
    pub fn get_value_by_index(&self, buffer: &[u8], index: usize) -> (res: Result<
        (Range<usize>, RawCursor),
        CursorError,
    >)
        ensures
            match res {
                Ok((range, child)) => value_by_index(buffer@, *self, index as int) == Ok::<
                    Located,
                    CursorError,
                >(located(index, range, child)),
                Err(e) => value_by_index(buffer@, *self, index as int) == Err::<
                    Located,
                    CursorError,
                >(e),
            },
    {
        match self.element_type {
            ElementTypeCode::Array | ElementTypeCode::OrderedMap | ElementTypeCode::MapCHD => {},
            _ => {
                return Err(CursorError::WrongElementType { actual: self.element_type });
            },
        }
        if index >= self.child_count as usize {
            return Err(CursorError::ItemIndexOutOfBounds);
        }
        let start = get_u32_at_position(buffer, self.value_offset_at(index as u64))? as usize;
        let end = if index == self.child_count as usize - 1 {
            buffer.len()
        } else {
            get_u32_at_position(buffer, self.value_offset_at(index as u64 + 1))? as usize
        };
        if start > end || end > buffer.len() {
            return Err(CursorError::DocumentTooShort);
        }
        let child = RawCursor::new(slice_subrange(buffer, start, end))?;
        Ok((start..end, child))
    }

    /// Checks that the node is a map whose descriptor table lies inside the
    /// buffer.
    fn check_map_table(&self, buffer: &[u8]) -> (res: Result<(), CursorError>)
        ensures
            res == map_table(buffer@, *self),
    {
        match self.element_type {
            ElementTypeCode::OrderedMap | ElementTypeCode::MapCHD => {},
            _ => {
                return Err(CursorError::WrongElementType { actual: self.element_type });
            },
        }
        let end = self.descriptors_start() + 8 * (self.child_count as u64);
        if end > buffer.len() as u64 {
            return Err(CursorError::DocumentTooShort);
        }
        Ok(())
    }

    /// Reads descriptor `index` of a map whose table lies inside the buffer:
    /// the key's offset and length and the value's offset.
    fn get_map_descriptor(&self, buffer: &[u8], index: usize) -> (res: (usize, usize, usize))
        requires
            map_table(buffer@, *self).is_ok(),
            index < self.child_count,
        ensures
            res.0 == map_descriptor(buffer@, *self, index as int).key_offset,
            res.1 == map_descriptor(buffer@, *self, index as int).key_length,
            res.2 == map_descriptor(buffer@, *self, index as int).value_offset,
            res.0 < 0x100_0000,
            res.1 < 0x100,
    {
        let position = self.descriptors_start() + 8 * (index as u64);
        let (key_data, value_offset) = get_u32_pair_at_position(buffer, position).unwrap();
        (
            (key_data % 0x100_0000) as usize,
            (key_data / 0x100_0000) as usize,
            value_offset as usize,
        )
    }

    /// Returns the bytes of key `index` of a map.
    pub fn get_key_buffer_by_index<'a>(&self, buffer: &'a [u8], index: usize) -> (res: Result<
        &'a [u8],
        CursorError,
    >)
        ensures
            match res {
                Ok(key) => key_bytes_by_index(buffer@, *self, index as int) == Ok::<
                    Seq<u8>,
                    CursorError,
                >(key@),
                Err(e) => key_bytes_by_index(buffer@, *self, index as int) == Err::<
                    Seq<u8>,
                    CursorError,
                >(e),
            },
    {
        if index >= self.child_count as usize {
            return Err(CursorError::ItemIndexOutOfBounds);
        }
        self.check_map_table(buffer)?;
        let (key_offset, key_length, _) = self.get_map_descriptor(buffer, index);
        if key_offset + key_length > buffer.len() {
            return Err(CursorError::DocumentTooShort);
        }
        Ok(slice_subrange(buffer, key_offset, key_offset + key_length))
    }

    /// Returns key `index` of a map as text.
    pub fn get_key_by_index<'a>(&self, buffer: &'a [u8], index: usize) -> (res: Result<
        &'a str,
        CursorError,
    >)
        ensures
            match res {
                Ok(key) => key_by_index(buffer@, *self, index as int) == Ok::<
                    Seq<char>,
                    CursorError,
                >(key@) && key_bytes_by_index(buffer@, *self, index as int) == Ok::<
                    Seq<u8>,
                    CursorError,
                >(key.spec_bytes()),
                Err(e) => key_by_index(buffer@, *self, index as int) == Err::<
                    Seq<char>,
                    CursorError,
                >(e),
            },
    {
        let bytes = self.get_key_buffer_by_index(buffer, index)?;
        match str_from_utf8(bytes) {
            Some(key) => {
                proof {
                    vstd::utf8::encode_utf8_decode_utf8(key@);
                }
                Ok(key)
            },
            None => Err(CursorError::Utf8Error),
        }
    }

    /// Probes a perfect-hash map for a key whose hash values are given.
    pub fn probe_chd(&self, buffer: &[u8], key: &[u8], hashes: Hashes) -> (res: Result<
        (usize, Range<usize>, RawCursor),
        CursorError,
    >)
        ensures
            match res {
                Ok((index, range, child)) => chd_probe(buffer@, *self, key@, hashes) == Ok::<
                    Located,
                    CursorError,
                >(located(index, range, child)),
                Err(e) => chd_probe(buffer@, *self, key@, hashes) == Err::<Located, CursorError>(
                    e,
                ),
            },
    {
        if self.child_count == 0 {
            return Err(CursorError::KeyNotFound);
        }
        let buckets = calculate_bucket_count(self.child_count) as u64;
        let bucket = hashes.g as u64 % buckets;
        let (d1, d2) = get_u32_pair_at_position(buffer, 9 + 8 * bucket)?;
        let index = (displace_hashes(hashes.f1, hashes.f2, d1, d2) % self.child_count) as usize;
        let stored = self.get_key_buffer_by_index(buffer, index)?;
        if !keys_equal(stored, key) {
            return Err(CursorError::KeyNotFound);
        }
        let (range, child) = self.get_value_by_index(buffer, index)?;
        Ok((index, range, child))
    }

    /// Looks a key up in a perfect-hash map: one hash, one probe.
    fn get_value_and_index_by_key_chd(&self, buffer: &[u8], key: &str) -> (res: Result<
        (usize, Range<usize>, RawCursor),
        CursorError,
    >)
        requires
            self.element_type == ElementTypeCode::MapCHD,
        ensures
            match res {
                Ok((index, range, child)) => value_by_key(buffer@, *self, key.spec_bytes()) == Ok::<
                    Located,
                    CursorError,
                >(located(index, range, child)),
                Err(e) => value_by_key(buffer@, *self, key.spec_bytes()) == Err::<
                    Located,
                    CursorError,
                >(e),
            },
    {
        let seed = get_u32_at_offset(buffer, 5)?;
        let hashes = hash_key(key.as_bytes(), seed as u64);
        self.probe_chd(buffer, key.as_bytes(), hashes)
    }

    /// Searches a map for a key, and returns the entry's index, the range of
    /// its value and the value's header.
    pub fn get_value_and_index_by_key(&self, buffer: &[u8], key: &str) -> (res: Result<
        (usize, Range<usize>, RawCursor),
        CursorError,
    >)
        ensures
            match res {
                Ok((index, range, child)) => value_by_key(buffer@, *self, key.spec_bytes()) == Ok::<
                    Located,
                    CursorError,
                >(located(index, range, child)),
                Err(e) => value_by_key(buffer@, *self, key.spec_bytes()) == Err::<
                    Located,
                    CursorError,
                >(e),
            },
    {
        if self.element_type == ElementTypeCode::MapCHD {
            return self.get_value_and_index_by_key_chd(buffer, key);
        }
        self.check_map_table(buffer)?;
        let key_bytes = key.as_bytes();
        let mut k: u64 = 1;
        while k <= self.child_count as u64
            invariant
                1 <= k,
                key_bytes@ == key.spec_bytes(),
                self.element_type != ElementTypeCode::MapCHD,
                map_table(buffer@, *self).is_ok(),
                ordered_search(buffer@, *self, key_bytes@, 1) == ordered_search(
                    buffer@,
                    *self,
                    key_bytes@,
                    k as int,
                ),
            decreases 2 * self.child_count + 2 - k,
        {
            proof {
                lemma_ordered_search_step(buffer@, *self, key_bytes@, k as int);
            }
            let index = (k - 1) as usize;
            let (key_offset, key_length, _) = self.get_map_descriptor(buffer, index);
            if key_offset + key_length > buffer.len() {
                return Err(CursorError::EmbeddedOffsetOutOfBounds);
            }
            let current = slice_subrange(buffer, key_offset, key_offset + key_length);
            match compare_keys(key_bytes, current) {
                KeyOrder::Less => {
                    k = 2 * k;
                },
                KeyOrder::Greater => {
                    k = 2 * k + 1;
                },
                KeyOrder::Equal => {
                    let (range, child) = self.get_value_by_index(buffer, index)?;
                    return Ok((index, range, child));
                },
            }
        }
        proof {
            lemma_ordered_search_step(buffer@, *self, key_bytes@, k as int);
        }
        Err(CursorError::KeyNotFound)
    }
}

impl RawCursor {
    /// Reads a `True` or `False` node.
    pub fn read_bool(&self) -> (res: Result<bool, CursorError>)
        ensures
            res == bool_value(*self),
    {
        match self.element_type {
            ElementTypeCode::True => Ok(true),
            ElementTypeCode::False => Ok(false),
            _ => Err(CursorError::WrongElementType { actual: self.element_type }),
        }
    }

    /// Reads the four payload bytes of a node of the expected type.
    pub fn read_word(&self, buffer: &[u8], expected: ElementTypeCode) -> (res: Result<
        u32,
        CursorError,
    >)
        ensures
            res == word_value(buffer@, *self, expected),
    {
        self.ensure_element_type(expected)?;
        get_u32_at_offset(buffer, 1)
    }

    /// Reads the eight payload bytes of a node of the expected type.
    pub fn read_long(&self, buffer: &[u8], expected: ElementTypeCode) -> (res: Result<
        u64,
        CursorError,
    >)
        ensures
            res == long_value(buffer@, *self, expected),
    {
        self.ensure_element_type(expected)?;
        get_u64_at_offset(buffer, 1)
    }

    /// Reads an `Int32` node.
    pub fn read_i32(&self, buffer: &[u8]) -> (res: Result<i32, CursorError>)
        ensures
            res == i32_value(buffer@, *self),
    {
        let u = self.read_word(buffer, ElementTypeCode::Int32)?;
        if u < 0x8000_0000 {
            Ok(u as i32)
        } else {
            Ok(((u - 0x8000_0000) as i32 - 0x7fff_ffff) - 1)
        }
    }

    /// Reads an `Int64` node.
    pub fn read_i64(&self, buffer: &[u8]) -> (res: Result<i64, CursorError>)
        ensures
            res == i64_value(buffer@, *self),
    {
        let u = self.read_long(buffer, ElementTypeCode::Int64)?;
        if u < 0x8000_0000_0000_0000 {
            Ok(u as i64)
        } else {
            Ok(((u - 0x8000_0000_0000_0000) as i64 - 0x7fff_ffff_ffff_ffff) - 1)
        }
    }

    /// Returns the bytes of the text of a `String` node, without the NUL.
    pub fn read_string_bytes<'a>(&self, buffer: &'a [u8]) -> (res: Result<&'a [u8], CursorError>)
        ensures
            match res {
                Ok(bytes) => string_bytes(buffer@, *self) == Ok::<Seq<u8>, CursorError>(bytes@),
                Err(e) => string_bytes(buffer@, *self) == Err::<Seq<u8>, CursorError>(e),
            },
    {
        self.ensure_element_type(ElementTypeCode::String)?;
        let mut i: usize = 1;
        while i < buffer.len()
            invariant
                1 <= i,
                self.element_type == ElementTypeCode::String,
                first_nul(buffer@, 1) == first_nul(buffer@, i as int),
            decreases buffer@.len() - i,
        {
            if buffer[i] == 0 {
                return Ok(slice_subrange(buffer, 1, i));
            }
            i += 1;
        }
        Err(CursorError::UnterminatedString)
    }

    /// Returns the text of a `String` node.
    pub fn read_str<'a>(&self, buffer: &'a [u8]) -> (res: Result<&'a str, CursorError>)
        ensures
            match res {
                Ok(text) => string_value(buffer@, *self) == Ok::<Seq<char>, CursorError>(text@)
                    && string_bytes(buffer@, *self) == Ok::<Seq<u8>, CursorError>(
                    text.spec_bytes(),
                ),
                Err(e) => string_value(buffer@, *self) == Err::<Seq<char>, CursorError>(e),
            },
    {
        let bytes = self.read_string_bytes(buffer)?;
        match str_from_utf8(bytes) {
            Some(text) => {
                proof {
                    vstd::utf8::encode_utf8_decode_utf8(text@);
                }
                Ok(text)
            },
            None => Err(CursorError::Utf8Error),
        }
    }

    /// Returns the payload of a `Binary` node.
    pub fn read_binary<'a>(&self, buffer: &'a [u8]) -> (res: Result<&'a [u8], CursorError>)
        ensures
            match res {
                Ok(bytes) => binary_value(buffer@, *self) == Ok::<Seq<u8>, CursorError>(bytes@),
                Err(e) => binary_value(buffer@, *self) == Err::<Seq<u8>, CursorError>(e),
            },
    {
        self.ensure_element_type(ElementTypeCode::Binary)?;
        if buffer.len() < 1 {
            return Err(CursorError::DocumentTooShort);
        }
        Ok(slice_subrange(buffer, 1, buffer.len()))
    }
}

/// An iteration over the entries of a map.
pub struct MapIter<'a> {
    index: u32,
    header: RawCursor,
    whole_buffer: &'a [u8],
    self_offset: usize,
}

impl<'a> MapIter<'a> {
    /// The position of the entry that comes next.
    pub closed spec fn position(&self) -> int {
        self.index as int
    }

    /// The header of the map.
    pub closed spec fn header(&self) -> RawCursor {
        self.header
    }

    /// The bytes of the map node.
    pub closed spec fn buffer(&self) -> Seq<u8> {
        self.whole_buffer@
    }

    /// What is added to the ranges that are yielded.
    pub closed spec fn offset(&self) -> int {
        self.self_offset as int
    }

    /// The iteration stands on a map whose descriptor table lies inside the
    /// buffer.
    #[verifier::type_invariant]
    pub closed spec fn wf(&self) -> bool {
        &&& map_table(self.whole_buffer@, self.header).is_ok()
        &&& self.index <= self.header.child_count
    }

    /// Reads the entry that comes next.
    fn get_item_at_index(&self) -> (res: Result<(&'a str, Range<usize>), CursorError>)
        requires
            self.position() < self.header().child_count,
        ensures
            match res {
                Ok((key, range)) => map_item(
                    self.buffer(),
                    self.header(),
                    self.offset(),
                    self.position(),
                ) == Ok::<(Seq<char>, int, int), CursorError>(
                    (key@, range.start as int, range.end as int),
                ),
                Err(e) => map_item(self.buffer(), self.header(), self.offset(), self.position())
                    == Err::<(Seq<char>, int, int), CursorError>(e),
            },
    {
        proof {
            use_type_invariant(self);
        }
        let index = self.index as usize;
        let (key_offset, key_length, value_offset) = self.header.get_map_descriptor(
            self.whole_buffer,
            index,
        );
        if key_offset + key_length > self.whole_buffer.len() {
            return Err(CursorError::EmbeddedOffsetOutOfBounds);
        }
        let key = slice_subrange(self.whole_buffer, key_offset, key_offset + key_length);
        let key = match str_from_utf8(key) {
            Some(text) => {
                proof {
                    vstd::utf8::encode_utf8_decode_utf8(text@);
                }
                text
            },
            None => {
                return Err(CursorError::Utf8Error);
            },
        };
        let next_value_offset = if self.index < self.header.child_count - 1 {
            let (_, _, next) = self.header.get_map_descriptor(self.whole_buffer, index + 1);
            next
        } else {
            self.whole_buffer.len()
        };
        if value_offset > usize::MAX - self.self_offset || next_value_offset > usize::MAX
            - self.self_offset {
            return Err(CursorError::DocumentTooShort);
        }
        Ok((key, self.self_offset + value_offset..self.self_offset + next_value_offset))
    }

    /// Yields the next entry, or an error for an entry that is malformed;
    /// `None` once every entry was yielded.
    pub fn next(&mut self) -> (res: Option<Result<(&'a str, Range<usize>), CursorError>>)
        ensures
            final(self).header() == old(self).header(),
            final(self).buffer() == old(self).buffer(),
            final(self).offset() == old(self).offset(),
            match res {
                None => {
                    &&& old(self).position() >= old(self).header().child_count
                    &&& final(self).position() == old(self).position()
                },
                Some(item) => {
                    &&& old(self).position() < old(self).header().child_count
                    &&& final(self).position() == old(self).position() + 1
                    &&& match item {
                        Ok((key, range)) => map_item(
                            old(self).buffer(),
                            old(self).header(),
                            old(self).offset(),
                            old(self).position(),
                        ) == Ok::<(Seq<char>, int, int), CursorError>(
                            (key@, range.start as int, range.end as int),
                        ),
                        Err(e) => map_item(
                            old(self).buffer(),
                            old(self).header(),
                            old(self).offset(),
                            old(self).position(),
                        ) == Err::<(Seq<char>, int, int), CursorError>(e),
                    }
                },
            },
    {
        proof {
            use_type_invariant(&*self);
        }
        if self.index >= self.header.child_count {
            return None;
        }
        let item = self.get_item_at_index();
        self.index += 1;
        Some(item)
    }
}

impl RawCursor {
    /// Starts an iteration over the entries of a map. The ranges that it
    /// yields are moved by the start of `self_range`, the place of the node in
    /// its document.
    pub fn iter_map<'a>(&self, self_range: Range<usize>, buffer: &'a [u8]) -> (res: Result<
        MapIter<'a>,
        CursorError,
    >)
        ensures
            match res {
                Ok(iter) => {
                    &&& map_table(buffer@, *self).is_ok()
                    &&& iter.position() == 0
                    &&& iter.header() == *self
                    &&& iter.buffer() == buffer@
                    &&& iter.offset() == self_range.start
                },
                Err(e) => map_table(buffer@, *self) == Err::<(), CursorError>(e),
            },
    {
        self.check_map_table(buffer)?;
        Ok(MapIter { index: 0, header: *self, whole_buffer: buffer, self_offset: self_range.start })
    }

    /// Whether the node is an array whose descriptor table lies inside the
    /// buffer.
    pub open spec fn array_table(&self, buffer: Seq<u8>) -> Result<(), CursorError> {
        match expect_type(*self, ElementTypeCode::Array) {
            Err(e) => Err(e),
            Ok(_) => if descriptors_end(*self) > buffer.len() {
                Err(CursorError::DocumentTooShort)
            } else {
                Ok(())
            },
        }
    }

    /// Lists the ranges of the children of an array, moved by the start of
    /// `self_range`, the place of the node in its document. A range that
    /// cannot be moved is left out.
    pub fn iter_array(&self, self_range: Range<usize>, buffer: &[u8]) -> (res: Result<
        Vec<Range<usize>>,
        CursorError,
    >)
        ensures
            match res {
                Ok(ranges) => self.array_table(buffer@).is_ok() && array_ranges(
                    buffer@,
                    *self,
                    self_range.start as int,
                    self.child_count as int,
                ) == ranges_view(ranges@),
                Err(e) => self.array_table(buffer@) == Err::<(), CursorError>(e),
            },
    {
        self.ensure_element_type(ElementTypeCode::Array)?;
        let table_end: u64 = 5 + 4 * (self.child_count as u64);
        if table_end > buffer.len() as u64 {
            return Err(CursorError::DocumentTooShort);
        }
        let self_offset = self_range.start;
        let mut ranges: Vec<Range<usize>> = Vec::new();
        let mut index: u32 = 0;
        assert(ranges_view(ranges@) =~= Seq::<(int, int)>::empty());
        while index < self.child_count
            invariant
                index <= self.child_count,
                self.element_type == ElementTypeCode::Array,
                5 + 4 * self.child_count <= buffer@.len(),
                self_offset == self_range.start,
                array_ranges(buffer@, *self, self_offset as int, index as int) == ranges_view(
                    ranges@,
                ),
            decreases self.child_count - index,
        {
            let start = get_u32_at_position(
                buffer,
                self.value_offset_at(index as u64),
            ).unwrap() as usize;
            let end = if index < self.child_count - 1 {
                get_u32_at_position(buffer, self.value_offset_at(index as u64 + 1)).unwrap() as usize
            } else {
                buffer.len()
            };
            let ghost before = ranges@;
            if start <= usize::MAX - self_offset && end <= usize::MAX - self_offset {
                ranges.push(self_offset + start..self_offset + end);
                assert(ranges_view(ranges@) =~= ranges_view(before).push(
                    ((self_offset + start) as int, (self_offset + end) as int),
                ));
            }
            index += 1;
        }
        Ok(ranges)
    }
}

/// The ranges that a list holds.
pub open spec fn ranges_view(ranges: Seq<Range<usize>>) -> Seq<(int, int)> {
    Seq::new(ranges.len(), |i: int| (ranges[i].start as int, ranges[i].end as int))
}

/// The ranges of the first `count` children of an array, each moved by
/// `offset`, without those that cannot be moved.
pub open spec fn array_ranges(buffer: Seq<u8>, header: RawCursor, offset: int, count: int) -> Seq<
    (int, int),
>
    decreases count,
{
    if count <= 0 {
        Seq::empty()
    } else {
        let before = array_ranges(buffer, header, offset, count - 1);
        match array_item(buffer, header, offset, count - 1) {
            Some(range) => before.push(range),
            None => before,
        }
    }
}

} // verus!
