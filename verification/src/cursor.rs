//! The cursor: one node of a document, with the storage that holds it.

use crate::layout::{
    binary_value, bool_value, expect_type, i32_value, i64_value, key_by_index, Located, long_value,
    map_item, map_table, parse_header, string_value, value_by_index, value_by_key, word_value,
};
use crate::raw_cursor::{array_ranges, RawCursor};
use crate::storage::Storage;
use crate::types::{CursorError, ElementTypeCode, PathSegment};
use core::ops::Range;
use vstd::prelude::*;
use vstd::slice::slice_subrange;
use vstd::string::StringSliceAdditionalSpecFns;

verus! {

/// What a cursor stands for: a document, the range of one node in it, and the
/// header of that node.
pub struct CursorView {
    pub document: Seq<u8>,
    pub start: int,
    pub end: int,
    pub header: RawCursor,
}

impl CursorView {
    /// The bytes of the node.
    pub open spec fn node(self) -> Seq<u8> {
        self.document.subrange(self.start, self.end)
    }

    /// Whether the range lies inside the document and the header is the one of
    /// the node that starts there.
    pub open spec fn wf(self) -> bool {
        &&& 0 <= self.start <= self.end <= self.document.len()
        &&& parse_header(self.node()) == Ok::<RawCursor, CursorError>(self.header)
    }

    /// The cursor on a child that was located inside this node.
    pub open spec fn child(self, located: Located) -> CursorView {
        CursorView {
            document: self.document,
            start: self.start + located.start,
            end: self.start + located.end,
            header: located.header,
        }
    }

    /// The cursor on the node that a range of the document holds, if one
    /// starts there.
    pub open spec fn at(document: Seq<u8>, start: int, end: int) -> Result<CursorView, CursorError> {
        if 0 <= start <= end <= document.len() {
            match parse_header(document.subrange(start, end)) {
                Ok(header) => Ok(CursorView { document, start, end, header }),
                Err(e) => Err(e),
            }
        } else {
            Err(CursorError::DocumentTooShort)
        }
    }

    /// One step along a path: into the entry under a key, or into the child at
    /// an index.
    pub open spec fn step(self, segment: PathSegment) -> Result<CursorView, CursorError> {
        let found = match segment {
            PathSegment::Key(key) => value_by_key(self.node(), self.header, key.spec_bytes()),
            PathSegment::Index(index) => value_by_index(self.node(), self.header, index as int),
        };
        match found {
            Ok(located) => Ok(self.child(located)),
            Err(e) => Err(e),
        }
    }

    /// The first `count` steps of a path, from this cursor; the error of the
    /// first step that fails.
    pub open spec fn walk(self, path: Seq<PathSegment>, count: int) -> Result<CursorView, CursorError>
        decreases count,
    {
        if count <= 0 {
            Ok(self)
        } else {
            match self.walk(path, count - 1) {
                Err(e) => Err(e),
                Ok(view) => view.step(path[count - 1]),
            }
        }
    }
}

/// What a lookup owes: the cursor on the child that the model locates, or the
/// model's error.
pub open spec fn descends(
    parent: CursorView,
    found: Result<Located, CursorError>,
    res: Result<CursorView, CursorError>,
) -> bool {
    match res {
        Ok(child) => found matches Ok(located) && child == parent.child(located) && child.wf(),
        Err(e) => found == Err::<Located, CursorError>(e),
    }
}

/// The views of the entries that an iteration over a map yields.
pub open spec fn entries_view<T: Storage>(entries: Seq<(&str, Cursor<T>)>) -> Seq<
    (Seq<char>, CursorView),
> {
    Seq::new(entries.len(), |i: int| (entries[i].0@, entries[i].1@))
}

/// The views of the cursors of a list.
pub open spec fn cursors_view<T: Storage>(cursors: Seq<Cursor<T>>) -> Seq<CursorView> {
    Seq::new(cursors.len(), |i: int| cursors[i]@)
}

/// The first `count` entries of a map, each with the cursor on its value.
/// Entries that are malformed are left out.
pub open spec fn map_entries(view: CursorView, count: int) -> Seq<(Seq<char>, CursorView)>
    decreases count,
{
    if count <= 0 {
        Seq::empty()
    } else {
        let before = map_entries(view, count - 1);
        match map_item(view.node(), view.header, view.start, count - 1) {
            Ok((key, start, end)) => match CursorView::at(view.document, start, end) {
                Ok(child) => before.push((key, child)),
                Err(_) => before,
            },
            Err(_) => before,
        }
    }
}

/// The cursors on the first `count` children of an array. Children that are
/// malformed are left out.
pub open spec fn array_children(view: CursorView, ranges: Seq<(int, int)>, count: int) -> Seq<
    CursorView,
>
    decreases count,
{
    if count <= 0 {
        Seq::empty()
    } else {
        let before = array_children(view, ranges, count - 1);
        match CursorView::at(view.document, ranges[count - 1].0, ranges[count - 1].1) {
            Ok(child) => before.push(child),
            Err(_) => before,
        }
    }
}

/// A cursor over a document held by a storage handle.
///
/// The handle can be a borrowed slice, a shared owner such as `Arc<[u8]>`, or
/// anything else that implements `Storage`. Each sub-cursor gets a handle of
/// its own, so the handle should be cheap to hand on.
#[derive(Debug)]
pub struct Cursor<T: Storage> {
    /// The whole document.
    buffer: T,
    /// Where the node that the cursor points to starts in the document.
    start: usize,
    /// Where the node ends.
    end: usize,
    raw_cursor: RawCursor,
}

impl<T: Storage> View for Cursor<T> {
    type V = CursorView;

    closed spec fn view(&self) -> CursorView {
        CursorView {
            document: self.buffer.bytes(),
            start: self.start as int,
            end: self.end as int,
            header: self.raw_cursor,
        }
    }
}

impl<T: Storage> Cursor<T> {
    /// The range lies inside the document, and the header is the one of the
    /// node that starts there.
    #[verifier::type_invariant]
    closed spec fn inv(&self) -> bool {
        self@.wf()
    }

    /// The storage handle that the cursor holds.
    pub closed spec fn storage(&self) -> T {
        self.buffer
    }

    /// Where the node starts in the document.
    pub fn range_start(&self) -> (res: usize)
        ensures
            res == self@.start,
    {
        self.start
    }

    /// The bytes of the whole document.
    pub fn document(&self) -> (res: &[u8])
        ensures
            res@ == self@.document,
    {
        self.buffer.as_slice()
    }

    /// Another handle on the storage of the document.
    pub fn share_storage(&self) -> (res: T)
        ensures
            res.bytes() == self@.document,
    {
        self.buffer.share()
    }

    /// The bytes of the node.
    pub fn scoped_buffer(&self) -> (res: &[u8])
        ensures
            res@ == self@.node(),
            self@.wf(),
    {
        proof {
            use_type_invariant(self);
        }
        slice_subrange(self.buffer.as_slice(), self.start, self.end)
    }

    /// The bytes of the node after its tag.
    pub fn payload_scoped_buffer(&self) -> (res: &[u8])
        ensures
            res@ == self@.node().subrange(1, self@.node().len() as int),
            self@.node().len() >= 1,
    {
        proof {
            use_type_invariant(self);
        }
        let res = slice_subrange(self.buffer.as_slice(), self.start + 1, self.end);
        assert(res@ =~= self@.node().subrange(1, self@.node().len() as int));
        res
    }

    /// Makes a cursor on the node that fills the whole buffer.
    pub fn new(buffer: T) -> (res: Result<Self, CursorError>)
        ensures
            match res {
                Ok(cursor) => CursorView::at(buffer.bytes(), 0, buffer.bytes().len() as int)
                    == Ok::<CursorView, CursorError>(cursor@) && cursor@.wf() && cursor.storage()
                    == buffer,
                Err(e) => CursorView::at(buffer.bytes(), 0, buffer.bytes().len() as int) == Err::<
                    CursorView,
                    CursorError,
                >(e),
            },
    {
        let len = buffer.as_slice().len();
        assert(buffer.bytes().subrange(0, len as int) =~= buffer.bytes());
        let raw_cursor = RawCursor::new(buffer.as_slice())?;
        Ok(Self { buffer, raw_cursor, start: 0, end: len })
    }

    /// Makes a cursor on the node that fills a range of the buffer.
    pub fn new_with_range(buffer: T, range: Range<usize>) -> (res: Result<Self, CursorError>)
        ensures
            match res {
                Ok(cursor) => CursorView::at(buffer.bytes(), range.start as int, range.end as int)
                    == Ok::<CursorView, CursorError>(cursor@) && cursor@.wf() && cursor.storage()
                    == buffer,
                Err(e) => CursorView::at(buffer.bytes(), range.start as int, range.end as int)
                    == Err::<CursorView, CursorError>(e),
            },
    {
        let slice = buffer.as_slice();
        if range.start > range.end || range.end > slice.len() {
            return Err(CursorError::DocumentTooShort);
        }
        let raw_cursor = RawCursor::new(slice_subrange(slice, range.start, range.end))?;
        Ok(Self { buffer, raw_cursor, start: range.start, end: range.end })
    }

    /// The element type of the node.
    pub fn get_element_type(&self) -> (res: ElementTypeCode)
        ensures
            res == self@.header.element_type,
    {
        self.raw_cursor.element_type
    }

    /// The number of children of the node: zero for anything but a map or an
    /// array.
    pub fn get_children_count(&self) -> (res: usize)
        ensures
            res == self@.header.child_count,
            !self@.header.element_type.is_container() ==> res == 0,
    {
        proof {
            use_type_invariant(self);
        }
        self.raw_cursor.child_count as usize
    }

    /// Makes the cursor on a child that the raw reader has located.
    fn descend(&self, range: Range<usize>, raw_cursor: RawCursor) -> (res: Self)
        requires
            0 <= range.start <= range.end <= self@.node().len(),
            parse_header(self@.node().subrange(range.start as int, range.end as int)) == Ok::<
                RawCursor,
                CursorError,
            >(raw_cursor),
        ensures
            res@ == self@.child(crate::raw_cursor::located(0, range, raw_cursor)),
            res@.wf(),
            res.storage().bytes() == self.storage().bytes(),
    {
        proof {
            use_type_invariant(self);
            assert(self@.node().subrange(range.start as int, range.end as int)
                =~= self@.document.subrange(
                self@.start + range.start,
                self@.start + range.end,
            ));
        }
        Self {
            buffer: self.buffer.share(),
            raw_cursor,
            start: self.start + range.start,
            end: self.start + range.end,
        }
    }

    /// Returns the cursor on child `index` of a map or an array.
    pub fn get_value_by_index(&self, index: usize) -> (res: Result<Self, CursorError>)
        ensures
            descends(
                self@,
                value_by_index(self@.node(), self@.header, index as int),
                match res {
                    Ok(cursor) => Ok(cursor@),
                    Err(e) => Err(e),
                },
            ),
            self@.wf(),
    {
        proof {
            use_type_invariant(self);
        }
        let (range, raw_cursor) = self.raw_cursor.get_value_by_index(self.scoped_buffer(), index)?;
        Ok(self.descend(range, raw_cursor))
    }

    /// Searches a map for a key, and returns the cursor on the value.
    pub fn get_value_by_key(&self, key: &str) -> (res: Result<Self, CursorError>)
        ensures
            descends(
                self@,
                value_by_key(self@.node(), self@.header, key.spec_bytes()),
                match res {
                    Ok(cursor) => Ok(cursor@),
                    Err(e) => Err(e),
                },
            ),
            self@.wf(),
    {
        let (_index, cursor) = self.get_value_and_index_by_key(key)?;
        Ok(cursor)
    }

    /// Searches a map for a key, and returns the entry's index and the cursor
    /// on the value.
    pub fn get_value_and_index_by_key(&self, key: &str) -> (res: Result<(usize, Self), CursorError>)
        ensures
            descends(
                self@,
                value_by_key(self@.node(), self@.header, key.spec_bytes()),
                match res {
                    Ok((_, cursor)) => Ok(cursor@),
                    Err(e) => Err(e),
                },
            ),
            res matches Ok((index, _)) ==> value_by_key(
                self@.node(),
                self@.header,
                key.spec_bytes(),
            ).unwrap().index == index,
            self@.wf(),
    {
        proof {
            use_type_invariant(self);
        }
        let (index, range, raw_cursor) = self.raw_cursor.get_value_and_index_by_key(
            self.scoped_buffer(),
            key,
        )?;
        proof {
            lemma_found_is_child(self@.node(), self@.header, key.spec_bytes());
        }
        Ok((index, self.descend(range, raw_cursor)))
    }

    /// Walks a path from this node: each segment descends into the entry under
    /// a key or into the child at an index. An empty path leads to this node.
    pub fn goto(&self, path_segments: &[PathSegment]) -> (res: Result<Self, CursorError>)
        ensures
            match res {
                Ok(cursor) => self@.walk(path_segments@, path_segments@.len() as int) == Ok::<
                    CursorView,
                    CursorError,
                >(cursor@) && cursor@.wf(),
                Err(e) => self@.walk(path_segments@, path_segments@.len() as int) == Err::<
                    CursorView,
                    CursorError,
                >(e),
            },
    {
        proof {
            use_type_invariant(self);
        }
        let mut current: Cursor<&[u8]> = self.borrow();
        let mut i: usize = 0;
        while i < path_segments.len()
            invariant
                i <= path_segments@.len(),
                self@.walk(path_segments@, i as int) == Ok::<CursorView, CursorError>(current@),
                current@.document == self@.document,
                current@.wf(),
            decreases path_segments@.len() - i,
        {
            let found = match path_segments[i] {
                PathSegment::Key(key) => current.get_value_by_key(key),
                PathSegment::Index(index) => current.get_value_by_index(index),
            };
            match found {
                Ok(cursor) => {
                    current = cursor;
                },
                Err(e) => {
                    proof {
                        lemma_walk_error(self@, path_segments@, i + 1, path_segments@.len() as int);
                    }
                    return Err(e);
                },
            }
            i += 1;
        }
        proof {
            use_type_invariant(&current);
        }
        Ok(
            Cursor {
                buffer: self.buffer.share(),
                start: current.start,
                end: current.end,
                raw_cursor: current.raw_cursor,
            },
        )
    }

    /// Returns key `index` of a map. Where a key stands in a map is up to the
    /// encoder.
    pub fn get_key_by_index(&self, index: usize) -> (res: Result<&str, CursorError>)
        ensures
            match res {
                Ok(key) => key_by_index(self@.node(), self@.header, index as int) == Ok::<
                    Seq<char>,
                    CursorError,
                >(key@),
                Err(e) => key_by_index(self@.node(), self@.header, index as int) == Err::<
                    Seq<char>,
                    CursorError,
                >(e),
            },
    {
        self.raw_cursor.get_key_by_index(self.scoped_buffer(), index)
    }

    /// Reads a `True` or `False` node.
    pub fn get_bool(&self) -> (res: Result<bool, CursorError>)
        ensures
            res == bool_value(self@.header),
    {
        self.raw_cursor.read_bool()
    }

    /// Checks that the node is a `Null` node.
    pub fn get_none(&self) -> (res: Result<(), CursorError>)
        ensures
            res == expect_type(self@.header, ElementTypeCode::Null),
    {
        self.raw_cursor.ensure_element_type(ElementTypeCode::Null)
    }

    /// Reads an `Int32` node.
    pub fn get_i32(&self) -> (res: Result<i32, CursorError>)
        ensures
            res == i32_value(self@.node(), self@.header),
    {
        self.raw_cursor.read_i32(self.scoped_buffer())
    }

    /// Reads an `Int64` node.
    pub fn get_i64(&self) -> (res: Result<i64, CursorError>)
        ensures
            res == i64_value(self@.node(), self@.header),
    {
        self.raw_cursor.read_i64(self.scoped_buffer())
    }

    /// Reads a `UInt32` node.
    pub fn get_u32(&self) -> (res: Result<u32, CursorError>)
        ensures
            res == word_value(self@.node(), self@.header, ElementTypeCode::UInt32),
    {
        self.raw_cursor.read_word(self.scoped_buffer(), ElementTypeCode::UInt32)
    }

    /// Reads a `UInt64` node.
    pub fn get_u64(&self) -> (res: Result<u64, CursorError>)
        ensures
            res == long_value(self@.node(), self@.header, ElementTypeCode::UInt64),
    {
        self.raw_cursor.read_long(self.scoped_buffer(), ElementTypeCode::UInt64)
    }

    /// Reads a `Double` node, as the 64 bits of its IEEE-754 binary64 form.
    pub fn get_double_bits(&self) -> (res: Result<u64, CursorError>)
        ensures
            res == long_value(self@.node(), self@.header, ElementTypeCode::Double),
    {
        self.raw_cursor.read_long(self.scoped_buffer(), ElementTypeCode::Double)
    }

    /// Returns the text of a `String` node: the payload up to its first NUL,
    /// which must be valid UTF-8.
    pub fn get_str(&self) -> (res: Result<&str, CursorError>)
        ensures
            match res {
                Ok(text) => string_value(self@.node(), self@.header) == Ok::<
                    Seq<char>,
                    CursorError,
                >(text@),
                Err(e) => string_value(self@.node(), self@.header) == Err::<
                    Seq<char>,
                    CursorError,
                >(e),
            },
    {
        self.raw_cursor.read_str(self.scoped_buffer())
    }

    /// Returns the payload of a `Binary` node.
    pub fn get_binary(&self) -> (res: Result<&[u8], CursorError>)
        ensures
            match res {
                Ok(bytes) => binary_value(self@.node(), self@.header) == Ok::<
                    Seq<u8>,
                    CursorError,
                >(bytes@),
                Err(e) => binary_value(self@.node(), self@.header) == Err::<Seq<u8>, CursorError>(
                    e,
                ),
            },
    {
        self.raw_cursor.read_binary(self.scoped_buffer())
    }

    /// Returns another cursor on the same node, with a storage handle of its
    /// own.
    pub fn share(&self) -> (res: Self)
        ensures
            res@ == self@,
            res@.wf(),
    {
        proof {
            use_type_invariant(self);
        }
        Cursor {
            buffer: self.buffer.share(),
            start: self.start,
            end: self.end,
            raw_cursor: self.raw_cursor,
        }
    }

    /// Returns a cursor on the same node that borrows this one's storage.
    pub fn borrow(&self) -> (res: Cursor<&[u8]>)
        ensures
            res@ == self@,
            res@.wf(),
    {
        proof {
            use_type_invariant(self);
        }
        Cursor {
            buffer: self.buffer.as_slice(),
            start: self.start,
            end: self.end,
            raw_cursor: self.raw_cursor,
        }
    }

    /// Lists the entries of a map, each with a cursor on its value. Entries
    /// that are malformed are left out.
    pub fn iter_map<'a>(&'a self) -> (res: Result<Vec<(&'a str, Self)>, CursorError>)
        ensures
            match res {
                Ok(entries) => map_table(self@.node(), self@.header).is_ok() && entries_view(
                    entries@,
                ) == map_entries(self@, self@.header.child_count as int),
                Err(e) => map_table(self@.node(), self@.header) == Err::<(), CursorError>(e),
            },
    {
        proof {
            use_type_invariant(self);
        }
        let mut iter = self.raw_cursor.iter_map(
            self.start..self.end,
            self.scoped_buffer(),
        )?;
        let mut entries: Vec<(&'a str, Self)> = Vec::new();
        let mut i: u32 = 0;
        assert(entries_view(entries@) =~= Seq::<(Seq<char>, CursorView)>::empty());
        while i < self.raw_cursor.child_count
            invariant
                i <= self.raw_cursor.child_count,
                iter.position() == i,
                iter.header() == self@.header,
                iter.buffer() == self@.node(),
                iter.offset() == self@.start,
                self@.header == self.raw_cursor,
                entries_view(entries@) == map_entries(self@, i as int),
            decreases self.raw_cursor.child_count - i,
        {
            let ghost before = entries@;
            match iter.next() {
                Some(Ok((key, range))) => {
                    match Cursor::new_with_range(self.buffer.share(), range) {
                        Ok(cursor) => {
                            entries.push((key, cursor));
                            assert(entries_view(entries@) =~= entries_view(before).push(
                                (key@, cursor@),
                            ));
                        },
                        Err(_) => {},
                    }
                },
                Some(Err(_)) => {},
                None => {},
            }
            i += 1;
        }
        Ok(entries)
    }

    /// Lists the entries of a map, each with a borrowing cursor on its value.
    /// Entries that are malformed are left out.
    pub fn iter_map_borrowed<'a>(&'a self) -> (res: Result<
        Vec<(&'a str, Cursor<&'a [u8]>)>,
        CursorError,
    >)
        ensures
            match res {
                Ok(entries) => map_table(self@.node(), self@.header).is_ok() && entries_view(
                    entries@,
                ) == map_entries(self@, self@.header.child_count as int),
                Err(e) => map_table(self@.node(), self@.header) == Err::<(), CursorError>(e),
            },
    {
        proof {
            use_type_invariant(self);
        }
        let document: &'a [u8] = self.buffer.as_slice();
        let mut iter = self.raw_cursor.iter_map(
            self.start..self.end,
            self.scoped_buffer(),
        )?;
        let mut entries: Vec<(&'a str, Cursor<&'a [u8]>)> = Vec::new();
        let mut i: u32 = 0;
        assert(entries_view(entries@) =~= Seq::<(Seq<char>, CursorView)>::empty());
        while i < self.raw_cursor.child_count
            invariant
                i <= self.raw_cursor.child_count,
                iter.position() == i,
                iter.header() == self@.header,
                iter.buffer() == self@.node(),
                iter.offset() == self@.start,
                self@.header == self.raw_cursor,
                document@ == self@.document,
                entries_view(entries@) == map_entries(self@, i as int),
            decreases self.raw_cursor.child_count - i,
        {
            let ghost before = entries@;
            match iter.next() {
                Some(Ok((key, range))) => {
                    match Cursor::new_with_range(document, range) {
                        Ok(cursor) => {
                            entries.push((key, cursor));
                            assert(entries_view(entries@) =~= entries_view(before).push(
                                (key@, cursor@),
                            ));
                        },
                        Err(_) => {},
                    }
                },
                Some(Err(_)) => {},
                None => {},
            }
            i += 1;
        }
        Ok(entries)
    }

    /// Lists borrowing cursors on the children of an array. Children that are
    /// malformed are left out.
    pub fn iter_array(&self) -> (res: Result<Vec<Cursor<&[u8]>>, CursorError>)
        ensures
            match res {
                Ok(children) => self@.header.array_table(self@.node()).is_ok() && cursors_view(
                    children@,
                ) == array_children(
                    self@,
                    array_ranges(
                        self@.node(),
                        self@.header,
                        self@.start,
                        self@.header.child_count as int,
                    ),
                    array_ranges(
                        self@.node(),
                        self@.header,
                        self@.start,
                        self@.header.child_count as int,
                    ).len() as int,
                ),
                Err(e) => self@.header.array_table(self@.node()) == Err::<(), CursorError>(e),
            },
    {
        proof {
            use_type_invariant(self);
        }
        let document = self.buffer.as_slice();
        let ranges = self.raw_cursor.iter_array(
            self.start..self.end,
            self.scoped_buffer(),
        )?;
        let ghost listed = crate::raw_cursor::ranges_view(ranges@);
        let mut children: Vec<Cursor<&[u8]>> = Vec::new();
        let mut i: usize = 0;
        assert(cursors_view(children@) =~= Seq::<CursorView>::empty());
        while i < ranges.len()
            invariant
                i <= ranges@.len(),
                document@ == self@.document,
                listed == crate::raw_cursor::ranges_view(ranges@),
                cursors_view(children@) == array_children(self@, listed, i as int),
            decreases ranges@.len() - i,
        {
            let ghost before = children@;
            let range = ranges[i].start..ranges[i].end;
            assert(listed[i as int] == (range.start as int, range.end as int));
            match Cursor::new_with_range(document, range) {
                Ok(cursor) => {
                    children.push(cursor);
                    assert(cursors_view(children@) =~= cursors_view(before).push(cursor@));
                },
                Err(_) => {},
            }
            i += 1;
        }
        Ok(children)
    }
}

impl<'data> Cursor<&'data [u8]> {
    /// Returns the text of a `String` node, borrowed from the storage itself:
    /// it may outlive the cursor.
    pub fn get_storage_str(&self) -> (res: Result<&'data str, CursorError>)
        ensures
            match res {
                Ok(text) => string_value(self@.node(), self@.header) == Ok::<
                    Seq<char>,
                    CursorError,
                >(text@),
                Err(e) => string_value(self@.node(), self@.header) == Err::<
                    Seq<char>,
                    CursorError,
                >(e),
            },
    {
        proof {
            use_type_invariant(self);
        }
        let node: &'data [u8] = slice_subrange(self.buffer, self.start, self.end);
        self.raw_cursor.read_str(node)
    }

    /// Returns the payload of a `Binary` node, borrowed from the storage
    /// itself: it may outlive the cursor.
    pub fn get_storage_binary(&self) -> (res: Result<&'data [u8], CursorError>)
        ensures
            match res {
                Ok(bytes) => binary_value(self@.node(), self@.header) == Ok::<
                    Seq<u8>,
                    CursorError,
                >(bytes@),
                Err(e) => binary_value(self@.node(), self@.header) == Err::<Seq<u8>, CursorError>(
                    e,
                ),
            },
    {
        proof {
            use_type_invariant(self);
        }
        let node: &'data [u8] = slice_subrange(self.buffer, self.start, self.end);
        self.raw_cursor.read_binary(node)
    }
}

/// Range containment: a child that an index reaches lies inside its parent,
/// and is not empty.
pub proof fn lemma_child_lies_inside(parent: CursorView, index: int)
    requires
        parent.wf(),
        value_by_index(parent.node(), parent.header, index).is_ok(),
    ensures
        ({
            let child = parent.child(
                value_by_index(parent.node(), parent.header, index).unwrap(),
            );
            &&& child.wf()
            &&& parent.start <= child.start < child.end <= parent.end
            &&& child.document == parent.document
        }),
{
    let located = value_by_index(parent.node(), parent.header, index).unwrap();
    assert(parent.node().subrange(located.start, located.end) =~= parent.document.subrange(
        parent.start + located.start,
        parent.start + located.end,
    ));
}

/// Range containment: a child that a lookup by key finds lies inside its
/// parent, and is not empty.
pub proof fn lemma_found_lies_inside(parent: CursorView, key: Seq<u8>)
    requires
        parent.wf(),
        value_by_key(parent.node(), parent.header, key).is_ok(),
    ensures
        ({
            let child = parent.child(value_by_key(parent.node(), parent.header, key).unwrap());
            &&& child.wf()
            &&& parent.start <= child.start < child.end <= parent.end
            &&& child.document == parent.document
        }),
{
    lemma_found_is_child(parent.node(), parent.header, key);
    let located = value_by_key(parent.node(), parent.header, key).unwrap();
    lemma_child_lies_inside(parent, located.index);
}

/// A child that a lookup finds is a child that an index reaches: it lies
/// inside the node and a node starts there.
pub proof fn lemma_found_is_child(node: Seq<u8>, header: RawCursor, key: Seq<u8>)
    ensures
        value_by_key(node, header, key) matches Ok(located) ==> value_by_index(
            node,
            header,
            located.index,
        ) == Ok::<Located, CursorError>(located),
{
    if header.element_type != ElementTypeCode::MapCHD && map_table(node, header).is_ok() {
        lemma_search_finds_child(node, header, key, 1);
    }
}

/// What the search of an ordered map finds is a child that an index reaches.
pub proof fn lemma_search_finds_child(node: Seq<u8>, header: RawCursor, key: Seq<u8>, k: int)
    requires
        1 <= k,
    ensures
        crate::layout::ordered_search(node, header, key, k) matches Ok(located)
            ==> value_by_index(node, header, located.index) == Ok::<Located, CursorError>(located),
    decreases 2 * header.child_count + 2 - k,
{
    crate::layout::lemma_ordered_search_step(node, header, key, k);
    if k <= header.child_count {
        lemma_search_finds_child(node, header, key, 2 * k);
        lemma_search_finds_child(node, header, key, 2 * k + 1);
    }
}

/// Once the first `i` steps of a path fail, so do the first `n`, alike.
pub proof fn lemma_walk_error(view: CursorView, path: Seq<PathSegment>, i: int, n: int)
    requires
        0 <= i <= n,
        view.walk(path, i).is_err(),
    ensures
        view.walk(path, n) == view.walk(path, i),
    decreases n - i,
{
    if i < n {
        lemma_walk_error(view, path, i, n - 1);
    }
}

} // verus!
