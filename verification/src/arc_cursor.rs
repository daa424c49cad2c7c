//! A cursor that shares ownership of its document.

use crate::cached_map_cursor::CachedMapCursor;
use crate::cursor::{Cursor, CursorView, descends};
use crate::layout::{
    binary_value, bool_value, expect_type, i32_value, i64_value, string_value, value_by_index,
    value_by_key,
};
use crate::storage::Storage;
use crate::types::{CursorError, ElementTypeCode};
use core::ops::Range;
use std::sync::Arc;
use vstd::prelude::*;
use vstd::string::StringSliceAdditionalSpecFns;

verus! {

/// A cursor that holds its document by an atomic reference count: it can be
/// cloned freely and handed to other threads.
#[derive(Debug)]
pub struct ArcCursor {
    inner: Cursor<Arc<[u8]>>,
}

impl View for ArcCursor {
    type V = CursorView;

    closed spec fn view(&self) -> CursorView {
        self.inner@
    }
}

impl ArcCursor {
    /// The bytes of the node.
    pub fn scoped_buffer(&self) -> (res: &[u8])
        ensures
            res@ == self@.node(),
    {
        self.inner.scoped_buffer()
    }

    /// The bytes of the node after its tag.
    pub fn payload_scoped_buffer(&self) -> (res: &[u8])
        ensures
            res@ == self@.node().subrange(1, self@.node().len() as int),
    {
        self.inner.payload_scoped_buffer()
    }

    /// Makes a cursor on the node that fills the whole buffer.
    pub fn new(buffer: Arc<[u8]>) -> (res: Result<Self, CursorError>)
        ensures
            match res {
                Ok(cursor) => CursorView::at(buffer.bytes(), 0, buffer.bytes().len() as int)
                    == Ok::<CursorView, CursorError>(cursor@) && cursor@.wf(),
                Err(e) => CursorView::at(buffer.bytes(), 0, buffer.bytes().len() as int) == Err::<
                    CursorView,
                    CursorError,
                >(e),
            },
    {
        Ok(ArcCursor { inner: Cursor::new(buffer)? })
    }

    /// Makes a cursor on the node that fills a range of the buffer.
    pub fn new_with_range(buffer: Arc<[u8]>, range: Range<usize>) -> (res: Result<
        Self,
        CursorError,
    >)
        ensures
            match res {
                Ok(cursor) => CursorView::at(buffer.bytes(), range.start as int, range.end as int)
                    == Ok::<CursorView, CursorError>(cursor@) && cursor@.wf(),
                Err(e) => CursorView::at(buffer.bytes(), range.start as int, range.end as int)
                    == Err::<CursorView, CursorError>(e),
            },
    {
        Ok(ArcCursor { inner: Cursor::new_with_range(buffer, range)? })
    }

    /// Another handle on the document.
    pub fn share_storage(&self) -> (res: Arc<[u8]>)
        ensures
            res.bytes() == self@.document,
    {
        self.inner.share_storage()
    }

    /// The generic cursor inside.
    pub fn as_cursor(&self) -> (res: &Cursor<Arc<[u8]>>)
        ensures
            res@ == self@,
    {
        &self.inner
    }

    /// The element type of the node.
    pub fn get_element_type(&self) -> (res: ElementTypeCode)
        ensures
            res == self@.header.element_type,
    {
        self.inner.get_element_type()
    }

    /// The number of children of the node: zero for anything but a map or an
    /// array.
    pub fn get_children_count(&self) -> (res: usize)
        ensures
            res == self@.header.child_count,
            !self@.header.element_type.is_container() ==> res == 0,
    {
        self.inner.get_children_count()
    }

    /// Returns the cursor on child `index` of a map or an array.
    pub fn get_value_by_index(&self, index: usize) -> (res: Result<Self, CursorError>)
        ensures
            descends(
                self@,
                value_by_index(self@.node(), self@.header, index as int),
                match res {
                    Ok(cursor) => Ok(cursor@),
                    Err(e) => Err(e),
                },
            ),
    {
        Ok(ArcCursor { inner: self.inner.get_value_by_index(index)? })
    }

    /// Searches a map for a key, and returns the cursor on the value.
    pub fn get_value_by_key(&self, key: &str) -> (res: Result<Self, CursorError>)
        ensures
            descends(
                self@,
                value_by_key(self@.node(), self@.header, key.spec_bytes()),
                match res {
                    Ok(cursor) => Ok(cursor@),
                    Err(e) => Err(e),
                },
            ),
    {
        Ok(ArcCursor { inner: self.inner.get_value_by_key(key)? })
    }

    /// Searches a map for a key, and returns the entry's index and the cursor
    /// on the value.
    pub fn get_value_and_index_by_key(&self, key: &str) -> (res: Result<(usize, Self), CursorError>)
        ensures
            descends(
                self@,
                value_by_key(self@.node(), self@.header, key.spec_bytes()),
                match res {
                    Ok((_, cursor)) => Ok(cursor@),
                    Err(e) => Err(e),
                },
            ),
            res matches Ok((index, _)) ==> value_by_key(
                self@.node(),
                self@.header,
                key.spec_bytes(),
            ).unwrap().index == index,
    {
        let (index, inner) = self.inner.get_value_and_index_by_key(key)?;
        Ok((index, ArcCursor { inner }))
    }

    /// Reads a `True` or `False` node.
    pub fn parse_bool(&self) -> (res: Result<bool, CursorError>)
        ensures
            res == bool_value(self@.header),
    {
        self.inner.get_bool()
    }

    /// Checks that the node is a `Null` node.
    pub fn parse_none(&self) -> (res: Result<(), CursorError>)
        ensures
            res == expect_type(self@.header, ElementTypeCode::Null),
    {
        self.inner.get_none()
    }

    /// Reads an `Int32` node.
    pub fn parse_i32(&self) -> (res: Result<i32, CursorError>)
        ensures
            res == i32_value(self@.node(), self@.header),
    {
        self.inner.get_i32()
    }

    /// Reads an `Int64` node.
    pub fn parse_i64(&self) -> (res: Result<i64, CursorError>)
        ensures
            res == i64_value(self@.node(), self@.header),
    {
        self.inner.get_i64()
    }

    /// Returns the text of a `String` node.
    pub fn parse_str(&self) -> (res: Result<&str, CursorError>)
        ensures
            match res {
                Ok(text) => string_value(self@.node(), self@.header) == Ok::<
                    Seq<char>,
                    CursorError,
                >(text@),
                Err(e) => string_value(self@.node(), self@.header) == Err::<
                    Seq<char>,
                    CursorError,
                >(e),
            },
    {
        self.inner.get_str()
    }

    /// Returns the payload of a `Binary` node.
    pub fn parse_binary(&self) -> (res: Result<&[u8], CursorError>)
        ensures
            match res {
                Ok(bytes) => binary_value(self@.node(), self@.header) == Ok::<
                    Seq<u8>,
                    CursorError,
                >(bytes@),
                Err(e) => binary_value(self@.node(), self@.header) == Err::<Seq<u8>, CursorError>(
                    e,
                ),
            },
    {
        self.inner.get_binary()
    }

    /// Another cursor on the same node, sharing the document.
    pub fn share(&self) -> (res: Self)
        ensures
            res@ == self@,
    {
        ArcCursor { inner: self.inner.share() }
    }

    /// Reads every key of a map once, for lookups by hash table afterwards.
    pub fn cache_map(&self) -> (res: Result<CachedMapCursor, CursorError>)
        ensures
            match res {
                Ok(cached) => crate::layout::map_table(self@.node(), self@.header).is_ok()
                    && cached@ == self@ && cached.children() == crate::cached_map_cursor::cached_ranges(
                    self@,
                    self@.header.child_count as int,
                ),
                Err(e) => crate::layout::map_table(self@.node(), self@.header) == Err::<
                    (),
                    CursorError,
                >(e),
            },
    {
        CachedMapCursor::new(self.share())
    }
}

} // verus!
