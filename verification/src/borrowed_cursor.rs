//! A cursor over a borrowed document.

use crate::cursor::{Cursor, CursorView, descends};
use crate::layout::{
    binary_value, bool_value, expect_type, i32_value, i64_value, string_value, value_by_index,
    value_by_key,
};
use crate::types::{CursorError, ElementTypeCode};
use vstd::prelude::*;
use vstd::string::StringSliceAdditionalSpecFns;

verus! {

/// A cursor that borrows its document: the cheapest kind, bound to the
/// lifetime of the buffer.
///
/// The cursor points to one node of the document tree. Indexing into a map or
/// an array gives a cursor on a child; leaves are read by the `parse_*`
/// methods.
#[derive(Debug)]
pub struct BorrowedCursor<'a> {
    inner: Cursor<&'a [u8]>,
}

impl<'a> View for BorrowedCursor<'a> {
    type V = CursorView;

    closed spec fn view(&self) -> CursorView {
        self.inner@
    }
}

impl<'a> BorrowedCursor<'a> {
    /// Makes a cursor on the node that fills the whole buffer.
    pub fn new(buffer: &'a [u8]) -> (res: Result<Self, CursorError>)
        ensures
            match res {
                Ok(cursor) => CursorView::at(buffer@, 0, buffer@.len() as int) == Ok::<
                    CursorView,
                    CursorError,
                >(cursor@) && cursor@.wf(),
                Err(e) => CursorView::at(buffer@, 0, buffer@.len() as int) == Err::<
                    CursorView,
                    CursorError,
                >(e),
            },
    {
        Ok(BorrowedCursor { inner: Cursor::new(buffer)? })
    }

    /// Wraps a generic cursor over a borrowed document.
    pub fn from_cursor(inner: Cursor<&'a [u8]>) -> (res: Self)
        ensures
            res@ == inner@,
    {
        BorrowedCursor { inner }
    }

    /// The element type of the node.
    pub fn get_element_type(&self) -> (res: ElementTypeCode)
        ensures
            res == self@.header.element_type,
    {
        self.inner.get_element_type()
    }

    /// The number of children of the node: zero for anything but a map or an
    /// array.
    pub fn get_children_count(&self) -> (res: usize)
        ensures
            res == self@.header.child_count,
            !self@.header.element_type.is_container() ==> res == 0,
    {
        self.inner.get_children_count()
    }

    /// Returns the cursor on child `index` of a map or an array.
    pub fn get_value_by_index(&self, index: usize) -> (res: Result<BorrowedCursor<'a>, CursorError>)
        ensures
            descends(
                self@,
                value_by_index(self@.node(), self@.header, index as int),
                match res {
                    Ok(cursor) => Ok(cursor@),
                    Err(e) => Err(e),
                },
            ),
    {
        Ok(BorrowedCursor { inner: self.inner.get_value_by_index(index)? })
    }

    /// Searches a map for a key, and returns the cursor on the value.
    pub fn get_value_by_key(&self, key: &str) -> (res: Result<BorrowedCursor<'a>, CursorError>)
        ensures
            descends(
                self@,
                value_by_key(self@.node(), self@.header, key.spec_bytes()),
                match res {
                    Ok(cursor) => Ok(cursor@),
                    Err(e) => Err(e),
                },
            ),
    {
        Ok(BorrowedCursor { inner: self.inner.get_value_by_key(key)? })
    }

    /// Searches a map for a key, and returns the entry's index and the cursor
    /// on the value.
    pub fn get_value_and_index_by_key(&self, key: &str) -> (res: Result<
        (usize, BorrowedCursor<'a>),
        CursorError,
    >)
        ensures
            descends(
                self@,
                value_by_key(self@.node(), self@.header, key.spec_bytes()),
                match res {
                    Ok((_, cursor)) => Ok(cursor@),
                    Err(e) => Err(e),
                },
            ),
            res matches Ok((index, _)) ==> value_by_key(
                self@.node(),
                self@.header,
                key.spec_bytes(),
            ).unwrap().index == index,
    {
        let (index, inner) = self.inner.get_value_and_index_by_key(key)?;
        Ok((index, BorrowedCursor { inner }))
    }

    /// Reads a `True` or `False` node.
    pub fn parse_bool(&self) -> (res: Result<bool, CursorError>)
        ensures
            res == bool_value(self@.header),
    {
        self.inner.get_bool()
    }

    /// Checks that the node is a `Null` node.
    pub fn parse_none(&self) -> (res: Result<(), CursorError>)
        ensures
            res == expect_type(self@.header, ElementTypeCode::Null),
    {
        self.inner.get_none()
    }

    /// Reads an `Int32` node.
    pub fn parse_i32(&self) -> (res: Result<i32, CursorError>)
        ensures
            res == i32_value(self@.node(), self@.header),
    {
        self.inner.get_i32()
    }

    /// Reads an `Int64` node.
    pub fn parse_i64(&self) -> (res: Result<i64, CursorError>)
        ensures
            res == i64_value(self@.node(), self@.header),
    {
        self.inner.get_i64()
    }

    /// Returns the text of a `String` node, borrowed from the document.
    pub fn parse_str(&self) -> (res: Result<&'a str, CursorError>)
        ensures
            match res {
                Ok(text) => string_value(self@.node(), self@.header) == Ok::<
                    Seq<char>,
                    CursorError,
                >(text@),
                Err(e) => string_value(self@.node(), self@.header) == Err::<
                    Seq<char>,
                    CursorError,
                >(e),
            },
    {
        self.inner.get_storage_str()
    }

    /// Returns the payload of a `Binary` node, borrowed from the document.
    pub fn parse_binary(&self) -> (res: Result<&'a [u8], CursorError>)
        ensures
            match res {
                Ok(bytes) => binary_value(self@.node(), self@.header) == Ok::<
                    Seq<u8>,
                    CursorError,
                >(bytes@),
                Err(e) => binary_value(self@.node(), self@.header) == Err::<Seq<u8>, CursorError>(
                    e,
                ),
            },
    {
        self.inner.get_storage_binary()
    }
}

} // verus!
