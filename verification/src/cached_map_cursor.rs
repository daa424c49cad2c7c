//! A map cursor that looks keys up in a hash table built once.

use crate::arc_cursor::ArcCursor;
use crate::borrowed_cursor::BorrowedCursor;
use crate::cursor::{CursorView, descends, map_entries};
use crate::layout::{map_item, map_table, value_by_index};
use crate::types::CursorError;
use core::ops::Range;
use vstd::hash_map::StringHashMap;
use vstd::prelude::*;

verus! {

/// The ranges of the values of the first `count` entries of a map, by key.
/// Entries that are malformed are left out; of two entries under one key the
/// later one stays.
pub open spec fn cached_ranges(view: CursorView, count: int) -> Map<Seq<char>, Range<usize>>
    decreases count,
{
    if count <= 0 {
        Map::empty()
    } else {
        let before = cached_ranges(view, count - 1);
        match map_item(view.node(), view.header, view.start, count - 1) {
            Ok((key, start, end)) => before.insert(
                key,
                Range { start: start as usize, end: end as usize },
            ),
            Err(_) => before,
        }
    }
}

/// A cursor on a map whose keys were all read once into a hash table, so
/// that a lookup by key takes one probe whatever the layout of the map.
pub struct CachedMapCursor {
    cursor: ArcCursor,
    /// From each key to the range of its value inside the document.
    children: StringHashMap<Range<usize>>,
}

impl View for CachedMapCursor {
    type V = CursorView;

    closed spec fn view(&self) -> CursorView {
        self.cursor@
    }
}

impl CachedMapCursor {
    /// The ranges that the table holds, by key.
    pub closed spec fn children(&self) -> Map<Seq<char>, Range<usize>> {
        self.children@
    }

    /// The document that the cursor reads.
    pub closed spec fn document(&self) -> Seq<u8> {
        self.cursor@.document
    }

    /// Reads every key of the map that the cursor points to.
    pub fn new(cursor: ArcCursor) -> (res: Result<Self, CursorError>)
        ensures
            match res {
                Ok(cached) => map_table(cursor@.node(), cursor@.header).is_ok() && cached@
                    == cursor@ && cached.children() == cached_ranges(
                    cursor@,
                    cursor@.header.child_count as int,
                ),
                Err(e) => map_table(cursor@.node(), cursor@.header) == Err::<(), CursorError>(e),
            },
    {
        let mut children: StringHashMap<Range<usize>> = StringHashMap::new();
        let inner = cursor.as_cursor();
        let count = inner.get_children_count();
        let header = crate::raw_cursor::RawCursor {
            element_type: inner.get_element_type(),
            child_count: count as u32,
        };
        let node = inner.scoped_buffer();
        let mut iter = header.iter_map(inner.range_start()..inner.range_start(), node)?;
        let mut i: usize = 0;
        while i < count
            invariant
                i <= count,
                count == cursor@.header.child_count,
                iter.position() == i,
                iter.header() == cursor@.header,
                iter.buffer() == cursor@.node(),
                iter.offset() == cursor@.start,
                children@ == cached_ranges(cursor@, i as int),
            decreases count - i,
        {
            match iter.next() {
                Some(Ok((key, range))) => {
                    children.insert(key.to_owned(), range);
                },
                Some(Err(_)) => {},
                None => {},
            }
            i += 1;
        }
        Ok(CachedMapCursor { cursor, children })
    }

    /// Looks a key up in the table, and returns the cursor on the value.
    pub fn get_value_by_key(&self, key: &str) -> (res: Result<ArcCursor, CursorError>)
        ensures
            match res {
                Ok(cursor) => self.children().contains_key(key@) && CursorView::at(
                    self.document(),
                    self.children()[key@].start as int,
                    self.children()[key@].end as int,
                ) == Ok::<CursorView, CursorError>(cursor@),
                Err(e) => if self.children().contains_key(key@) {
                    CursorView::at(
                        self.document(),
                        self.children()[key@].start as int,
                        self.children()[key@].end as int,
                    ) == Err::<CursorView, CursorError>(e)
                } else {
                    e == CursorError::KeyNotFound
                },
            },
    {
        let range = match self.children.get(key) {
            Some(range) => range.start..range.end,
            None => {
                return Err(CursorError::KeyNotFound);
            },
        };
        ArcCursor::new_with_range(self.cursor.share_storage(), range)
    }

    /// Returns the cursor on child `index` of the map, by the map's own
    /// descriptors: the table knows nothing of indices.
    pub fn get_value_by_index(&self, index: usize) -> (res: Result<ArcCursor, CursorError>)
        ensures
            descends(
                self@,
                value_by_index(self@.node(), self@.header, index as int),
                match res {
                    Ok(cursor) => Ok(cursor@),
                    Err(e) => Err(e),
                },
            ),
    {
        self.cursor.get_value_by_index(index)
    }

    /// Lists the entries of the map, each with a borrowing cursor on its
    /// value. Entries that are malformed are left out.
    pub fn iter_borrowed<'a>(&'a self) -> (res: Result<
        Vec<(String, BorrowedCursor<'a>)>,
        CursorError,
    >)
        ensures
            match res {
                Ok(entries) => map_table(self@.node(), self@.header).is_ok() && owned_entries_view(
                    entries@,
                ) == map_entries(self@, self@.header.child_count as int),
                Err(e) => map_table(self@.node(), self@.header) == Err::<(), CursorError>(e),
            },
    {
        let inner = self.cursor.as_cursor();
        let count = inner.get_children_count();
        let header = crate::raw_cursor::RawCursor {
            element_type: inner.get_element_type(),
            child_count: count as u32,
        };
        let document: &'a [u8] = inner.document();
        let mut iter = header.iter_map(
            inner.range_start()..inner.range_start(),
            inner.scoped_buffer(),
        )?;
        let mut entries: Vec<(String, BorrowedCursor<'a>)> = Vec::new();
        let mut i: usize = 0;
        assert(owned_entries_view(entries@) =~= Seq::<(Seq<char>, CursorView)>::empty());
        while i < count
            invariant
                i <= count,
                count == self@.header.child_count,
                iter.position() == i,
                iter.header() == self@.header,
                iter.buffer() == self@.node(),
                iter.offset() == self@.start,
                document@ == self@.document,
                owned_entries_view(entries@) == map_entries(self@, i as int),
            decreases count - i,
        {
            let ghost before = entries@;
            match iter.next() {
                Some(Ok((key, range))) => {
                    match crate::cursor::Cursor::new_with_range(document, range) {
                        Ok(cursor) => {
                            let ghost view = cursor@;
                            entries.push((key.to_owned(), BorrowedCursor::from_cursor(cursor)));
                            assert(owned_entries_view(entries@) =~= owned_entries_view(
                                before,
                            ).push((key@, view)));
                        },
                        Err(_) => {},
                    }
                },
                Some(Err(_)) => {},
                None => {},
            }
            i += 1;
        }
        Ok(entries)
    }
}

/// The views of the entries of a list.
pub open spec fn owned_entries_view(entries: Seq<(String, BorrowedCursor)>) -> Seq<
    (Seq<char>, CursorView),
> {
    Seq::new(entries.len(), |i: int| (entries[i].0@, entries[i].1@))
}

} // verus!
