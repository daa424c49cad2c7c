//! Element tags, reader errors and path segments.

use vstd::prelude::*;

verus! {

/// The tag byte that starts every node.
#[derive(Copy, Clone, PartialEq, Eq, Debug, Structural)]
pub enum ElementTypeCode {
    Double,
    String,
    OrderedMap,
    Array,
    Binary,
    False,
    True,
    Null,
    Int32,
    UInt32,
    Int64,
    UInt64,
    MapCHD,
}

/// Everything that can go wrong while reading a document.
#[derive(Copy, Clone, PartialEq, Eq, Debug, Structural)]
pub enum CursorError {
    /// The buffer ends before the bytes that are needed.
    DocumentTooShort,
    /// The tag byte on the wire is not a known element type.
    InvalidElementType(u8),
    /// The accessor asked for one element type, but the cursor points to another.
    WrongElementType { actual: ElementTypeCode },
    /// A string has no NUL terminator inside its node.
    UnterminatedString,
    /// The bytes of a string or key are not valid UTF-8.
    Utf8Error,
    /// An offset stored in a descriptor points outside the node.
    EmbeddedOffsetOutOfBounds,
    /// The index is not below the number of children.
    ItemIndexOutOfBounds,
    /// The map holds no entry under the key.
    KeyNotFound,
}

/// One step of a path through a document.
pub enum PathSegment<'a> {
    Key(&'a str),
    Index(usize),
}

/// The element type that a tag byte stands for, if any.
pub open spec fn tag_to_type(tag: u8) -> Option<ElementTypeCode> {
    if tag == 0x01 {
        Some(ElementTypeCode::Double)
    } else if tag == 0x02 {
        Some(ElementTypeCode::String)
    } else if tag == 0x03 {
        Some(ElementTypeCode::OrderedMap)
    } else if tag == 0x04 {
        Some(ElementTypeCode::Array)
    } else if tag == 0x05 {
        Some(ElementTypeCode::Binary)
    } else if tag == 0x08 {
        Some(ElementTypeCode::False)
    } else if tag == 0x09 {
        Some(ElementTypeCode::True)
    } else if tag == 0x0A {
        Some(ElementTypeCode::Null)
    } else if tag == 0x10 {
        Some(ElementTypeCode::Int32)
    } else if tag == 0x11 {
        Some(ElementTypeCode::UInt32)
    } else if tag == 0x12 {
        Some(ElementTypeCode::Int64)
    } else if tag == 0x13 {
        Some(ElementTypeCode::UInt64)
    } else if tag == 0x20 {
        Some(ElementTypeCode::MapCHD)
    } else {
        None
    }
}

impl ElementTypeCode {
    /// The tag byte of this element type.
    pub open spec fn tag(self) -> u8 {
        match self {
            ElementTypeCode::Double => 0x01,
            ElementTypeCode::String => 0x02,
            ElementTypeCode::OrderedMap => 0x03,
            ElementTypeCode::Array => 0x04,
            ElementTypeCode::Binary => 0x05,
            ElementTypeCode::False => 0x08,
            ElementTypeCode::True => 0x09,
            ElementTypeCode::Null => 0x0A,
            ElementTypeCode::Int32 => 0x10,
            ElementTypeCode::UInt32 => 0x11,
            ElementTypeCode::Int64 => 0x12,
            ElementTypeCode::UInt64 => 0x13,
            ElementTypeCode::MapCHD => 0x20,
        }
    }

    /// Whether nodes of this type have children (and so a child count).
    pub open spec fn is_container(self) -> bool {
        self == ElementTypeCode::OrderedMap || self == ElementTypeCode::Array || self
            == ElementTypeCode::MapCHD
    }

    /// Whether nodes of this type are maps, of either layout.
    pub open spec fn is_map(self) -> bool {
        self == ElementTypeCode::OrderedMap || self == ElementTypeCode::MapCHD
    }

    /// The tag byte of this element type.
    pub fn to_u8(self) -> (tag: u8)
        ensures
            tag == self.tag(),
            tag_to_type(tag) == Some(self),
    {
        match self {
            ElementTypeCode::Double => 0x01,
            ElementTypeCode::String => 0x02,
            ElementTypeCode::OrderedMap => 0x03,
            ElementTypeCode::Array => 0x04,
            ElementTypeCode::Binary => 0x05,
            ElementTypeCode::False => 0x08,
            ElementTypeCode::True => 0x09,
            ElementTypeCode::Null => 0x0A,
            ElementTypeCode::Int32 => 0x10,
            ElementTypeCode::UInt32 => 0x11,
            ElementTypeCode::Int64 => 0x12,
            ElementTypeCode::UInt64 => 0x13,
            ElementTypeCode::MapCHD => 0x20,
        }
    }
}

/// What reading a tag byte gives: the element type, or `InvalidElementType`
/// with the byte.
pub open spec fn parse_tag(tag: u8) -> Result<ElementTypeCode, CursorError> {
    match tag_to_type(tag) {
        Some(t) => Ok(t),
        None => Err(CursorError::InvalidElementType(tag)),
    }
}

impl vstd::std_specs::convert::TryFromSpecImpl<u8> for ElementTypeCode {
    open spec fn obeys_try_from_spec() -> bool {
        true
    }

    open spec fn try_from_spec(value: u8) -> Result<Self, CursorError> {
        parse_tag(value)
    }
}

impl TryFrom<u8> for ElementTypeCode {
    type Error = CursorError;

    /// Reads a tag byte; an unknown byte is `InvalidElementType`.
    fn try_from(value: u8) -> (res: Result<Self, CursorError>) {
        if value == 0x01 {
            Ok(ElementTypeCode::Double)
        } else if value == 0x02 {
            Ok(ElementTypeCode::String)
        } else if value == 0x03 {
            Ok(ElementTypeCode::OrderedMap)
        } else if value == 0x04 {
            Ok(ElementTypeCode::Array)
        } else if value == 0x05 {
            Ok(ElementTypeCode::Binary)
        } else if value == 0x08 {
            Ok(ElementTypeCode::False)
        } else if value == 0x09 {
            Ok(ElementTypeCode::True)
        } else if value == 0x0A {
            Ok(ElementTypeCode::Null)
        } else if value == 0x10 {
            Ok(ElementTypeCode::Int32)
        } else if value == 0x11 {
            Ok(ElementTypeCode::UInt32)
        } else if value == 0x12 {
            Ok(ElementTypeCode::Int64)
        } else if value == 0x13 {
            Ok(ElementTypeCode::UInt64)
        } else if value == 0x20 {
            Ok(ElementTypeCode::MapCHD)
        } else {
            Err(CursorError::InvalidElementType(value))
        }
    }
}

} // verus!
