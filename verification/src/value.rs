//! The value tree that the serializer writes.

use vstd::prelude::*;

verus! {

/// A document before it is encoded.
#[derive(Debug, PartialEq, Eq)]
pub enum Value {
    /// The absent value.
    Null,
    Bool(bool),
    Int32(i32),
    Int64(i64),
    UInt32(u32),
    UInt64(u64),
    /// A double, held as the 64 bits of its IEEE-754 binary64 form.
    Double(u64),
    String(String),
    Binary(Vec<u8>),
    Array(Vec<Value>),
    /// A map from keys to values, as a list of entries. No key may occur
    /// twice; the order of the entries does not matter.
    Object(Vec<(String, Value)>),
}

/// Why a value could not be encoded.
#[derive(Copy, Clone, PartialEq, Eq, Debug, Structural)]
pub enum SerializeError {
    /// No seed within the attempt budget gave a perfect hash of the keys.
    CHDConstructionFailed,
    /// A map key is longer than the 255 bytes that its length field can hold.
    KeyTooLong,
    /// A map holds two entries under one key.
    DuplicateKey,
    /// An offset does not fit the field that stores it.
    DocumentTooLarge,
}

} // verus!
