use sbson::serializer::{SerializationOptions, Serialize};
use sbson::storage::Storage;
use sbson::value::Value;
use sbson::{ArcCursor, BorrowedCursor, Cursor, CursorError, ElementTypeCode, PathSegment};
use std::sync::Arc;

const LONG_KEY: &str = "help me i'm trapped in a format factory help me before they";

/// The document
/// `{"3": b"beep boop", "BLARG": [1, 2, true, false, null], "FLORP": {"X": 255}, LONG_KEY: "..."}`
/// as an ordered map.
const DOC: &[u8] = &[
    0x03, 0x04, 0x00, 0x00, 0x00, 0x25, 0x00, 0x00, 0x05, 0x6f, 0x00, 0x00, 0x00, 0x2b, 0x00, 0x00,
    0x05, 0x87, 0x00, 0x00, 0x00, 0x31, 0x00, 0x00, 0x3b, 0xb5, 0x00, 0x00, 0x00, 0x6d, 0x00, 0x00,
    0x01, 0xba, 0x00, 0x00, 0x00, 0x46, 0x4c, 0x4f, 0x52, 0x50, 0x00, 0x42, 0x4c, 0x41, 0x52, 0x47,
    0x00, 0x68, 0x65, 0x6c, 0x70, 0x20, 0x6d, 0x65, 0x20, 0x69, 0x27, 0x6d, 0x20, 0x74, 0x72, 0x61,
    0x70, 0x70, 0x65, 0x64, 0x20, 0x69, 0x6e, 0x20, 0x61, 0x20, 0x66, 0x6f, 0x72, 0x6d, 0x61, 0x74,
    0x20, 0x66, 0x61, 0x63, 0x74, 0x6f, 0x72, 0x79, 0x20, 0x68, 0x65, 0x6c, 0x70, 0x20, 0x6d, 0x65,
    0x20, 0x62, 0x65, 0x66, 0x6f, 0x72, 0x65, 0x20, 0x74, 0x68, 0x65, 0x79, 0x00, 0x33, 0x00, 0x03,
    0x01, 0x00, 0x00, 0x00, 0x0d, 0x00, 0x00, 0x01, 0x0f, 0x00, 0x00, 0x00, 0x58, 0x00, 0x12, 0xff,
    0x00, 0x00, 0x00, 0x00, 0x00, 0x00, 0x00, 0x04, 0x05, 0x00, 0x00, 0x00, 0x19, 0x00, 0x00, 0x00,
    0x22, 0x00, 0x00, 0x00, 0x2b, 0x00, 0x00, 0x00, 0x2c, 0x00, 0x00, 0x00, 0x2d, 0x00, 0x00, 0x00,
    0x12, 0x01, 0x00, 0x00, 0x00, 0x00, 0x00, 0x00, 0x00, 0x12, 0x02, 0x00, 0x00, 0x00, 0x00, 0x00,
    0x00, 0x00, 0x09, 0x08, 0x0a, 0x02, 0x2e, 0x2e, 0x2e, 0x00, 0x05, 0x62, 0x65, 0x65, 0x70, 0x20,
    0x62, 0x6f, 0x6f, 0x70,
];

fn sanity_value() -> Value {
    Value::Object(vec![
        ("3".to_string(), Value::Binary(b"beep boop".to_vec())),
        (
            "BLARG".to_string(),
            Value::Array(vec![
                Value::Int64(1),
                Value::Int64(2),
                Value::Bool(true),
                Value::Bool(false),
                Value::Null,
            ]),
        ),
        (
            "FLORP".to_string(),
            Value::Object(vec![("X".to_string(), Value::Int64(255))]),
        ),
        (LONG_KEY.to_string(), Value::String("...".to_string())),
    ])
}

fn encode(value: &Value, chd_threshold: usize) -> Vec<u8> {
    let mut buf = Vec::new();
    let written = value
        .serialize(&SerializationOptions { chd_threshold }, &mut buf)
        .unwrap();
    assert_eq!(written, buf.len());
    buf
}

fn test_impl_sanity<T: Storage>(cursor: Cursor<T>) {
    assert_eq!(cursor.get_children_count(), 4);

    let three_by_name = cursor.get_value_by_key("3").unwrap();
    assert_eq!(three_by_name.get_binary(), Ok(&b"beep boop"[..]));

    // Query ".BLARG[0]"
    let blarg_0 = cursor
        .get_value_by_key("BLARG")
        .unwrap()
        .get_value_by_index(0)
        .unwrap();
    assert_eq!(blarg_0.get_i64(), Ok(1));

    // Query ".BLARG[1]", but drop the intermediary cursor
    // to make sure we can in theory always keep one cursor.
    let blarg_1 = {
        let b = cursor.get_value_by_key("BLARG").unwrap();
        b.get_value_by_index(1).unwrap()
    };
    assert_eq!(blarg_1.get_i64(), Ok(2));

    // Query ".FLORP.X"
    let florp_x = cursor
        .get_value_by_key("FLORP")
        .unwrap()
        .get_value_by_key("X")
        .unwrap();
    assert_eq!(florp_x.get_i64(), Ok(0xFF));

    let blarg = cursor.get_value_by_key("BLARG").unwrap();
    assert_eq!(blarg.get_value_by_index(2).unwrap().get_bool(), Ok(true));
    assert_eq!(blarg.get_value_by_index(3).unwrap().get_bool(), Ok(false));
    assert_eq!(blarg.get_value_by_index(4).unwrap().get_none(), Ok(()));

    // Query the last parameter
    assert_eq!(cursor.get_value_by_key(LONG_KEY).unwrap().get_str(), Ok("..."));
}

#[test]
fn test_sanity_borrowed() {
    let cursor = Cursor::new(DOC).unwrap();
    assert_eq!(cursor.get_element_type(), ElementTypeCode::OrderedMap);
    test_impl_sanity(cursor);
}

#[test]
fn test_sanity_borrowed_chd() {
    let doc_phf = encode(&sanity_value(), 1);
    let cursor = Cursor::new(&doc_phf[..]).unwrap();
    assert_eq!(cursor.get_element_type(), ElementTypeCode::MapCHD);
    test_impl_sanity(cursor);
}

#[test]
fn test_sanity_arc() {
    let cursor: Cursor<Arc<[u8]>> = Cursor::new(DOC.into()).unwrap();
    assert_eq!(cursor.get_element_type(), ElementTypeCode::OrderedMap);
    test_impl_sanity(cursor);
}

#[test]
fn sanity_document_is_what_the_serializer_writes() {
    assert_eq!(encode(&sanity_value(), 8000), DOC);
}

#[test]
fn sanity_top_cursor_is_a_map_of_four() {
    let cursor = Cursor::new(DOC).unwrap();
    assert_eq!(cursor.get_element_type(), ElementTypeCode::OrderedMap);
    assert_eq!(cursor.get_children_count(), 4);
}

#[test]
fn sanity_binary_by_key() {
    let cursor = Cursor::new(DOC).unwrap();
    assert_eq!(
        cursor.get_value_by_key("3").unwrap().get_binary(),
        Ok(&b"beep boop"[..])
    );
}

#[test]
fn sanity_first_array_item() {
    let cursor = Cursor::new(DOC).unwrap();
    let blarg = cursor.get_value_by_key("BLARG").unwrap();
    assert_eq!(blarg.get_element_type(), ElementTypeCode::Array);
    assert_eq!(blarg.get_value_by_index(0).unwrap().get_i64(), Ok(1));
}

#[test]
fn sanity_last_array_item_is_null() {
    let cursor = Cursor::new(DOC).unwrap();
    let blarg = cursor.get_value_by_key("BLARG").unwrap();
    assert_eq!(
        blarg.get_value_by_index(4).unwrap().get_element_type(),
        ElementTypeCode::Null
    );
    assert_eq!(
        blarg.get_value_by_index(5).err(),
        Some(CursorError::ItemIndexOutOfBounds)
    );
}

#[test]
fn sanity_nested_map_value() {
    let cursor = Cursor::new(DOC).unwrap();
    let x = cursor
        .get_value_by_key("FLORP")
        .unwrap()
        .get_value_by_key("X")
        .unwrap();
    assert_eq!(x.get_i64(), Ok(255));
}

#[test]
fn sanity_string_by_long_key() {
    let cursor = Cursor::new(DOC).unwrap();
    assert_eq!(cursor.get_value_by_key(LONG_KEY).unwrap().get_str(), Ok("..."));
}

#[test]
fn ordered_map_entries_stand_in_eytzinger_order() {
    let cursor = Cursor::new(DOC).unwrap();
    // Sorted: "3", "BLARG", "FLORP", LONG_KEY; as a tree: FLORP, BLARG, LONG_KEY, "3".
    assert_eq!(cursor.get_key_by_index(0), Ok("FLORP"));
    assert_eq!(cursor.get_key_by_index(1), Ok("BLARG"));
    assert_eq!(cursor.get_key_by_index(2), Ok(LONG_KEY));
    assert_eq!(cursor.get_key_by_index(3), Ok("3"));
    assert_eq!(
        cursor.get_key_by_index(4),
        Err(CursorError::ItemIndexOutOfBounds)
    );
}

#[test]
fn every_key_leads_to_the_entry_at_its_index() {
    for threshold in [1usize, 8000] {
        let doc = encode(&sanity_value(), threshold);
        let cursor = Cursor::new(&doc[..]).unwrap();
        for i in 0..cursor.get_children_count() {
            let key = cursor.get_key_by_index(i).unwrap();
            let (index, by_key) = cursor.get_value_and_index_by_key(key).unwrap();
            let by_index = cursor.get_value_by_index(i).unwrap();
            assert_eq!(index, i);
            assert_eq!(by_key.scoped_buffer(), by_index.scoped_buffer());
            assert_eq!(by_key.range_start(), by_index.range_start());
        }
    }
}

#[test]
fn lookup_of_a_missing_key_is_key_not_found() {
    for threshold in [1usize, 8000] {
        let doc = encode(&sanity_value(), threshold);
        let cursor = Cursor::new(&doc[..]).unwrap();
        for key in ["", "2", "4", "BLAR", "BLARGH", "FLORQ", "zzz", "help me"] {
            assert_eq!(
                cursor.get_value_by_key(key).err(),
                Some(CursorError::KeyNotFound)
            );
        }
    }
}

#[test]
fn ordered_lookup_agrees_with_a_linear_search() {
    let doc = encode(&sanity_value(), 8000);
    let cursor = Cursor::new(&doc[..]).unwrap();
    for probe in ["3", "BLARG", "FLORP", LONG_KEY, "nope", "A", "~"] {
        let mut linear = None;
        for i in 0..cursor.get_children_count() {
            if cursor.get_key_by_index(i) == Ok(probe) {
                linear = Some(i);
            }
        }
        let found = cursor.get_value_and_index_by_key(probe).ok().map(|(i, _)| i);
        assert_eq!(found, linear);
    }
}

#[test]
fn wrong_element_type_is_reported_with_the_actual_type() {
    let cursor = Cursor::new(DOC).unwrap();
    let wrong = CursorError::WrongElementType {
        actual: ElementTypeCode::OrderedMap,
    };
    assert_eq!(cursor.get_bool(), Err(wrong));
    assert_eq!(cursor.get_none(), Err(wrong));
    assert_eq!(cursor.get_i32(), Err(wrong));
    assert_eq!(cursor.get_i64(), Err(wrong));
    assert_eq!(cursor.get_u32(), Err(wrong));
    assert_eq!(cursor.get_u64(), Err(wrong));
    assert_eq!(cursor.get_double_bits(), Err(wrong));
    assert_eq!(cursor.get_str(), Err(wrong));
    assert_eq!(cursor.get_binary(), Err(wrong));
    assert_eq!(cursor.iter_array().err(), Some(wrong));

    let leaf = Cursor::new(&b"\x09"[..]).unwrap();
    let wrong = CursorError::WrongElementType {
        actual: ElementTypeCode::True,
    };
    assert_eq!(leaf.get_children_count(), 0);
    assert_eq!(leaf.get_value_by_index(0).err(), Some(wrong));
    assert_eq!(leaf.get_value_by_key("a").err(), Some(wrong));
    assert_eq!(leaf.iter_map().err(), Some(wrong));
    assert_eq!(
        leaf.get_key_by_index(0),
        Err(CursorError::ItemIndexOutOfBounds)
    );
}

#[test]
fn construction_errors() {
    assert_eq!(
        Cursor::new(&b""[..]).err(),
        Some(CursorError::DocumentTooShort)
    );
    assert_eq!(
        Cursor::new(&b"\x03\x01\x00\x00"[..]).err(),
        Some(CursorError::DocumentTooShort)
    );
    assert_eq!(
        Cursor::new(&b"\x07"[..]).err(),
        Some(CursorError::InvalidElementType(7))
    );
    assert_eq!(
        Cursor::new(&b"\x00"[..]).err(),
        Some(CursorError::InvalidElementType(0))
    );
    assert_eq!(
        Cursor::new_with_range(DOC, 0..DOC.len() + 1).err(),
        Some(CursorError::DocumentTooShort)
    );
    assert_eq!(
        Cursor::new_with_range(DOC, 5..4).err(),
        Some(CursorError::DocumentTooShort)
    );
    for tag in [0x01u8, 0x02, 0x05, 0x08, 0x09, 0x0A, 0x10, 0x11, 0x12, 0x13] {
        let buf = [tag];
        assert_eq!(Cursor::new(&buf[..]).unwrap().get_children_count(), 0);
    }
}

#[test]
fn scalar_leaves() {
    assert_eq!(
        Cursor::new(&b"\x10\xfe\xff\xff\xff"[..]).unwrap().get_i32(),
        Ok(-2)
    );
    assert_eq!(
        Cursor::new(&b"\x10\x00\x00\x00\x80"[..]).unwrap().get_i32(),
        Ok(i32::MIN)
    );
    assert_eq!(
        Cursor::new(&b"\x11\xdd\xcc\xbb\xaa"[..]).unwrap().get_u32(),
        Ok(0xAABBCCDD)
    );
    assert_eq!(
        Cursor::new(&b"\x12\xfe\xff\xff\xff\xff\xff\xff\xff"[..])
            .unwrap()
            .get_i64(),
        Ok(-2)
    );
    assert_eq!(
        Cursor::new(&b"\x12\x00\x00\x00\x00\x00\x00\x00\x80"[..])
            .unwrap()
            .get_i64(),
        Ok(i64::MIN)
    );
    assert_eq!(
        Cursor::new(&b"\x13\xdd\x00\xcc\x00\xbb\x00\xaa\x00"[..])
            .unwrap()
            .get_u64(),
        Ok(0x00AA00BB00CC00DD)
    );
    let double = Cursor::new(&b"\x01\x00\x00\x00\x00\x00\x00\xf0\x3f"[..]).unwrap();
    assert_eq!(double.get_double_bits().map(f64::from_bits), Ok(1.0));
    assert_eq!(
        Cursor::new(&b"\x10\x01\x02"[..]).unwrap().get_i32(),
        Err(CursorError::DocumentTooShort)
    );
    assert_eq!(
        Cursor::new(&b"\x13\x01\x02\x03\x04\x05\x06\x07"[..])
            .unwrap()
            .get_u64(),
        Err(CursorError::DocumentTooShort)
    );
}

#[test]
fn string_leaves() {
    assert_eq!(Cursor::new(&b"\x02abc\x00"[..]).unwrap().get_str(), Ok("abc"));
    assert_eq!(Cursor::new(&b"\x02\x00"[..]).unwrap().get_str(), Ok(""));
    assert_eq!(
        Cursor::new(&b"\x02abc"[..]).unwrap().get_str(),
        Err(CursorError::UnterminatedString)
    );
    assert_eq!(
        Cursor::new(&b"\x02"[..]).unwrap().get_str(),
        Err(CursorError::UnterminatedString)
    );
    assert_eq!(
        Cursor::new(&b"\x02\xff\xfe\x00"[..]).unwrap().get_str(),
        Err(CursorError::Utf8Error)
    );
    // The text ends at the first NUL.
    assert_eq!(Cursor::new(&b"\x02ab\x00cd\x00"[..]).unwrap().get_str(), Ok("ab"));
    let cursor = Cursor::new(&b"\x02abc\x00"[..]).unwrap();
    assert_eq!(cursor.get_storage_str(), Ok("abc"));
    let binary = Cursor::new(&b"\x05\x00\x01\x02"[..]).unwrap();
    assert_eq!(binary.get_storage_binary(), Ok(&b"\x00\x01\x02"[..]));
    assert_eq!(Cursor::new(&b"\x05"[..]).unwrap().get_binary(), Ok(&b""[..]));
}

#[test]
fn scoped_buffers() {
    let cursor = Cursor::new(DOC).unwrap();
    assert_eq!(cursor.scoped_buffer(), DOC);
    assert_eq!(cursor.payload_scoped_buffer(), &DOC[1..]);
    let three = cursor.get_value_by_key("3").unwrap();
    assert_eq!(three.scoped_buffer(), b"\x05beep boop");
    assert_eq!(three.payload_scoped_buffer(), b"beep boop");
    assert_eq!(three.range_start(), DOC.len() - 10);
    assert_eq!(three.borrow().get_binary(), Ok(&b"beep boop"[..]));
}

#[test]
fn children_lie_inside_their_parent() {
    let cursor = Cursor::new(DOC).unwrap();
    for i in 0..cursor.get_children_count() {
        let child = cursor.get_value_by_index(i).unwrap();
        let len = child.scoped_buffer().len();
        assert!(len > 0);
        assert!(child.range_start() + len <= DOC.len());
        assert_eq!(
            child.scoped_buffer(),
            &DOC[child.range_start()..child.range_start() + len]
        );
    }
}

#[test]
fn goto_walks_a_path() {
    let cursor = Cursor::new(DOC).unwrap();
    let same = cursor.goto(&[]).unwrap();
    assert_eq!(same.scoped_buffer(), DOC);
    let x = cursor
        .goto(&[PathSegment::Key("FLORP"), PathSegment::Key("X")])
        .unwrap();
    assert_eq!(x.get_i64(), Ok(255));
    let two = cursor
        .goto(&[PathSegment::Key("BLARG"), PathSegment::Index(1)])
        .unwrap();
    assert_eq!(two.get_i64(), Ok(2));
    let florp = cursor.goto(&[PathSegment::Index(0)]).unwrap();
    assert_eq!(florp.get_element_type(), ElementTypeCode::OrderedMap);
    assert_eq!(
        cursor
            .goto(&[PathSegment::Key("BLARG"), PathSegment::Key("X")])
            .err(),
        Some(CursorError::WrongElementType {
            actual: ElementTypeCode::Array
        })
    );
    assert_eq!(
        cursor
            .goto(&[PathSegment::Key("nope"), PathSegment::Index(77)])
            .err(),
        Some(CursorError::KeyNotFound)
    );
    assert_eq!(
        cursor
            .goto(&[PathSegment::Key("BLARG"), PathSegment::Index(5)])
            .err(),
        Some(CursorError::ItemIndexOutOfBounds)
    );
}

#[test]
fn iterating_a_map_and_an_array() {
    let cursor = Cursor::new(DOC).unwrap();
    let entries = cursor.iter_map().unwrap();
    let keys: Vec<&str> = entries.iter().map(|(k, _)| *k).collect();
    assert_eq!(keys, vec!["FLORP", "BLARG", LONG_KEY, "3"]);
    assert_eq!(entries[3].1.get_binary(), Ok(&b"beep boop"[..]));
    let borrowed = cursor.iter_map_borrowed().unwrap();
    assert_eq!(borrowed.len(), 4);
    assert_eq!(borrowed[2].1.get_str(), Ok("..."));

    let blarg = cursor.get_value_by_key("BLARG").unwrap();
    let items = blarg.iter_array().unwrap();
    assert_eq!(items.len(), 5);
    assert_eq!(items[0].get_i64(), Ok(1));
    assert_eq!(items[1].get_i64(), Ok(2));
    assert_eq!(items[2].get_bool(), Ok(true));
    assert_eq!(items[3].get_bool(), Ok(false));
    assert_eq!(items[4].get_none(), Ok(()));
}

#[test]
fn iteration_leaves_out_malformed_entries() {
    // An array of two whose second offset points past the end.
    let buf = b"\x04\x02\x00\x00\x00\x0d\x00\x00\x00\xff\x00\x00\x00\x09";
    let cursor = Cursor::new(&buf[..]).unwrap();
    assert_eq!(
        cursor.get_value_by_index(0).err(),
        Some(CursorError::DocumentTooShort)
    );
    assert_eq!(
        cursor.get_value_by_index(1).err(),
        Some(CursorError::DocumentTooShort)
    );
    assert_eq!(cursor.iter_array().unwrap().len(), 0);
    // A map of one whose key lies outside the node.
    let buf = b"\x03\x01\x00\x00\x00\xf0\x00\x00\x03\x11\x00\x00\x00key\x00\x09";
    let cursor = Cursor::new(&buf[..]).unwrap();
    assert_eq!(cursor.iter_map().unwrap().len(), 0);
    assert_eq!(
        cursor.get_value_by_key("key").err(),
        Some(CursorError::EmbeddedOffsetOutOfBounds)
    );
    assert_eq!(
        cursor.get_key_by_index(0),
        Err(CursorError::DocumentTooShort)
    );
    // A map of one whose key is not UTF-8.
    let buf = b"\x03\x01\x00\x00\x00\x0d\x00\x00\x03\x11\x00\x00\x00\xff\xfe\xfd\x00\x09";
    let cursor = Cursor::new(&buf[..]).unwrap();
    assert_eq!(cursor.get_key_by_index(0), Err(CursorError::Utf8Error));
    assert_eq!(cursor.iter_map().unwrap().len(), 0);
    assert_eq!(cursor.get_value_by_index(0).unwrap().get_bool(), Ok(true));
}

#[test]
fn malformed_maps_give_errors() {
    // The descriptor table does not fit.
    let buf = b"\x03\x02\x00\x00\x00\x0d\x00\x00\x03\x11\x00\x00\x00key\x00\x09";
    let cursor = Cursor::new(&buf[..]).unwrap();
    assert_eq!(
        cursor.get_value_by_key("key").err(),
        Some(CursorError::DocumentTooShort)
    );
    assert_eq!(cursor.iter_map().err(), Some(CursorError::DocumentTooShort));
    // A perfect-hash map without entries holds no key.
    let buf = b"\x20\x00\x00\x00\x00\x00\x05\x00\x00";
    let cursor = Cursor::new(&buf[..]).unwrap();
    assert_eq!(
        cursor.get_value_by_key("key").err(),
        Some(CursorError::KeyNotFound)
    );
    // A perfect-hash map cut before its seed.
    let buf = b"\x20\x01\x00\x00\x00\x00\x05";
    let cursor = Cursor::new(&buf[..]).unwrap();
    assert_eq!(
        cursor.get_value_by_key("key").err(),
        Some(CursorError::DocumentTooShort)
    );
    // A value whose tag is unknown.
    let buf = b"\x03\x01\x00\x00\x00\x0d\x00\x00\x03\x11\x00\x00\x00key\x00\x77";
    let cursor = Cursor::new(&buf[..]).unwrap();
    assert_eq!(
        cursor.get_value_by_key("key").err(),
        Some(CursorError::InvalidElementType(0x77))
    );
}

fn descend_everywhere<T: Storage>(cursor: &Cursor<T>, depth: usize) {
    let _ = cursor.get_bool();
    let _ = cursor.get_none();
    let _ = cursor.get_i32();
    let _ = cursor.get_i64();
    let _ = cursor.get_u32();
    let _ = cursor.get_u64();
    let _ = cursor.get_double_bits();
    let _ = cursor.get_str();
    let _ = cursor.get_binary();
    let _ = cursor.iter_map();
    let _ = cursor.iter_array();
    for key in ["3", "BLARG", "FLORP", LONG_KEY, "X", "nope"] {
        if let Ok(child) = cursor.get_value_by_key(key) {
            if depth > 0 {
                descend_everywhere(&child, depth - 1);
            }
        }
    }
    for i in 0..cursor.get_children_count().min(8) {
        let _ = cursor.get_key_by_index(i);
        if let Ok(child) = cursor.get_value_by_index(i) {
            if depth > 0 {
                descend_everywhere(&child, depth - 1);
            }
        }
    }
}

#[test]
fn every_prefix_of_a_document_is_read_without_panic() {
    for threshold in [1usize, 8000] {
        let doc = encode(&sanity_value(), threshold);
        for len in 0..=doc.len() {
            match Cursor::new(&doc[..len]) {
                Ok(cursor) => descend_everywhere(&cursor, 3),
                Err(e) => assert_eq!(e, CursorError::DocumentTooShort),
            }
        }
    }
}

#[test]
fn corrupted_documents_are_read_without_panic() {
    for threshold in [1usize, 8000] {
        let clean = encode(&sanity_value(), threshold);
        for pos in 0..clean.len() {
            for value in [0x00u8, 0x01, 0x03, 0x04, 0x20, 0x7f, 0x80, 0xff] {
                let mut doc = clean.clone();
                doc[pos] = value;
                if let Ok(cursor) = Cursor::new(&doc[..]) {
                    descend_everywhere(&cursor, 3);
                    if let Ok(cached) = ArcCursor::new(Arc::from(&doc[..])).unwrap().cache_map() {
                        let _ = cached.get_value_by_key("BLARG");
                        let _ = cached.get_value_by_index(1);
                        let _ = cached.iter_borrowed();
                    }
                }
            }
        }
    }
}

#[test]
fn borrowed_cursor_reads_the_sanity_document() {
    let cursor = BorrowedCursor::new(DOC).unwrap();
    assert_eq!(cursor.get_element_type(), ElementTypeCode::OrderedMap);
    assert_eq!(cursor.get_children_count(), 4);
    let three_by_name = cursor.get_value_by_key("3").unwrap();
    assert_eq!(three_by_name.parse_binary(), Ok(&b"beep boop"[..]));
    let blarg = cursor.get_value_by_key("BLARG").unwrap();
    assert_eq!(blarg.get_value_by_index(0).unwrap().parse_i64(), Ok(1));
    assert_eq!(blarg.get_value_by_index(1).unwrap().parse_i64(), Ok(2));
    assert_eq!(blarg.get_value_by_index(2).unwrap().parse_bool(), Ok(true));
    assert_eq!(blarg.get_value_by_index(3).unwrap().parse_bool(), Ok(false));
    assert_eq!(blarg.get_value_by_index(4).unwrap().parse_none(), Ok(()));
    let (index, florp) = cursor.get_value_and_index_by_key("FLORP").unwrap();
    assert_eq!(index, 0);
    assert_eq!(florp.get_value_by_key("X").unwrap().parse_i64(), Ok(0xFF));
    assert_eq!(cursor.get_value_by_index(2).unwrap().parse_str(), Ok("..."));
    assert_eq!(
        Cursor::new(&b"\x10\x07\x00\x00\x00"[..])
            .map(BorrowedCursor::from_cursor)
            .unwrap()
            .parse_i32(),
        Ok(7)
    );
}

#[test]
fn arc_cursor_reads_the_sanity_document() {
    let cursor = ArcCursor::new(Arc::from(DOC)).unwrap();
    assert_eq!(cursor.get_element_type(), ElementTypeCode::OrderedMap);
    assert_eq!(cursor.get_children_count(), 4);
    assert_eq!(cursor.scoped_buffer(), DOC);
    assert_eq!(cursor.payload_scoped_buffer(), &DOC[1..]);
    let blarg = cursor.get_value_by_key("BLARG").unwrap();
    assert_eq!(blarg.get_value_by_index(0).unwrap().parse_i64(), Ok(1));
    assert_eq!(blarg.get_value_by_index(2).unwrap().parse_bool(), Ok(true));
    assert_eq!(blarg.get_value_by_index(4).unwrap().parse_none(), Ok(()));
    let (index, three) = cursor.get_value_and_index_by_key("3").unwrap();
    assert_eq!(index, 3);
    assert_eq!(three.parse_binary(), Ok(&b"beep boop"[..]));
    assert_eq!(cursor.get_value_by_key(LONG_KEY).unwrap().parse_str(), Ok("..."));
    let seven = ArcCursor::new_with_range(Arc::from(&b"\x09\x10\x07\x00\x00\x00"[..]), 1..6);
    assert_eq!(seven.unwrap().parse_i32(), Ok(7));
    assert_eq!(
        ArcCursor::new_with_range(Arc::from(DOC), 3..2).err(),
        Some(CursorError::DocumentTooShort)
    );
}

#[test]
fn cached_map_cursor_finds_every_key() {
    for threshold in [1usize, 8000] {
        let doc = encode(&sanity_value(), threshold);
        let cursor = ArcCursor::new(Arc::from(&doc[..])).unwrap();
        let cached = cursor.cache_map().unwrap();
        assert_eq!(
            cached.get_value_by_key("3").unwrap().parse_binary(),
            Ok(&b"beep boop"[..])
        );
        assert_eq!(
            cached
                .get_value_by_key("FLORP")
                .unwrap()
                .get_value_by_key("X")
                .unwrap()
                .parse_i64(),
            Ok(255)
        );
        assert_eq!(
            cached.get_value_by_key("missing").err(),
            Some(CursorError::KeyNotFound)
        );
        for i in 0..4 {
            let by_index = cached.get_value_by_index(i).unwrap();
            let direct = cursor.get_value_by_index(i).unwrap();
            assert_eq!(by_index.scoped_buffer(), direct.scoped_buffer());
        }
        let entries = cached.iter_borrowed().unwrap();
        assert_eq!(entries.len(), 4);
        for (key, value) in entries.iter() {
            let direct = cursor.get_value_by_key(key).unwrap();
            assert_eq!(value.get_element_type(), direct.get_element_type());
        }
    }
    let leaf = ArcCursor::new(Arc::from(&b"\x09"[..])).unwrap();
    assert_eq!(
        leaf.cache_map().err(),
        Some(CursorError::WrongElementType {
            actual: ElementTypeCode::True
        })
    );
}
