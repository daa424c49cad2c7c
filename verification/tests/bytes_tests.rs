use sbson::bytes::{
    get_byte_array_at, get_u32_at_offset, get_u32_pair_at_offset, get_u64_at_offset, push_bytes,
    push_u32, push_u64,
};
use sbson::order::{compare_keys, keys_equal, KeyOrder};
use sbson::raw_cursor::{calculate_bucket_count, RawCursor};
use sbson::{CursorError, ElementTypeCode};

#[test]
fn reading_little_endian_numbers() {
    let buf = [0x01u8, 0x02, 0x03, 0x04, 0x05, 0x06, 0x07, 0x08, 0x09];
    assert_eq!(get_byte_array_at::<3>(&buf, 1), Ok([2, 3, 4]));
    assert_eq!(get_byte_array_at::<9>(&buf, 0), Ok(buf));
    assert_eq!(get_byte_array_at::<0>(&buf, 9), Ok([]));
    assert_eq!(get_byte_array_at::<1>(&buf, 9), Err(CursorError::DocumentTooShort));
    assert_eq!(
        get_byte_array_at::<2>(&buf, usize::MAX),
        Err(CursorError::DocumentTooShort)
    );
    assert_eq!(get_u32_at_offset(&buf, 0), Ok(0x04030201));
    assert_eq!(get_u32_at_offset(&buf, 5), Ok(0x09080706));
    assert_eq!(get_u32_at_offset(&buf, 6), Err(CursorError::DocumentTooShort));
    assert_eq!(get_u32_pair_at_offset(&buf, 1), Ok((0x05040302, 0x09080706)));
    assert_eq!(get_u32_pair_at_offset(&buf, 2), Err(CursorError::DocumentTooShort));
    assert_eq!(get_u64_at_offset(&buf, 0), Ok(0x0807060504030201));
}

#[test]
fn writing_little_endian_numbers() {
    let mut out = vec![0xFFu8];
    push_u32(&mut out, 0xAABBCCDD);
    push_u64(&mut out, 0x0102030405060708);
    push_bytes(&mut out, b"xy");
    assert_eq!(
        out,
        b"\xff\xdd\xcc\xbb\xaa\x08\x07\x06\x05\x04\x03\x02\x01xy"
    );
    assert_eq!(get_u32_at_offset(&out, 1), Ok(0xAABBCCDD));
    assert_eq!(get_u64_at_offset(&out, 5), Ok(0x0102030405060708));
}

#[test]
fn keys_compare_bytewise() {
    assert_eq!(compare_keys(b"", b""), KeyOrder::Equal);
    assert_eq!(compare_keys(b"", b"a"), KeyOrder::Less);
    assert_eq!(compare_keys(b"a", b""), KeyOrder::Greater);
    assert_eq!(compare_keys(b"abc", b"abd"), KeyOrder::Less);
    assert_eq!(compare_keys(b"abd", b"abc"), KeyOrder::Greater);
    assert_eq!(compare_keys(b"ab", b"abc"), KeyOrder::Less);
    assert_eq!(compare_keys(b"b", b"abc"), KeyOrder::Greater);
    // Bytes compare as unsigned numbers: "é" comes after "z".
    assert_eq!(compare_keys("z".as_bytes(), "\u{e9}".as_bytes()), KeyOrder::Less);
    assert_eq!(compare_keys(b"\x7f", b"\x80"), KeyOrder::Less);
    assert!(keys_equal(b"abc", b"abc"));
    assert!(!keys_equal(b"abc", b"abd"));
    assert!(!keys_equal(b"abc", b"ab"));
}

#[test]
fn element_type_tags() {
    let all = [
        (0x01u8, ElementTypeCode::Double),
        (0x02, ElementTypeCode::String),
        (0x03, ElementTypeCode::OrderedMap),
        (0x04, ElementTypeCode::Array),
        (0x05, ElementTypeCode::Binary),
        (0x08, ElementTypeCode::False),
        (0x09, ElementTypeCode::True),
        (0x0A, ElementTypeCode::Null),
        (0x10, ElementTypeCode::Int32),
        (0x11, ElementTypeCode::UInt32),
        (0x12, ElementTypeCode::Int64),
        (0x13, ElementTypeCode::UInt64),
        (0x20, ElementTypeCode::MapCHD),
    ];
    for tag in 0..=255u8 {
        match all.iter().find(|(t, _)| *t == tag) {
            Some((_, element_type)) => {
                assert_eq!(ElementTypeCode::try_from(tag), Ok(*element_type));
                assert_eq!(element_type.to_u8(), tag);
            }
            None => assert_eq!(
                ElementTypeCode::try_from(tag),
                Err(CursorError::InvalidElementType(tag))
            ),
        }
    }
}

#[test]
fn raw_cursor_reads_headers_and_children() {
    let buf = b"\x04\x02\x00\x00\x00\x0d\x00\x00\x00\x0e\x00\x00\x00\x09\x08";
    let header = RawCursor::new(buf).unwrap();
    assert_eq!(header.element_type, ElementTypeCode::Array);
    assert_eq!(header.child_count, 2);
    assert_eq!(header.ensure_element_type(ElementTypeCode::Array), Ok(()));
    assert_eq!(
        header.ensure_element_type(ElementTypeCode::OrderedMap),
        Err(CursorError::WrongElementType {
            actual: ElementTypeCode::Array
        })
    );
    let (range, child) = header.get_value_by_index(buf, 0).unwrap();
    assert_eq!(range, 13..14);
    assert_eq!(child.element_type, ElementTypeCode::True);
    let (range, child) = header.get_value_by_index(buf, 1).unwrap();
    assert_eq!(range, 14..15);
    assert_eq!(child.element_type, ElementTypeCode::False);
    assert_eq!(child.child_count, 0);
    assert_eq!(
        header.get_value_by_index(buf, 2).err(),
        Some(CursorError::ItemIndexOutOfBounds)
    );
    assert_eq!(
        header.get_value_and_index_by_key(buf, "k").err(),
        Some(CursorError::WrongElementType {
            actual: ElementTypeCode::Array
        })
    );
    assert_eq!(header.iter_array(100..115, buf).unwrap(), vec![113..114, 114..115]);
    assert_eq!(
        header.iter_map(0..15, buf).err(),
        Some(CursorError::WrongElementType {
            actual: ElementTypeCode::Array
        })
    );

    let map = b"\x03\x01\x00\x00\x00\x0d\x00\x00\x03\x11\x00\x00\x00key\x00\x09";
    let header = RawCursor::new(map).unwrap();
    assert_eq!(header.get_key_by_index(map, 0), Ok("key"));
    assert_eq!(header.get_key_buffer_by_index(map, 0), Ok(&b"key"[..]));
    let (index, range, child) = header.get_value_and_index_by_key(map, "key").unwrap();
    assert_eq!((index, range), (0, 17..18));
    assert_eq!(child.read_bool(), Ok(true));
    let mut iter = header.iter_map(10..28, map).unwrap();
    assert_eq!(iter.next(), Some(Ok(("key", 27..28))));
    assert_eq!(iter.next(), None);
    assert_eq!(iter.next(), None);
    assert_eq!(
        header.iter_array(0..18, map).err(),
        Some(CursorError::WrongElementType {
            actual: ElementTypeCode::OrderedMap
        })
    );
}

#[test]
fn bucket_counts() {
    assert_eq!(calculate_bucket_count(0), 0);
    assert_eq!(calculate_bucket_count(1), 1);
    assert_eq!(calculate_bucket_count(5), 1);
    assert_eq!(calculate_bucket_count(6), 2);
    assert_eq!(calculate_bucket_count(1000), 200);
    assert_eq!(calculate_bucket_count(u32::MAX), 858993459);
    assert_eq!(calculate_bucket_count(u32::MAX - 3), 858993459);
    assert_eq!(calculate_bucket_count(u32::MAX - 5), 858993458);
}
