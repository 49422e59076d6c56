use pack_encode::errors::{GitError, PackEncodeReason};
use pack_encode::format::{encode_header, encode_object_header, encode_offset};
use pack_encode::hash::ObjectHash;
use pack_encode::object::{Entry, IndexEntry, ObjectType};
use pack_encode::packed::{encode_one_object, encode_parts};
use std::io::Read;

fn entry(obj_type: ObjectType, data: &[u8]) -> Entry {
    Entry { obj_type, data: data.to_vec(), hash: ObjectHash::Sha1([7; 20]), chain_len: 0 }
}

/// Reads an offset the way that a reader of packs does.
fn read_offset_encoding(bytes: &[u8]) -> (u64, usize) {
    let mut value = (bytes[0] & 0x7f) as u64;
    let mut used = 1;
    while bytes[used - 1] & 0x80 != 0 {
        value = ((value + 1) << 7) | (bytes[used] & 0x7f) as u64;
        used += 1;
    }
    (value, used)
}

fn inflate(bytes: &[u8]) -> Vec<u8> {
    let mut data = Vec::new();
    flate2::read::ZlibDecoder::new(bytes).read_to_end(&mut data).unwrap();
    data
}

#[test]
fn test_encode_offset() {
    let value = 16389;

    let data = encode_offset(value);
    println!("{data:?}");
    let (result, used) = read_offset_encoding(&data);
    println!("result: {result}");
    assert_eq!(result, value as u64);
    assert_eq!(used, data.len());
}

#[test]
fn offsets_have_their_exact_bytes() {
    assert_eq!(encode_offset(1), vec![1]);
    assert_eq!(encode_offset(127), vec![127]);
    assert_eq!(encode_offset(128), vec![0x80, 0]);
    assert_eq!(encode_offset(16511), vec![0xff, 0x7f]);
    assert_eq!(encode_offset(16512), vec![0x80, 0x80, 0]);
    assert_eq!(read_offset_encoding(&encode_offset(usize::MAX)).0, usize::MAX as u64);
}

#[test]
fn every_offset_is_read_back() {
    for value in 1..70000usize {
        let bytes = encode_offset(value);
        assert_eq!(read_offset_encoding(&bytes), (value as u64, bytes.len()));
    }
}

#[test]
fn header_has_its_exact_bytes() {
    assert_eq!(encode_header(1), b"PACK\0\0\0\x02\0\0\0\x01".to_vec());
    assert_eq!(encode_header(0x01020304), b"PACK\0\0\0\x02\x01\x02\x03\x04".to_vec());
    assert_eq!(encode_header(u32::MAX as usize)[8..], [0xff; 4]);
}

#[test]
fn object_headers_have_their_exact_bytes() {
    assert_eq!(encode_object_header(3, 0), vec![0x30]);
    assert_eq!(encode_object_header(3, 15), vec![0x3f]);
    assert_eq!(encode_object_header(3, 16), vec![0xb0, 1]);
    assert_eq!(encode_object_header(1, 2047), vec![0x9f, 0x7f]);
    assert_eq!(encode_object_header(6, 2048), vec![0xe0, 0x80, 1]);
}

#[test]
fn whole_object_is_header_and_zlib_data() {
    let data = vec![b'x'; 1000];
    let bytes = encode_one_object(&entry(ObjectType::Blob, &data), None).unwrap();
    // 1000 = 8 + 16 * 62
    assert_eq!(bytes[..2], [0xb8, 62]);
    assert_eq!(inflate(&bytes[2..]), data);
    assert!(bytes.len() < 100);
}

#[test]
fn offset_is_ignored_for_whole_objects() {
    let it = entry(ObjectType::Tag, b"v1");
    assert_eq!(encode_one_object(&it, Some(5)).unwrap(), encode_one_object(&it, None).unwrap());
}

#[test]
fn delta_object_has_the_distance_behind_its_header() {
    let bytes = encode_one_object(&entry(ObjectType::OffsetZstdelta, b"delta"), Some(300)).unwrap();
    assert_eq!(bytes[0], 0x55);
    assert_eq!(read_offset_encoding(&bytes[1..]), (300, 2));
    assert_eq!(inflate(&bytes[3..]), b"delta");
    let other = encode_parts(ObjectType::OffsetDelta, b"delta", Some(300)).unwrap();
    assert_eq!(other[0], 0x65);
    assert_eq!(other[1..], bytes[1..]);
}

#[test]
fn ai_object_has_no_pack_type() {
    let r = encode_one_object(&entry(ObjectType::Task, b"plan"), None);
    assert!(matches!(
        r,
        Err(GitError::PackEncodeError(PackEncodeReason::NoPackType(ObjectType::Task)))
    ));
    assert!(ObjectType::Task.is_ai_object());
    assert!(!ObjectType::Commit.is_ai_object());
}

#[test]
fn pack_type_numbers_are_read_back() {
    for number in 1..8u8 {
        let kind = ObjectType::from_pack_type_u8(number).unwrap();
        assert_eq!(kind.to_pack_type_u8().unwrap(), number);
    }
    assert_eq!(ObjectType::from_pack_type_u8(0), None);
    assert_eq!(ObjectType::from_pack_type_u8(8), None);
    assert_eq!(ObjectType::Commit.to_pack_type_u8().unwrap(), 1);
    assert_eq!(ObjectType::OffsetZstdelta.to_pack_type_u8().unwrap(), 5);
}

#[test]
fn index_entry_takes_the_name_of_the_object() {
    let it = IndexEntry::new(&entry(ObjectType::Blob, b""), 12);
    assert_eq!(it.hash, ObjectHash::Sha1([7; 20]));
    assert_eq!(it.offset, 12);
}
