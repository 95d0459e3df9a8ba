use gitstore::codec::{obj_type, split_header, Object, ObjectError};
use gitstore::store::{decompress_object, object_id, object_path, store_record, to_hex};

#[test]
fn object_id_known_value() {
    // SHA-1 of "hello", hex encoded.
    let id = object_id(b"hello");
    assert_eq!(id, "aaf4c61ddcc5e8a2dabede0f3b482cd9aea9434d");
    assert_eq!(id.len(), 40);
}

#[test]
fn object_id_deterministic() {
    let data = b"blob 5\0hello".to_vec();
    let a = object_id(&data);
    let b = object_id(&data);
    assert_eq!(a, b);
    let (id1, zip1) = store_record(&data);
    let (id2, zip2) = store_record(&data);
    assert_eq!(id1, id2);
    assert_eq!(zip1, zip2);
    assert_eq!(a, id1);
}

#[test]
fn store_record_round_trips_through_decompression() {
    let data: Vec<u8> = vec![98, 108, 111, 98, 0, 255, 1, 0, 200];
    let (_, compressed) = store_record(&data);
    assert_ne!(compressed, data);
    let back = decompress_object(&compressed).unwrap();
    assert_eq!(back, data);
}

#[test]
fn store_round_trip_of_serialized_blob() {
    let content: Vec<u8> = vec![0, 159, 146, 150, 0];
    let blob = Object::blob(content.clone()).unwrap();
    let data = blob.serialize();
    let (_, compressed) = store_record(&data);
    let stored = decompress_object(&compressed).unwrap();
    assert_eq!(stored, data);
    match Object::deserialize(&stored).unwrap() {
        Object::Blob(c) => assert_eq!(c, content),
        _ => panic!("expected a blob"),
    }
}

#[test]
fn decompress_rejects_garbage() {
    let r = decompress_object(b"this is not a zlib stream");
    assert!(matches!(r, Err(ObjectError::StoreIoError)));
}

#[test]
fn to_hex_known_value() {
    assert_eq!(to_hex(&[0x01, 0x0f, 0xa0]), "010fa0");
    assert_eq!(to_hex(&[]), "");
}

#[test]
fn object_path_splits_and_lowercases() {
    let id = b"AAF4C61DDCC5E8A2DABEDE0F3B482CD9AEA9434D";
    let (dir, file) = object_path(id).unwrap();
    assert_eq!(dir, b"aa".to_vec());
    assert_eq!(file, b"f4c61ddcc5e8a2dabede0f3b482cd9aea9434d".to_vec());
}

#[test]
fn object_path_rejects_wrong_length() {
    let r = object_path(b"abc");
    assert!(matches!(r, Err(ObjectError::ObjectNotFound)));
    let r = object_path(b"");
    assert!(matches!(r, Err(ObjectError::ObjectNotFound)));
}

#[test]
fn split_header_at_first_nul() {
    let (header, payload) = split_header(b"blob 5\0hello").unwrap();
    assert_eq!(header, b"blob 5".to_vec());
    assert_eq!(payload, b"hello".to_vec());
    // Payload NULs stay with the payload.
    let (header, payload) = split_header(b"tree 2\0a\0").unwrap();
    assert_eq!(header, b"tree 2".to_vec());
    assert_eq!(payload, b"a\0".to_vec());
}

#[test]
fn split_header_requires_nul() {
    let r = split_header(b"blob 5hello");
    assert!(matches!(r, Err(ObjectError::MalformedObject)));
}

#[test]
fn obj_type_reads_tag_only() {
    assert_eq!(obj_type(b"blob 5\0hello").unwrap(), b"blob".to_vec());
    assert_eq!(obj_type(b"tree 0\0").unwrap(), b"tree".to_vec());
    let r = obj_type(b"blob\0hi");
    assert!(matches!(r, Err(ObjectError::MalformedObject)));
}
