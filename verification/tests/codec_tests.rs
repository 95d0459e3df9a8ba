use gitstore::codec::{Object, ObjectError, TreeEntry};

fn zero_hash() -> Vec<u8> {
    vec![0u8; 20]
}

#[test]
fn blob_serialize_hello() {
    let blob = Object::blob(b"hello".to_vec()).unwrap();
    let data = blob.serialize();
    assert_eq!(data, b"blob 5\0hello".to_vec());
    assert_eq!(data.len(), 12);
}

#[test]
fn blob_serialize_empty() {
    let blob = Object::blob(Vec::new()).unwrap();
    assert_eq!(blob.serialize(), b"blob 0\0".to_vec());
}

#[test]
fn blob_round_trip() {
    let content: Vec<u8> = vec![104, 101, 0, 255, 128, 0, 10, 108];
    let blob = Object::blob(content.clone()).unwrap();
    let data = blob.serialize();
    let back = Object::deserialize(&data).unwrap();
    match back {
        Object::Blob(c) => assert_eq!(c, content),
        _ => panic!("expected a blob"),
    }
}

#[test]
fn tree_entry_serialize() {
    let entry = TreeEntry::new(b"100644".to_vec(), b"file.txt".to_vec(), &zero_hash()).unwrap();
    let mut expected = b"100644 file.txt\0".to_vec();
    expected.extend_from_slice(&zero_hash());
    let data = entry.serialize();
    assert_eq!(data, expected);
    assert_eq!(data.len(), 36);
}

#[test]
fn tree_serialize_one_entry() {
    let entry = TreeEntry::new(b"100644".to_vec(), b"file.txt".to_vec(), &zero_hash()).unwrap();
    let tree = Object::tree(vec![entry]).unwrap();
    let mut expected = b"tree 36\0100644 file.txt\0".to_vec();
    expected.extend_from_slice(&zero_hash());
    assert_eq!(tree.serialize(), expected);
}

#[test]
fn tree_round_trip_two_entries() {
    let h1: Vec<u8> = (1..=20).collect();
    let h2: Vec<u8> = (21..=40).collect();
    let e1 = TreeEntry::new(b"100644".to_vec(), b"a.txt".to_vec(), &h1).unwrap();
    let e2 = TreeEntry::new(b"40000".to_vec(), b"dir".to_vec(), &h2).unwrap();
    let tree = Object::tree(vec![e1, e2]).unwrap();
    let data = tree.serialize();
    let back = Object::deserialize(&data).unwrap();
    match back {
        Object::Tree(es) => {
            assert_eq!(es.len(), 2);
            assert_eq!(es[0].mode(), &b"100644".to_vec());
            assert_eq!(es[0].name(), &b"a.txt".to_vec());
            assert_eq!(es[0].hash(), &h1);
            assert_eq!(es[1].mode(), &b"40000".to_vec());
            assert_eq!(es[1].name(), &b"dir".to_vec());
            assert_eq!(es[1].hash(), &h2);
        },
        _ => panic!("expected a tree"),
    }
}

#[test]
fn tree_entries_packed_back_to_back() {
    // Two records concatenated with no separator beyond the structural
    // NUL-then-20-bytes pattern.
    let h1: Vec<u8> = vec![7u8; 20];
    let h2: Vec<u8> = vec![9u8; 20];
    let mut payload = b"100644 x\0".to_vec();
    payload.extend_from_slice(&h1);
    payload.extend_from_slice(b"100755 yy\0");
    payload.extend_from_slice(&h2);
    let mut data = format!("tree {}\0", payload.len()).into_bytes();
    data.extend_from_slice(&payload);
    let back = Object::deserialize(&data).unwrap();
    match back {
        Object::Tree(es) => {
            assert_eq!(es.len(), 2);
            assert_eq!(es[0].mode(), &b"100644".to_vec());
            assert_eq!(es[0].name(), &b"x".to_vec());
            assert_eq!(es[0].hash(), &h1);
            assert_eq!(es[1].mode(), &b"100755".to_vec());
            assert_eq!(es[1].name(), &b"yy".to_vec());
            assert_eq!(es[1].hash(), &h2);
        },
        _ => panic!("expected a tree"),
    }
}

#[test]
fn empty_tree_round_trip() {
    let tree = Object::tree(Vec::new()).unwrap();
    let data = tree.serialize();
    assert_eq!(data, b"tree 0\0".to_vec());
    match Object::deserialize(&data).unwrap() {
        Object::Tree(es) => assert_eq!(es.len(), 0),
        _ => panic!("expected a tree"),
    }
}

#[test]
fn length_mismatch_detected() {
    // Declared length altered without changing the payload.
    let r = Object::deserialize(b"blob 6\0hello");
    assert!(matches!(r, Err(ObjectError::LengthMismatch)));
    let r = Object::deserialize(b"blob 4\0hello");
    assert!(matches!(r, Err(ObjectError::LengthMismatch)));
}

#[test]
fn huge_declared_length_is_mismatch() {
    let r = Object::deserialize(b"blob 99999999999999999999999999\0hello");
    assert!(matches!(r, Err(ObjectError::LengthMismatch)));
}

#[test]
fn invalid_hash_length_rejected() {
    let r = TreeEntry::new(b"100644".to_vec(), b"f".to_vec(), &[0u8; 19]);
    assert!(matches!(r, Err(ObjectError::InvalidHashLength)));
    let r = TreeEntry::new(b"100644".to_vec(), b"f".to_vec(), &[0u8; 21]);
    assert!(matches!(r, Err(ObjectError::InvalidHashLength)));
    let r = TreeEntry::new(b"100644".to_vec(), b"f".to_vec(), &[]);
    assert!(matches!(r, Err(ObjectError::InvalidHashLength)));
}

#[test]
fn unknown_object_type_rejected() {
    let r = Object::deserialize(b"commit 3\0abc");
    match r {
        Err(ObjectError::UnknownObjectType(tag)) => assert_eq!(tag, b"commit".to_vec()),
        _ => panic!("expected UnknownObjectType"),
    }
}

#[test]
fn malformed_header_no_space() {
    let r = Object::deserialize(b"blob\0hi");
    assert!(matches!(r, Err(ObjectError::MalformedObject)));
}

#[test]
fn malformed_header_no_nul() {
    let r = Object::deserialize(b"blob 5hello");
    assert!(matches!(r, Err(ObjectError::MalformedObject)));
}

#[test]
fn malformed_header_non_numeric_length() {
    let r = Object::deserialize(b"blob x\0hi");
    assert!(matches!(r, Err(ObjectError::MalformedObject)));
    let r = Object::deserialize(b"blob \0");
    assert!(matches!(r, Err(ObjectError::MalformedObject)));
}

#[test]
fn malformed_tree_entry_rejected() {
    // Payload with no NUL at all.
    let r = Object::deserialize(b"tree 6\0abcdef");
    assert!(matches!(r, Err(ObjectError::MalformedEntry)));
    // Record truncated inside the 20 hash bytes.
    let r = Object::deserialize(b"tree 10\0100644 x\0a");
    assert!(matches!(r, Err(ObjectError::MalformedEntry)));
}

#[test]
fn tree_entry_deserialize_single_record() {
    let mut record = b"100644 hello.rs\0".to_vec();
    let hash: Vec<u8> = (100..120).collect();
    record.extend_from_slice(&hash);
    let entry = TreeEntry::deserialize(&record).unwrap();
    assert_eq!(entry.mode(), &b"100644".to_vec());
    assert_eq!(entry.name(), &b"hello.rs".to_vec());
    assert_eq!(entry.hash(), &hash);
}

#[test]
fn tree_entry_deserialize_no_space() {
    let record = vec![0u8; 25];
    let r = TreeEntry::deserialize(&record);
    assert!(matches!(r, Err(ObjectError::MalformedEntry)));
}

#[test]
fn tree_entry_with_space_in_name_and_nul_in_hash() {
    // The run scan relies only on the mode and name being NUL-free: a space
    // inside the name and NUL bytes inside the hash must not confuse it.
    let h1 = vec![0u8; 20];
    let h2 = vec![0u8; 20];
    let e1 = TreeEntry::new(b"100644".to_vec(), b"a b.txt".to_vec(), &h1).unwrap();
    let e2 = TreeEntry::new(b"100644".to_vec(), b"c".to_vec(), &h2).unwrap();
    let tree = Object::tree(vec![e1, e2]).unwrap();
    let back = Object::deserialize(&tree.serialize()).unwrap();
    match back {
        Object::Tree(es) => {
            assert_eq!(es.len(), 2);
            assert_eq!(es[0].name(), &b"a b.txt".to_vec());
            assert_eq!(es[1].name(), &b"c".to_vec());
        },
        _ => panic!("expected a tree"),
    }
}

#[test]
fn object_name_strings() {
    let blob = Object::blob(b"x".to_vec()).unwrap();
    assert_eq!(blob.name(), "blob");
    let tree = Object::tree(Vec::new()).unwrap();
    assert_eq!(tree.name(), "tree");
}
