use roead::byml::{is_container_type, is_valid_version, BymlIndex, NodeType};

#[test]
fn node_tags() {
    assert_eq!(NodeType::from_tag(0xC1), Some(NodeType::Hash));
    assert_eq!(NodeType::from_tag(0xFF), Some(NodeType::Null));
    assert_eq!(NodeType::from_tag(0x00), None);
    assert_eq!(NodeType::Double.tag(), 0xD6);
    for t in 0..=255u8 {
        if let Some(n) = NodeType::from_tag(t) {
            assert_eq!(n.tag(), t);
        }
    }
}

#[test]
fn containers_and_versions() {
    assert!(is_container_type(NodeType::Array));
    assert!(is_container_type(NodeType::Hash));
    assert!(!is_container_type(NodeType::StringTable));
    assert!(!is_valid_version(1));
    assert!(is_valid_version(2));
    assert!(is_valid_version(4));
    assert!(is_valid_version(7));
    assert!(!is_valid_version(8));
    assert_eq!(BymlIndex::HashIdx("a"), BymlIndex::HashIdx("a"));
    assert_ne!(BymlIndex::ArrayIdx(1), BymlIndex::ArrayIdx(2));
}

use roead::byml::Byml;
use roead::yaz0::compress;
use roead::Error;

fn hash_doc() -> Vec<u8> {
    let mut d = vec![b'Y', b'B', 2, 0, 0x10, 0, 0, 0, 0x24, 0, 0, 0, 0x34, 0, 0, 0];
    // key table: "a", "b"
    d.extend_from_slice(&[0xC2, 2, 0, 0, 16, 0, 0, 0, 18, 0, 0, 0, 20, 0, 0, 0]);
    d.extend_from_slice(&[b'a', 0, b'b', 0]);
    // string table: "hi"
    d.extend_from_slice(&[0xC2, 1, 0, 0, 12, 0, 0, 0, 15, 0, 0, 0, b'h', b'i', 0, 0]);
    // root hash: a -> I32 5, b -> string 0
    d.extend_from_slice(&[0xC1, 2, 0, 0]);
    d.extend_from_slice(&[0, 0, 0, 0xD1, 5, 0, 0, 0]);
    d.extend_from_slice(&[1, 0, 0, 0xA0, 0, 0, 0, 0]);
    d
}

fn array_doc() -> Vec<u8> {
    let mut d = vec![b'B', b'Y', 0, 3, 0, 0, 0, 0, 0, 0, 0, 0, 0, 0, 0, 0x10];
    d.extend_from_slice(&[0xC0, 0, 0, 3, 0xD0, 0xD3, 0xFF, 0]);
    d.extend_from_slice(&[0, 0, 0, 1, 0, 0, 0, 7, 0, 0, 0, 0]);
    d
}

#[test]
fn reads_hash_document() {
    let b = Byml::from_binary(&hash_doc()).unwrap();
    assert_eq!(
        b,
        Byml::Hash(vec![
            ("a".to_string(), Byml::I32(5)),
            ("b".to_string(), Byml::String("hi".to_string())),
        ])
    );
}

#[test]
fn reads_big_endian_array() {
    let b = Byml::from_binary(&array_doc()).unwrap();
    assert_eq!(b, Byml::Array(vec![Byml::Bool(true), Byml::U32(7), Byml::Null]));
}

#[test]
fn reads_compressed_document() {
    let c = compress(&array_doc());
    assert_eq!(&c[0..4], b"Yaz0");
    let b = Byml::from_binary(&c).unwrap();
    assert_eq!(b, Byml::Array(vec![Byml::Bool(true), Byml::U32(7), Byml::Null]));
}

#[test]
fn empty_root_is_null() {
    let d = vec![b'B', b'Y', 0, 2, 0, 0, 0, 0, 0, 0, 0, 0, 0, 0, 0, 0];
    assert_eq!(Byml::from_binary(&d).unwrap(), Byml::Null);
}

#[test]
fn nested_and_wide_values() {
    // array of [array [i32 -1], u64 stored at 0x30]
    let mut d = vec![b'B', b'Y', 0, 2, 0, 0, 0, 0, 0, 0, 0, 0, 0, 0, 0, 0x10];
    d.extend_from_slice(&[0xC0, 0, 0, 2, 0xC0, 0xD5, 0, 0]);
    d.extend_from_slice(&[0, 0, 0, 0x24, 0, 0, 0, 0x30, 0, 0, 0, 0]);
    // inner array at 0x24
    d.extend_from_slice(&[0xC0, 0, 0, 1, 0xD1, 0, 0, 0, 0xFF, 0xFF, 0xFF, 0xFF]);
    // the 64-bit value at 0x30
    d.extend_from_slice(&[0, 0, 0, 9, 0, 0, 0, 0]);
    let b = Byml::from_binary(&d).unwrap();
    assert_eq!(
        b,
        Byml::Array(vec![Byml::Array(vec![Byml::I32(-1)]), Byml::U64(9 << 32)])
    );
}

#[test]
fn binary_and_invalid_utf8_strings() {
    // little endian; string table with one string holding byte 0xE9
    let mut d = vec![b'Y', b'B', 2, 0, 0, 0, 0, 0, 0x10, 0, 0, 0, 0x20, 0, 0, 0];
    d.extend_from_slice(&[0xC2, 1, 0, 0, 12, 0, 0, 0, 14, 0, 0, 0, 0xE9, b'x', 0, 0]);
    // root array: [string 0, binary at 0x30]
    d.extend_from_slice(&[0xC0, 2, 0, 0, 0xA0, 0xA1, 0, 0, 0, 0, 0, 0, 0x30, 0, 0, 0]);
    d.extend_from_slice(&[3, 0, 0, 0, 1, 2, 3]);
    let b = Byml::from_binary(&d).unwrap();
    // The bytes E9 78 are not UTF-8: the lone E9 is replaced.
    assert_eq!(
        b,
        Byml::Array(vec![Byml::String("\u{FFFD}x".to_string()), Byml::BinaryData(vec![1, 2, 3])])
    );
}

#[test]
fn duplicate_hash_key_keeps_last() {
    let mut d = hash_doc();
    // second entry uses key 0 as well
    d[0x40] = 0;
    let b = Byml::from_binary(&d).unwrap();
    assert_eq!(b, Byml::Hash(vec![("a".to_string(), Byml::String("hi".to_string()))]));
}

#[test]
fn header_errors() {
    assert!(matches!(
        Byml::from_binary(&[b'B', b'Y', 0, 2]),
        Err(Error::InvalidData("Insufficient data for header"))
    ));
    let mut d = array_doc();
    d[3] = 8;
    assert!(matches!(
        Byml::from_binary(&d),
        Err(Error::InvalidData("Unsupported BYML version (2 or 3 only)"))
    ));
    d[3] = 7;
    assert!(Byml::from_binary(&d).is_ok());
}

#[test]
fn node_errors() {
    let mut d = array_doc();
    d[0x14] = 0x12;
    assert!(matches!(Byml::from_binary(&d), Err(Error::InvalidData("Invalid BYML node type"))));

    let mut d = array_doc();
    d.truncate(0x20);
    assert!(matches!(Byml::from_binary(&d), Err(Error::InsufficientData(_, _))));

    // the string table offset leads to the root array
    let mut d = array_doc();
    d[11] = 0x10;
    match Byml::from_binary(&d) {
        Err(Error::TypeError(found, expected)) => {
            assert_eq!(found, "Array");
            assert_eq!(expected, "string table");
        }
        other => panic!("unexpected {:?}", other),
    }

    // the string index is past the end of the table
    let mut d = hash_doc();
    d[0x44] = 4;
    assert!(matches!(
        Byml::from_binary(&d),
        Err(Error::InvalidData("Invalid string table entry index"))
    ));
}

#[test]
fn bad_compressed_data() {
    let d = b"Yaz0\0\0\0\x10".to_vec();
    assert!(matches!(Byml::from_binary(&d), Err(Error::InsufficientData(_, _))));
}

fn sample_hash() -> Byml {
    Byml::Hash(vec![
        ("a".to_string(), Byml::I32(5)),
        ("b".to_string(), Byml::String("hi".to_string())),
    ])
}

#[test]
fn writes_hash_document() {
    assert_eq!(sample_hash().to_binary(roead::Endian::Little), hash_doc());
}

#[test]
fn writes_array_document() {
    let b = Byml::Array(vec![Byml::Bool(true), Byml::U32(7), Byml::Null]);
    assert_eq!(b.write(roead::Endian::Big, 3).unwrap(), array_doc());
}

#[test]
fn write_rejects_bad_version() {
    let b = Byml::Array(vec![]);
    assert!(matches!(
        b.write(roead::Endian::Big, 8),
        Err(Error::InvalidData("Invalid BYML version"))
    ));
    assert!(b.write(roead::Endian::Big, 1).is_err());
    assert!(b.write(roead::Endian::Big, 4).is_ok());
    assert!(b.write(roead::Endian::Big, 7).is_ok());
}

#[test]
fn null_document_is_header_only() {
    let d = Byml::Null.to_binary(roead::Endian::Big);
    assert_eq!(d, vec![b'B', b'Y', 0, 2, 0, 0, 0, 0, 0, 0, 0, 0, 0, 0, 0, 0]);
    assert_eq!(Byml::from_binary(&d).unwrap(), Byml::Null);
}

fn sample_nested() -> Byml {
    Byml::Hash(vec![
        ("zeta".to_string(), Byml::Array(vec![
            Byml::I64(-2),
            Byml::U64(u64::MAX),
            Byml::Double(0x4009_21FB_5444_2D18),
            Byml::Float(0x3F80_0000),
            Byml::BinaryData(vec![9, 8, 7]),
            Byml::Array(vec![Byml::String("inner".to_string())]),
        ])),
        ("alpha".to_string(), Byml::Hash(vec![
            ("x".to_string(), Byml::Null),
            ("zeta".to_string(), Byml::Bool(false)),
        ])),
        ("mid".to_string(), Byml::String("hi".to_string())),
        ("n".to_string(), Byml::I32(-7)),
    ])
}

#[test]
fn binary_roundtrip() {
    for endian in [roead::Endian::Little, roead::Endian::Big] {
        let doc = sample_nested();
        let bytes = doc.to_binary(endian);
        assert_eq!(Byml::from_binary(&bytes).unwrap(), doc);
        let again = Byml::from_binary(&bytes).unwrap().to_binary(endian);
        assert_eq!(again, bytes);
    }
}

#[test]
fn string_tables_are_sorted() {
    let bytes = sample_nested().to_binary(roead::Endian::Little);
    // hash key table at 0x10 holds alpha, mid, n, x, zeta in order
    assert_eq!(&bytes[0..2], b"YB");
    assert_eq!(bytes[0x10], 0xC2);
    assert_eq!(bytes[0x11], 5);
    let first = 0x10 + u32::from_le_bytes([bytes[0x14], bytes[0x15], bytes[0x16], bytes[0x17]]) as usize;
    assert_eq!(&bytes[first..first + 6], b"alpha\0");
}

#[test]
fn accessors() {
    let b = Byml::Bool(true);
    assert_eq!(b.as_bool().unwrap(), true);
    assert!(!b.is_null());
    assert!(Byml::Null.is_null());
    match Byml::I32(3).as_bool() {
        Err(Error::TypeError(found, expected)) => {
            assert_eq!(found, "I32");
            assert_eq!(expected, "Bool");
        }
        other => panic!("unexpected {:?}", other),
    }
    assert_eq!(Byml::I32(-3).as_i32().unwrap(), -3);
    assert_eq!(Byml::U32(3).into_u32().unwrap(), 3);
    assert_eq!(Byml::I64(-4).as_i64().unwrap(), -4);
    assert_eq!(Byml::U64(4).into_u64().unwrap(), 4);
    assert_eq!(Byml::Float(0x3F80_0000).as_float().unwrap(), 0x3F80_0000);
    assert_eq!(Byml::Double(7).into_double().unwrap(), 7);
    assert_eq!(Byml::String("s".to_string()).as_string().unwrap(), "s");
    assert_eq!(Byml::String("s".to_string()).into_string().unwrap(), "s");
    assert_eq!(Byml::BinaryData(vec![1, 2]).as_binary_data().unwrap(), &[1u8, 2][..]);
    assert_eq!(Byml::BinaryData(vec![1, 2]).into_binary_data().unwrap(), vec![1u8, 2]);
    assert!(matches!(Byml::Null.into_array(), Err(Error::TypeError(_, "Array"))));
    assert_eq!(Byml::Null.node_type_name(), "Null");
    assert_eq!(Byml::BinaryData(vec![]).node_type_name(), "Binary");
    assert_eq!(Byml::Hash(vec![]).get_node_type(), NodeType::Hash);
}

#[test]
fn indexing() {
    let doc = sample_nested();
    assert_eq!(doc.index(BymlIndex::HashIdx("n")), &Byml::I32(-7));
    let arr = doc.index(BymlIndex::HashIdx("zeta"));
    assert_eq!(arr.as_array().unwrap().len(), 6);
    assert_eq!(arr.index(BymlIndex::ArrayIdx(1)), &Byml::U64(u64::MAX));
    assert_eq!(doc.as_hash().unwrap().len(), 4);
    assert_eq!(doc.into_hash().unwrap()[2].0, "mid");
}

#[test]
fn mutable_accessors_change_the_node() {
    let mut b = Byml::I32(1);
    *b.as_mut_i32().unwrap() = 5;
    assert_eq!(b, Byml::I32(5));
    assert!(b.as_mut_u32().is_err());
    let mut a = Byml::Array(vec![Byml::Bool(true)]);
    a.as_mut_array().unwrap().push(Byml::Null);
    assert_eq!(a, Byml::Array(vec![Byml::Bool(true), Byml::Null]));
    let mut s = Byml::String("a".to_string());
    s.as_mut_string().unwrap().push('b');
    assert_eq!(s.as_string().unwrap(), "ab");
}

fn hash_of<T: std::hash::Hash>(x: &T) -> u64 {
    let mut h = std::collections::hash_map::DefaultHasher::new();
    x.hash(&mut h);
    std::hash::Hasher::finish(&h)
}

#[test]
fn equal_nodes_hash_equally() {
    let a = Byml::Array(vec![Byml::Float(0x3F80_0000), Byml::String("x".to_string())]);
    let b = Byml::Array(vec![Byml::Float(0x3F80_0000), Byml::String("x".to_string())]);
    assert_eq!(hash_of(&a), hash_of(&b));
    assert_ne!(hash_of(&a), hash_of(&Byml::Null));
}

#[test]
fn index_mut_changes_items_and_values() {
    let mut a = Byml::Array(vec![Byml::I32(1), Byml::I32(2)]);
    *a.index_mut(BymlIndex::ArrayIdx(1)) = Byml::Bool(false);
    assert_eq!(a, Byml::Array(vec![Byml::I32(1), Byml::Bool(false)]));
    let mut h = Byml::Hash(vec![("k".to_string(), Byml::Null), ("m".to_string(), Byml::U32(1))]);
    *h.index_mut(BymlIndex::HashIdx("m")) = Byml::U32(9);
    assert_eq!(h.index(BymlIndex::HashIdx("m")), &Byml::U32(9));
    assert_eq!(h.index(BymlIndex::HashIdx("k")), &Byml::Null);
}

#[test]
fn nodes_from_values() {
    assert_eq!(Byml::from(5i32), Byml::I32(5));
    assert_eq!(Byml::from(true), Byml::Bool(true));
    assert_eq!(Byml::from("s".to_string()), Byml::String("s".to_string()));
    assert_eq!(Byml::from(vec![Byml::Null]), Byml::Array(vec![Byml::Null]));
    assert_eq!(Byml::from(vec![1u8, 2]), Byml::BinaryData(vec![1, 2]));
    assert_eq!(Byml::default(), Byml::Null);
}

#[test]
fn cyclic_document_is_refused() {
    // The root array holds itself.
    let data: Vec<u8> = vec![
        0x59, 0x42, 0x02, 0x00, 0, 0, 0, 0, 0, 0, 0, 0, 0x10, 0, 0, 0, 0xC0, 0x01, 0, 0, 0xC0, 0,
        0, 0, 0x10, 0, 0, 0,
    ];
    assert!(matches!(
        Byml::from_binary(&data),
        Err(Error::InvalidData("BYML containers nest too deeply"))
    ));
    // The root offset leads to a value type.
    let mut bad = data.clone();
    bad[0x10] = 0xD1;
    assert!(matches!(Byml::from_binary(&bad), Err(Error::InvalidData("Invalid container node type"))));
    // An empty root array reads as one.
    let mut empty = data.clone();
    empty[0x11] = 0;
    assert_eq!(Byml::from_binary(&empty).unwrap(), Byml::Array(Vec::new()));
}

fn utf8_entries() -> Vec<(String, Byml)> {
    vec![
        ("clé".to_string(), Byml::String("é".to_string())),
        ("ключ".to_string(), Byml::Array(vec![Byml::String("日本".to_string())])),
    ]
}

#[test]
fn utf8_strings_read_back() {
    let doc = Byml::Hash(utf8_entries());
    for endian in [roead::Endian::Little, roead::Endian::Big] {
        let bytes = doc.to_binary(endian);
        match Byml::from_binary(&bytes).unwrap() {
            Byml::Hash(mut got) => {
                got.sort_by(|a, b| a.0.cmp(&b.0));
                let mut want = utf8_entries();
                want.sort_by(|a, b| a.0.cmp(&b.0));
                assert_eq!(got, want);
            }
            _ => panic!("expected a hash"),
        }
    }
}
