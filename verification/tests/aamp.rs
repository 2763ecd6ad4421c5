use roead::aamp::names::{format_numbered_name, ChildFormatIterator};
use roead::aamp::{hash_name, Name, NameTable};
use roead::types::FixedSafeString;

#[test]
fn aamp_check_hasher() {
    let hashed: u32 = hash_name("The Abolition of Man");
    let hash: u32 = 0x41afa934;
    assert_eq!(hashed, hash);
}

#[test]
fn mod_check_hasher() {
    let hashed: u32 = hash_name("The Abolition of Man");
    let hash: u32 = 0x41afa934;
    assert_eq!(hashed, hash);
}

#[test]
fn test_names() {
    // The BOTW name list is not bundled; the table is given the one name the
    // lookup relies on.
    let mut table = NameTable::new(true);
    table.add_name("AI");
    let parent_hash: u32 = 2814088591;
    assert_eq!(table.get_name(parent_hash, 0, 0).unwrap(), "AI");
    let hash: u32 = 2157271501;
    let index: usize = 35;
    assert_eq!(table.get_name(hash, index, parent_hash).unwrap(), "AI_35");
}

#[test]
fn hash_of_empty_name_is_zero() {
    assert_eq!(hash_name(""), 0);
    assert_eq!(hash_name("a"), 0xe8b7be43);
}

#[test]
fn name_from_str_and_hash() {
    let n = Name::from_str("The Abolition of Man");
    assert_eq!(n.hash(), 0x41afa934);
    assert_eq!(Name::from_hash(7).hash(), 7);
}

#[test]
fn child_guesses_in_order() {
    let mut it = ChildFormatIterator::new("Item", 7);
    let expected = ["Item7", "Item07", "Item007", "Item_7", "Item_07", "Item_007"];
    for e in expected.iter() {
        let h = it.next().unwrap();
        assert_eq!(it.buffer(), *e);
        assert_eq!(h, hash_name(e));
    }
    assert_eq!(it.next(), None);
    assert_eq!(it.buffer(), "");
}

#[test]
fn numbered_formats_fill_in() {
    let mut buf: FixedSafeString<256> = FixedSafeString::new();
    format_numbered_name("Item_%02d", 3, &mut buf);
    assert_eq!(buf.as_str(), "Item_03");
    format_numbered_name("Obj%dName", 12, &mut buf);
    assert_eq!(buf.as_str(), "Obj12Name");
    format_numbered_name("A%03dB%03dC", 5, &mut buf);
    assert_eq!(buf.as_str(), "A005B");
    format_numbered_name("W%04d", 7, &mut buf);
    assert_eq!(buf.as_str(), "W0007");
    format_numbered_name("Y%u", 42, &mut buf);
    assert_eq!(buf.as_str(), "Y42");
    format_numbered_name("Z%02u_end", 9, &mut buf);
    assert_eq!(buf.as_str(), "Z09_end");
}

#[test]
fn table_keeps_first_name_and_guesses_from_parent() {
    let mut table = NameTable::new(false);
    table.add_name("Children");
    table.add_name_with_hash("Other", hash_name("Children"));
    assert_eq!(table.get_name(hash_name("Children"), 0, 0).unwrap(), "Children");
    // Unknown hash, unknown parent, no formats: nothing is guessed.
    assert_eq!(table.get_name(hash_name("Nothing_1"), 1, 12345), None);
    // A plural parent name is made singular.
    table.add_name("Actors");
    let parent = hash_name("Actors");
    assert_eq!(table.get_name(hash_name("Actor_02"), 2, parent).unwrap(), "Actor_02");
    // A found guess is remembered.
    assert_eq!(table.get_name(hash_name("Actor_02"), 0, 0).unwrap(), "Actor_02");
    // `Children` is tried for any known parent.
    table.add_name("Root");
    assert_eq!(table.get_name(hash_name("Children5"), 5, hash_name("Root")).unwrap(), "Children5");
}

#[test]
fn table_guesses_from_numbered_formats() {
    let mut table = NameTable::new(false);
    assert!(!table.add_numbered_format("NoPattern"));
    assert!(table.add_numbered_format("Param_%03d"));
    // Positions up to index + 1 are tried.
    assert_eq!(table.get_name(hash_name("Param_004"), 3, 0).unwrap(), "Param_004");
    assert_eq!(table.get_name(hash_name("Param_009"), 3, 0), None);
}

#[test]
fn fixed_string_truncates() {
    let s: FixedSafeString<4> = FixedSafeString::from_str("abcdef");
    assert_eq!(s.as_str(), "abcd");
    assert_eq!(s.len(), 4);
    // A multi-byte character is not split.
    let t: FixedSafeString<4> = FixedSafeString::from_str("abc\u{e9}");
    assert_eq!(t.as_str(), "abc");
    let mut u: FixedSafeString<8> = FixedSafeString::new();
    u.write_str("ab");
    assert_eq!(u.as_str(), "ab");
    // Six bytes left, three asked for: all is written.
    u.write_str("cde");
    assert_eq!(u.as_str(), "abcde");
    // Three bytes left, four asked for: the string is cut at the capacity.
    u.write_str("fghi");
    assert_eq!(u.as_str(), "abcdefgh");
    u.clear();
    assert_eq!(u.as_str(), "");
    // Eight bytes of room, five asked for: all five are written.
    u.write_str("vwxyz");
    assert_eq!(u.as_str(), "vwxyz");
    // A multi-byte character that does not fit whole is left out.
    u.write_str("12\u{e9}");
    assert_eq!(u.as_str(), "vwxyz12");
    let mut big: FixedSafeString<256> = FixedSafeString::new();
    big.write_str(&"a".repeat(200));
    assert_eq!(big.len(), 200);
}

use roead::aamp::binary::ROOT_KEY_HASH;
use roead::aamp::param::{Curve, Parameter, ParameterIO, ParameterList, ParameterObject, Vector3f};
use roead::Error;

fn put32(d: &mut Vec<u8>, x: u32) {
    d.extend_from_slice(&x.to_le_bytes());
}

fn param_header(d: &mut Vec<u8>, name: u32, rel: u32, t: u8) {
    put32(d, name);
    d.extend_from_slice(&rel.to_le_bytes()[0..3]);
    d.push(t);
}

fn list_header(d: &mut Vec<u8>, name: u32, lists_rel: u16, lists: u16, objs_rel: u16, objs: u16) {
    put32(d, name);
    d.extend_from_slice(&lists_rel.to_le_bytes());
    d.extend_from_slice(&lists.to_le_bytes());
    d.extend_from_slice(&objs_rel.to_le_bytes());
    d.extend_from_slice(&objs.to_le_bytes());
}

fn archive() -> Vec<u8> {
    let mut d = b"AAMP".to_vec();
    for x in [2u32, 3, 0x8C, 0, 4, 1, 1, 4, 0, 0, 0] {
        put32(&mut d, x);
    }
    d.extend_from_slice(b"xml\0");
    // root list at 0x34: no lists, one object at 0x40
    list_header(&mut d, ROOT_KEY_HASH, 3, 0, 3, 1);
    // object at 0x40: four parameters at 0x48
    put32(&mut d, 0x1111_1111);
    d.extend_from_slice(&2u16.to_le_bytes());
    d.extend_from_slice(&4u16.to_le_bytes());
    param_header(&mut d, 0xAAAA_0001, 8, 0);
    param_header(&mut d, 0xAAAA_0002, 7, 4);
    param_header(&mut d, 0xAAAA_0003, 8, 20);
    param_header(&mut d, 0xAAAA_0004, 9, 13);
    // data from 0x68
    put32(&mut d, 1);
    put32(&mut d, 0x3F80_0000);
    put32(&mut d, 0x4000_0000);
    put32(&mut d, 0x4040_0000);
    d.extend_from_slice(b"hello\0\0\0");
    put32(&mut d, 2);
    put32(&mut d, (-1i32) as u32);
    put32(&mut d, 5);
    assert_eq!(d.len(), 0x8C);
    d
}

fn expected() -> ParameterIO {
    ParameterIO {
        version: 0,
        data_type: "xml".to_string(),
        param_root: ParameterList {
            objects: vec![(
                Name::from_hash(0x1111_1111),
                ParameterObject(vec![
                    (Name::from_hash(0xAAAA_0001), Parameter::Bool(true)),
                    (
                        Name::from_hash(0xAAAA_0002),
                        Parameter::Vec3(Vector3f { x: 0x3F80_0000, y: 0x4000_0000, z: 0x4040_0000 }),
                    ),
                    (Name::from_hash(0xAAAA_0003), Parameter::StringRef("hello".to_string())),
                    (Name::from_hash(0xAAAA_0004), Parameter::BufferInt(vec![-1, 5])),
                ]),
            )],
            lists: vec![],
        },
    }
}

#[test]
fn root_key_is_param_root() {
    assert_eq!(roead::aamp::hash_name("param_root"), ROOT_KEY_HASH);
}

#[test]
fn reads_archive() {
    assert_eq!(ParameterIO::from_binary(&archive()).unwrap(), expected());
}

#[test]
fn reads_compressed_archive() {
    let c = roead::yaz0::compress(&archive());
    assert_eq!(ParameterIO::from_binary(&c).unwrap(), expected());
}

#[test]
fn reads_nested_lists_and_curves() {
    let mut d = b"AAMP".to_vec();
    for x in [2u32, 3, 0, 7, 0, 2, 1, 1, 0, 0, 0] {
        put32(&mut d, x);
    }
    // root list at 0x30: one list at 0x3C, no objects
    list_header(&mut d, ROOT_KEY_HASH, 3, 1, 3, 0);
    // child list at 0x3C: one object at 0x48
    list_header(&mut d, 0x2222_2222, 3, 0, 3, 1);
    // object at 0x48: one parameter at 0x50
    put32(&mut d, 0x3333_3333);
    d.extend_from_slice(&2u16.to_le_bytes());
    d.extend_from_slice(&1u16.to_le_bytes());
    // a Curve1 at 0x58
    param_header(&mut d, 0x4444_4444, 2, 9);
    for i in 0..32u32 {
        put32(&mut d, i);
    }
    // the data type string at 0x30 runs into the root list, up to its first NUL
    let pio = ParameterIO::from_binary(&d).unwrap();
    assert_eq!(pio.version, 7);
    let child = &pio.param_root.lists[0];
    assert_eq!(child.0, Name::from_hash(0x2222_2222));
    let obj = &child.1.objects[0].1;
    match &obj.0[0].1 {
        Parameter::Curve1(cs) => {
            assert_eq!(cs.len(), 1);
            assert_eq!(cs[0], Curve { a: 0, b: 1, floats: (2..32).collect() });
        }
        other => panic!("unexpected {:?}", other),
    }
}

#[test]
fn archive_errors() {
    assert!(matches!(
        ParameterIO::from_binary(&archive()[..0x20]),
        Err(Error::InvalidData("Incomplete parameter archive"))
    ));
    let mut d = archive();
    d[0] = b'X';
    assert!(matches!(ParameterIO::from_binary(&d), Err(Error::BadMagic(_, "AAMP"))));
    let mut d = archive();
    d[4] = 3;
    assert!(matches!(
        ParameterIO::from_binary(&d),
        Err(Error::InvalidData("Only version 2 parameter archives are supported"))
    ));
    let mut d = archive();
    d[8] = 2;
    assert!(matches!(
        ParameterIO::from_binary(&d),
        Err(Error::InvalidData("Only little endian parameter archives are supported"))
    ));
    let mut d = archive();
    d[8] = 1;
    assert!(matches!(
        ParameterIO::from_binary(&d),
        Err(Error::InvalidData("Only UTF-8 parameter archives are supported"))
    ));
    let mut d = archive();
    d[0x4F] = 30;
    assert!(matches!(ParameterIO::from_binary(&d), Err(Error::InvalidData("Invalid parameter type"))));
    let mut d = archive();
    d[0x34] ^= 1;
    assert!(matches!(
        ParameterIO::from_binary(&d),
        Err(Error::InvalidData("No param root found in parameter archive"))
    ));
    let mut d = archive();
    d.truncate(0x88);
    assert!(matches!(ParameterIO::from_binary(&d), Err(Error::InsufficientData(_, _))));
}

#[test]
fn parameter_accessors() {
    let p = Parameter::Int(-5);
    assert_eq!(p.as_int().unwrap(), -5);
    assert_eq!(p.type_code(), 2);
    assert_eq!(p.param_type_name(), "Int");
    match p.as_bool() {
        Err(Error::TypeError(found, expected)) => {
            assert_eq!(found, "Int");
            assert_eq!(expected, "Bool");
        }
        other => panic!("unexpected {:?}", other),
    }
    match Parameter::Bool(true).into_f32() {
        Err(Error::TypeError(found, expected)) => {
            assert_eq!(found, "Bool");
            assert_eq!(expected, "f32");
        }
        other => panic!("unexpected {:?}", other),
    }
    assert_eq!(Parameter::F32(0x3F80_0000).into_f32().unwrap(), 0x3F80_0000);
    assert_eq!(Parameter::BufferU32(vec![1, 2]).as_buffer_u32().unwrap(), &[1u32, 2][..]);
    assert!(matches!(Parameter::U32(1).as_buffer_int(), Err(Error::TypeError(_, "BufferI32"))));
    let s = Parameter::StringRef("abc".to_string());
    assert!(s.is_string_type());
    assert!(!s.is_buffer_type());
    assert_eq!(s.as_str().unwrap(), "abc");
    assert_eq!(s.as_string_ref().unwrap(), "abc");
    let f = Parameter::String32(FixedSafeString::<32>::from_str("xyz"));
    assert_eq!(f.as_str().unwrap(), "xyz");
    assert!(matches!(Parameter::U32(3).as_str(), Err(Error::TypeError(_, "a string type"))));
    assert!(Parameter::BufferBinary(vec![]).is_buffer_type());
}

#[test]
fn parameter_maps() {
    let a = Name::from_str("A");
    let b = Name::from_str("B");
    let mut o = ParameterObject::new();
    assert!(o.is_empty());
    o.insert(a, Parameter::U32(1));
    o.insert(b, Parameter::U32(2));
    o.insert(a, Parameter::U32(3));
    assert_eq!(o.len(), 2);
    assert_eq!(o.get(a), Some(&Parameter::U32(3)));
    assert_eq!(o.0[0].0, a);
    assert_eq!(o.get(Name::from_str("C")), None);
    let l = ParameterList::new().with_object(b, o).with_list(a, ParameterList::new());
    let pio = ParameterIO::new().with_root(l).with_version(3);
    assert_eq!(pio.version, 3);
    assert_eq!(pio.data_type, "xml");
    assert_eq!(pio.object(b).unwrap().get(b), Some(&Parameter::U32(2)));
    assert!(pio.list(a).is_some());
    assert!(pio.list(b).is_none());
}

#[test]
fn invalid_utf8_strings_are_replaced() {
    let mut d = archive();
    d[0x78] = 0xFF;
    let pio = ParameterIO::from_binary(&d).unwrap();
    let obj = &pio.param_root.objects[0].1;
    assert_eq!(obj.0[2].1, Parameter::StringRef("\u{FFFD}ello".to_string()));
    let mut d = archive();
    d[0..4].copy_from_slice(b"AA\xFFP");
    match ParameterIO::from_binary(&d) {
        Err(Error::BadMagic(found, expected)) => {
            assert_eq!(found, "AA\u{FFFD}P");
            assert_eq!(expected, "AAMP");
        }
        other => panic!("unexpected {:?}", other),
    }
}

use roead::aamp::reader::ParameterIOReader;

#[test]
fn lazy_reader() {
    let d = archive();
    let r = ParameterIOReader::new(&d).unwrap();
    assert_eq!(r.version(), 0);
    assert_eq!(r.doc_type().unwrap(), "xml");
    let root = r.root();
    assert_eq!(root.name(), Name::from_hash(ROOT_KEY_HASH));
    assert_eq!(root.lists_len(), 0);
    assert!(root.lists_empty());
    assert_eq!(root.objs_len(), 1);
    assert!(!root.objs_empty());
    assert!(root.list_at(0).is_none());
    assert!(root.list(Name::from_hash(1)).is_none());
    let obj = root.object(Name::from_hash(0x1111_1111)).unwrap();
    assert_eq!(obj.name(), Name::from_hash(0x1111_1111));
    assert_eq!(obj.len(), 4);
    assert!(!obj.is_empty());
    assert_eq!(obj.get_at(0), Some(Parameter::Bool(true)));
    assert_eq!(obj.get(Name::from_hash(0xAAAA_0003)), Some(Parameter::StringRef("hello".to_string())));
    assert_eq!(obj.try_get(Name::from_hash(7)).unwrap(), None);
    assert_eq!(obj.get_at(9), None);
    let same = root.object_at(0).unwrap();
    assert_eq!(same.get_at(3), Some(Parameter::BufferInt(vec![-1, 5])));
    assert!(root.try_object_at(1).unwrap().is_none());
}

#[test]
fn lazy_reader_errors() {
    assert!(matches!(
        ParameterIOReader::new(&archive()[..0x20]),
        Err(Error::InvalidData("Incomplete parameter archive"))
    ));
    let mut d = archive();
    d[0x14] = 0x70;
    assert!(matches!(ParameterIOReader::new(&d), Err(Error::InsufficientData(_, _))));
    let mut d = archive();
    d[0x30..0x34].copy_from_slice(&[0xFF, 0, 0, 0]);
    let r = ParameterIOReader::new(&d).unwrap();
    assert!(matches!(r.doc_type(), Err(Error::InvalidUtf8(_))));
}

fn written_archive() -> Vec<u8> {
    let mut d = b"AAMP".to_vec();
    for x in [2u32, 3, 0x8C, 0, 4, 1, 1, 4, 0x1C, 8, 0] {
        put32(&mut d, x);
    }
    d.extend_from_slice(b"xml\0");
    list_header(&mut d, ROOT_KEY_HASH, 3, 0, 3, 1);
    put32(&mut d, 0x1111_1111);
    d.extend_from_slice(&2u16.to_le_bytes());
    d.extend_from_slice(&4u16.to_le_bytes());
    param_header(&mut d, 0xAAAA_0001, 8, 0);
    param_header(&mut d, 0xAAAA_0002, 7, 4);
    param_header(&mut d, 0xAAAA_0003, 11, 20);
    param_header(&mut d, 0xAAAA_0004, 7, 13);
    put32(&mut d, 1);
    put32(&mut d, 0x3F80_0000);
    put32(&mut d, 0x4000_0000);
    put32(&mut d, 0x4040_0000);
    put32(&mut d, 2);
    put32(&mut d, (-1i32) as u32);
    put32(&mut d, 5);
    d.extend_from_slice(b"hello\0\0\0");
    assert_eq!(d.len(), 0x8C);
    d
}

#[test]
fn writes_archive() {
    assert_eq!(expected().to_binary(), written_archive());
}

#[test]
fn written_parameter_archive_reads_back() {
    let pio = expected();
    assert_eq!(ParameterIO::from_binary(&pio.to_binary()).unwrap(), pio);
}

#[test]
fn equal_data_and_strings_are_stored_once() {
    let pio = ParameterIO {
        version: 3,
        data_type: "bxml".to_string(),
        param_root: ParameterList {
            objects: vec![(
                Name::from_hash(1),
                ParameterObject(vec![
                    (Name::from_hash(10), Parameter::U32(7)),
                    (Name::from_hash(11), Parameter::StringRef("ab".to_string())),
                    (Name::from_hash(12), Parameter::U32(7)),
                    (Name::from_hash(13), Parameter::StringRef("ab".to_string())),
                ]),
            )],
            lists: vec![],
        },
    };
    let d = pio.to_binary();
    // header, "bxml\0" padded to 8, one list, one object, four parameters,
    // one data word and one padded string
    assert_eq!(d.len(), 0x30 + 8 + 12 + 8 + 32 + 4 + 4);
    assert_eq!(&d[0x24..0x2C], &[4, 0, 0, 0, 4, 0, 0, 0]);
    let params = 0x30 + 8 + 12 + 8;
    // both U32 parameters point at the same word, both strings at the same bytes
    let rel = |i: usize| {
        let at = params + 8 * i + 4;
        (d[at] as usize | (d[at + 1] as usize) << 8 | (d[at + 2] as usize) << 16) * 4 + params + 8 * i
    };
    assert_eq!(rel(0), rel(2));
    assert_eq!(rel(1), rel(3));
    assert_eq!(&d[rel(0)..rel(0) + 4], &[7, 0, 0, 0]);
    assert_eq!(&d[rel(1)..rel(1) + 3], b"ab\0");
    assert_eq!(ParameterIO::from_binary(&d).unwrap(), pio);
}

#[test]
fn nested_archive_round_trips() {
    let curve = Curve { a: 1, b: 2, floats: (0..30).map(|i| 0x3F00_0000 + i).collect() };
    let leaf = ParameterList {
        objects: vec![(
            Name::from_str("Leaf"),
            ParameterObject(vec![
                (Name::from_str("c"), Parameter::Curve1(vec![curve])),
                (Name::from_str("s"), Parameter::String32(FixedSafeString::<32>::from_str("short"))),
                (Name::from_str("b"), Parameter::BufferBinary(vec![1, 2, 3])),
            ]),
        )],
        lists: vec![],
    };
    let mid = ParameterList {
        objects: vec![
            (Name::from_str("A"), ParameterObject(vec![(Name::from_str("x"), Parameter::Int(-3))])),
            (Name::from_str("B"), ParameterObject(vec![(Name::from_str("y"), Parameter::F32(0x3F80_0000))])),
        ],
        lists: vec![(Name::from_str("Leaf"), leaf)],
    };
    let pio = ParameterIO {
        version: 1,
        data_type: "xml".to_string(),
        param_root: ParameterList {
            objects: vec![(
                Name::from_str("Top"),
                ParameterObject(vec![
                    (Name::from_str("f"), Parameter::BufferF32(vec![1, 2])),
                    (Name::from_str("u"), Parameter::BufferU32(vec![3])),
                    (Name::from_str("t"), Parameter::String256(FixedSafeString::<256>::from_str("long"))),
                ]),
            )],
            lists: vec![
                (Name::from_str("Mid"), mid),
                (Name::from_str("Empty"), ParameterList { objects: vec![], lists: vec![] }),
            ],
        },
    };
    let bytes = pio.to_binary();
    assert_eq!(bytes.len() % 4, 0);
    assert_eq!(u32::from_le_bytes([bytes[0xC], bytes[0xD], bytes[0xE], bytes[0xF]]) as usize, bytes.len());
    assert_eq!(ParameterIO::from_binary(&bytes).unwrap(), pio);
}

#[test]
fn mutable_parameter_accessors() {
    let mut p = Parameter::BufferInt(vec![1]);
    p.as_mut_buffer_int().unwrap().push(2);
    assert_eq!(p, Parameter::BufferInt(vec![1, 2]));
    let mut q = Parameter::U32(3);
    *q.as_mut_u32().unwrap() += 1;
    assert_eq!(q, Parameter::U32(4));
    match q.as_mut_bool() {
        Err(Error::TypeError(found, expected)) => {
            assert_eq!(found, "U32");
            assert_eq!(expected, "bool");
        }
        other => panic!("unexpected {:?}", other),
    }
}

#[test]
fn builders_set_many_entries() {
    let o = ParameterObject::new()
        .with_parameters(vec![
            (Name::from_hash(1), Parameter::U32(1)),
            (Name::from_hash(2), Parameter::U32(2)),
            (Name::from_hash(1), Parameter::U32(3)),
        ]);
    assert_eq!(o.0, vec![(Name::from_hash(1), Parameter::U32(3)), (Name::from_hash(2), Parameter::U32(2))]);
    let l = ParameterList::new()
        .with_objects(vec![(Name::from_hash(5), ParameterObject::new())])
        .with_lists(vec![(Name::from_hash(6), ParameterList::new())]);
    assert_eq!(l.objects.len(), 1);
    assert_eq!(l.lists.len(), 1);
    let pio = ParameterIO::new()
        .with_objects(vec![(Name::from_hash(7), ParameterObject::new())])
        .with_lists(vec![(Name::from_hash(8), ParameterList::new()), (Name::from_hash(8), l)]);
    assert_eq!(pio.param_root.objects.len(), 1);
    assert_eq!(pio.param_root.lists.len(), 1);
    assert_eq!(pio.param_root.lists[0].1.objects.len(), 1);
}

#[test]
fn lazy_reader_strings() {
    let pio = expected().with_object(
        Name::from_hash(0x2222_2222),
        ParameterObject::new().with_parameter(
            Name::from_hash(1),
            Parameter::String64(FixedSafeString::<64>::from_str("fixed")),
        ),
    );
    let d = pio.to_binary();
    let r = ParameterIOReader::new(&d).unwrap();
    let root = r.root();
    let obj = root.object(Name::from_hash(0x1111_1111)).unwrap();
    assert_eq!(obj.get_str(Name::from_hash(0xAAAA_0003)), Some("hello".to_string()));
    assert_eq!(obj.get_str_at(2), Some("hello".to_string()));
    assert_eq!(obj.try_get_str(Name::from_hash(99)).unwrap(), None);
    assert_eq!(obj.try_get_str_at(4).unwrap(), None);
    match obj.try_get_str(Name::from_hash(0xAAAA_0001)) {
        Err(Error::TypeError(found, expected)) => {
            assert_eq!(found, "Bool");
            assert_eq!(expected, "any string type");
        }
        other => panic!("unexpected {:?}", other),
    }
    assert_eq!(obj.get_str_at(0), None);
    let fixed = root.object(Name::from_hash(0x2222_2222)).unwrap();
    assert_eq!(fixed.get_str(Name::from_hash(1)), Some("fixed".to_string()));
}

fn data_offset_of(d: &[u8], record: usize) -> usize {
    let params = u32::from_le_bytes([d[0x14], d[0x15], d[0x16], d[0x17]]) as usize + 0x30;
    let lists = u32::from_le_bytes([d[0x18], d[0x19], d[0x1A], d[0x1B]]) as usize;
    let objs = u32::from_le_bytes([d[0x1C], d[0x1D], d[0x1E], d[0x1F]]) as usize;
    let at = params + 12 * lists + 8 * objs + 8 * record;
    (d[at + 4] as usize | (d[at + 5] as usize) << 8 | (d[at + 6] as usize) << 16) * 4 + at
}

fn tree_with_first_object(first: Name) -> ParameterIO {
    let child = ParameterList::new().with_object(
        Name::from_hash(50),
        ParameterObject::new().with_parameter(Name::from_hash(51), Parameter::U32(3)),
    );
    ParameterIO::new()
        .with_object(first, ParameterObject::new().with_parameter(Name::from_hash(41), Parameter::U32(1)))
        .with_object(Name::from_hash(42), ParameterObject::new().with_parameter(Name::from_hash(43), Parameter::U32(2)))
        .with_list(Name::from_hash(60), child)
}

#[test]
fn data_order_of_top_objects_and_ai_programs() {
    // records: the child's parameter first, then the root's two objects
    let d = tree_with_first_object(Name::from_hash(40)).to_binary();
    // the root's objects are queued before the child list
    assert!(data_offset_of(&d, 1) < data_offset_of(&d, 0));
    assert!(data_offset_of(&d, 2) < data_offset_of(&d, 0));
    let ai = tree_with_first_object(Name::from_str("DemoAIActionIdx")).to_binary();
    // an AI program queues its objects after its child lists
    assert!(data_offset_of(&ai, 0) < data_offset_of(&ai, 1));
    assert!(data_offset_of(&ai, 1) < data_offset_of(&ai, 2));
    assert_eq!(ParameterIO::from_binary(&ai).unwrap(), tree_with_first_object(Name::from_str("DemoAIActionIdx")));
}

#[test]
fn add_name_str_keeps_first_name() {
    let mut table = NameTable::new(false);
    table.add_name_str("Speed");
    table.add_name_with_hash("Other", hash_name("Speed"));
    assert_eq!(table.get_name(hash_name("Speed"), 0, 0).unwrap(), "Speed");
}

#[test]
fn mutable_structure_access() {
    let mut pio = ParameterIO::new()
        .with_object(Name::from_hash(1), ParameterObject::new().with_parameter(Name::from_hash(2), Parameter::U32(5)))
        .with_list(Name::from_hash(3), ParameterList::new());
    *pio.object_mut(Name::from_hash(1)).unwrap().get_mut(Name::from_hash(2)).unwrap() = Parameter::U32(6);
    assert_eq!(pio.object(Name::from_hash(1)).unwrap().get(Name::from_hash(2)), Some(&Parameter::U32(6)));
    pio.list_mut(Name::from_hash(3)).unwrap().set_object(Name::from_hash(4), ParameterObject::new());
    assert_eq!(pio.list(Name::from_hash(3)).unwrap().objects().len(), 1);
    assert!(pio.list_mut(Name::from_hash(9)).is_none());
    pio.lists_mut().clear();
    assert!(pio.lists().is_empty());
    pio.objects_mut().push((Name::from_hash(7), ParameterObject::new()));
    assert_eq!(pio.objects().len(), 2);
}

#[test]
fn parameters_from_values() {
    assert_eq!(Parameter::from(3u32), Parameter::U32(3));
    assert_eq!(Parameter::from(-3i32), Parameter::Int(-3));
    assert_eq!(Parameter::from(false), Parameter::Bool(false));
    assert_eq!(Parameter::from("x".to_string()), Parameter::StringRef("x".to_string()));
    assert_eq!(Parameter::from(vec![1u8]), Parameter::BufferBinary(vec![1]));
    assert_eq!(Parameter::from(vec![7u32]), Parameter::BufferU32(vec![7]));
}

#[test]
fn long_string_ref_reads_back() {
    let long = "a".repeat(1000);
    let pio = ParameterIO {
        version: 0,
        data_type: "xml".to_string(),
        param_root: ParameterList {
            objects: vec![(
                Name::from_hash(1),
                ParameterObject(vec![(Name::from_hash(2), Parameter::StringRef(long.clone()))]),
            )],
            lists: vec![],
        },
    };
    let back = ParameterIO::from_binary(&pio.to_binary()).unwrap();
    assert_eq!(back, pio);
    assert_eq!(back.param_root.objects[0].1 .0[0].1, Parameter::StringRef(long));
}

#[test]
fn cyclic_lists_are_refused() {
    let mut d = b"AAMP".to_vec();
    for x in [2u32, 3, 0x40, 0, 4, 1, 0, 0, 0, 0, 0] {
        put32(&mut d, x);
    }
    d.extend_from_slice(b"xml\0");
    // The root list's only child list is the root list itself.
    list_header(&mut d, ROOT_KEY_HASH, 0, 1, 3, 0);
    assert!(matches!(
        ParameterIO::from_binary(&d),
        Err(Error::InvalidData("Parameter lists nest too deeply"))
    ));
}

#[test]
fn fixed_string_must_be_utf8() {
    let mut d = archive();
    d[0x5F] = 7;
    d[0x78] = 0xFF;
    assert!(matches!(
        ParameterIO::from_binary(&d),
        Err(Error::InvalidData("Invalid UTF-8 in a parameter string"))
    ));
}

#[test]
fn guessed_names_hash_to_their_key() {
    let mut table = NameTable::new(false);
    table.add_name("Items");
    let parent = hash_name("Items");
    let child = hash_name("Item_02");
    let got = table.get_name(child, 2, parent).unwrap();
    assert_eq!(got, "Item_02");
    assert_eq!(hash_name(&got), child);
}

#[test]
fn found_name_is_found_again() {
    let mut table = NameTable::new(false);
    table.add_name("Actors");
    let parent = hash_name("Actors");
    let h = hash_name("Actor_3");
    assert_eq!(table.get_name(h, 3, parent).unwrap(), "Actor_3");
    // Any later index or parent gives the same name.
    assert_eq!(table.get_name(h, 7, 0).unwrap(), "Actor_3");
    table.add_name("Other");
    assert_eq!(table.get_name(h, 0, hash_name("Other")).unwrap(), "Actor_3");
}

#[test]
fn child_format_iterator_yields_six() {
    let mut it = ChildFormatIterator::new("AI", 35);
    assert_eq!(it.len(), 6);
    let mut hashes = Vec::new();
    while let Some(h) = it.next() {
        hashes.push(h);
    }
    assert_eq!(hashes.len(), 6);
    assert_eq!(hashes[3], hash_name("AI_35"));
    assert_eq!(hashes[1], hash_name("AI35"));
    assert_eq!(hashes[5], hash_name("AI_035"));
}

#[test]
fn fixed_string_keeps_longest_prefix() {
    let a: FixedSafeString<4> = FixedSafeString::from_str("abcdef");
    assert_eq!(a.as_str(), "abcd");
    let b: FixedSafeString<32> = FixedSafeString::from_str("abc");
    assert_eq!(b.as_str(), "abc");
    let c: FixedSafeString<1> = FixedSafeString::from_str("\u{e9}");
    assert_eq!(c.as_str(), "");
}
