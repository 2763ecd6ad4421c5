use roead::sarc::{hash_name, is_valid_alignment, Sarc, SarcWriter};
use roead::{Endian, Error};

fn sample_writer(endian: Endian) -> SarcWriter {
    let mut w = SarcWriter::new(endian);
    w.add_file("Actor/Pack/Test.sbactorpack", b"first file".to_vec());
    w.add_file("Map/A-1.smubin", vec![1, 2, 3, 4, 5, 6, 7]);
    w.add_file("a.txt", b"hello".to_vec());
    w
}

#[test]
fn written_archive_reads_back() {
    for endian in [Endian::Little, Endian::Big] {
        let mut w = sample_writer(endian);
        let data = w.to_binary();
        assert_eq!(&data[0..4], b"SARC");
        let sarc = Sarc::new(&data).unwrap();
        assert_eq!(sarc.len(), 3);
        assert_eq!(sarc.endian(), endian);
        assert_eq!(sarc.get_data("a.txt").unwrap().unwrap(), b"hello");
        assert_eq!(sarc.get_data("Map/A-1.smubin").unwrap().unwrap(), &[1, 2, 3, 4, 5, 6, 7]);
        assert!(sarc.get_data("missing").unwrap().is_none());
        let f = sarc.get_file("Actor/Pack/Test.sbactorpack").unwrap().unwrap();
        assert_eq!(f.name(), Some("Actor/Pack/Test.sbactorpack"));
        assert_eq!(f.data(), b"first file");
        // Entries are ordered by name hash.
        let mut last = 0u32;
        let mut it = sarc.files();
        let mut count = 0;
        while let Some(file) = it.next() {
            let h = hash_name(0x65, file.name().unwrap());
            assert!(h >= last);
            last = h;
            assert_eq!(file.index(), count);
            count += 1;
        }
        assert_eq!(count, 3);
    }
}

#[test]
fn rewriting_an_archive_is_identical() {
    let mut w = sample_writer(Endian::Little);
    let data = w.to_binary();
    let sarc = Sarc::new(&data).unwrap();
    let mut w2 = SarcWriter::from_sarc(&sarc);
    let data2 = w2.to_binary();
    let sarc2 = Sarc::new(&data2).unwrap();
    assert!(Sarc::are_files_equal(&sarc, &sarc2));
    assert_eq!(data, data2);
}

#[test]
fn same_hash_keeps_first_name() {
    let mut w = SarcWriter::new(Endian::Little);
    w.add_file("x", vec![1]);
    w.add_file("x", vec![2]);
    assert_eq!(w.files().len(), 1);
    assert_eq!(w.files()[0].1, vec![2]);
    assert_eq!(w.files()[0].0.as_str(), "x");
}

#[test]
fn alignment_rules() {
    let mut w = SarcWriter::new(Endian::Little);
    assert!(matches!(w.set_min_alignment(3), Err(Error::InvalidData(_))));
    assert!(w.set_min_alignment(0x10).is_ok());
    assert!(matches!(
        w.add_alignment_requirement("bin".to_owned(), 6),
        Err(Error::InvalidData("Invalid alignment requirement"))
    ));
    assert!(w.add_alignment_requirement("bin".to_owned(), 0x100).is_ok());
    w.add_file("a.bin", vec![9; 3]);
    w.add_file("b.dat", vec![8; 5]);
    let data = w.to_binary();
    let sarc = Sarc::new(&data).unwrap();
    let off = sarc.data_offset();
    assert_eq!(off % 0x100, 0);
    assert_eq!(sarc.get_data("a.bin").unwrap().unwrap(), &[9, 9, 9]);
    assert_eq!(sarc.get_data("b.dat").unwrap().unwrap(), &[8; 5]);
    assert_eq!(sarc.guess_min_alignment(), 4);
    assert!(is_valid_alignment(1));
    assert!(is_valid_alignment(0x2000));
    assert!(!is_valid_alignment(0));
    assert!(!is_valid_alignment(12));
}

#[test]
fn empty_archive() {
    let mut w = SarcWriter::new(Endian::Big);
    let data = w.to_binary();
    assert_eq!(data.len(), 0x28);
    let sarc = Sarc::new(&data).unwrap();
    assert!(sarc.is_empty());
    assert_eq!(sarc.data_offset(), 0x28);
}

#[test]
fn is_file_sarc_checks_magic() {
    let mut w = sample_writer(Endian::Little);
    let data = w.to_binary();
    assert!(SarcWriter::is_file_sarc(&data));
    assert!(!SarcWriter::is_file_sarc(b"SARC"));
    let compressed = roead::yaz0::compress(&data);
    assert!(SarcWriter::is_file_sarc(&compressed));
    let sarc = Sarc::new(&compressed).unwrap();
    assert_eq!(sarc.len(), 3);
}

#[test]
fn reader_errors() {
    assert!(matches!(Sarc::new(b"SARC"), Err(Error::InsufficientData(4, 8))));
    let mut w = sample_writer(Endian::Little);
    let mut data = w.to_binary();
    let mut bad = data.clone();
    bad[6] = 0;
    assert!(matches!(Sarc::new(&bad), Err(Error::InvalidData("Invalid SARC byte order mark"))));
    let mut bad = data.clone();
    bad[0x10] = 2;
    assert!(matches!(Sarc::new(&bad), Err(Error::InvalidData(_))));
    data[0x1B] = 0x40;
    assert!(matches!(Sarc::new(&data), Err(Error::InvalidDataD(_))));
}

#[test]
fn file_kinds() {
    let mut inner = SarcWriter::new(Endian::Little);
    inner.add_file("x.txt", b"x".to_vec());
    let inner_data = inner.to_binary();
    let mut outer = SarcWriter::new(Endian::Little);
    outer.add_file("inner.sarc", inner_data.clone());
    outer.add_file("p.bgparamlist", b"AAMP\x02\x00\x00\x00".to_vec());
    outer.add_file("d.byml", b"BY\x00\x02".to_vec());
    let data = outer.to_binary();
    let sarc = Sarc::new(&data).unwrap();
    let f = sarc.get_file("inner.sarc").unwrap().unwrap();
    assert!(f.is_sarc());
    assert!(!f.is_compressed());
    assert_eq!(f.parse_sarc().unwrap().len(), 1);
    let p = sarc.get_file("p.bgparamlist").unwrap().unwrap();
    assert!(p.is_aamp());
    let d = sarc.get_file("d.byml").unwrap().unwrap();
    assert!(d.is_byml());
    assert!(matches!(sarc.file_at(10), Err(Error::InvalidDataD(_))));
    assert_eq!(sarc.file_at(0).unwrap().index(), 0);
}

#[test]
fn sarc_name_hash() {
    assert_eq!(hash_name(0x65, ""), 0);
    assert_eq!(hash_name(0x65, "a"), 0x61);
    assert_eq!(hash_name(0x65, "ab"), 0x61 * 0x65 + 0x62);
}

#[test]
fn with_files_adds_each_file() {
    let w = SarcWriter::new(Endian::Little).with_files(vec![
        ("a.txt".to_string(), b"one".to_vec()),
        ("b.txt".to_string(), b"two".to_vec()),
        ("a.txt".to_string(), b"three".to_vec()),
    ]);
    let mut w = w;
    let bytes = w.to_binary();
    let sarc = Sarc::new(&bytes).unwrap();
    assert_eq!(sarc.len(), 2);
    assert_eq!(sarc.get_data("a.txt").unwrap().unwrap(), b"three");
    assert_eq!(sarc.get_data("b.txt").unwrap().unwrap(), b"two");
}

#[test]
fn entries_ok_checks_every_entry() {
    let mut w = sample_writer(Endian::Little);
    let data = w.to_binary();
    let sarc = Sarc::new(&data).unwrap();
    assert!(sarc.entries_ok());
    assert!(sarc.entry_ok(0));
    let mut bad = data.clone();
    // End offset of the first entry, far past the archive.
    bad[0x2C] = 0xFF;
    bad[0x2D] = 0xFF;
    bad[0x2E] = 0xFF;
    let sarc = Sarc::new(&bad).unwrap();
    assert!(!sarc.entry_ok(0));
    assert!(!sarc.entries_ok());
    assert!(sarc.entry_ok(1));
}

#[test]
fn file_checks_on_short_data() {
    let mut w = SarcWriter::new(Endian::Little);
    w.add_file("by", b"BY".to_vec());
    w.add_file("one", vec![1]);
    w.add_file("long.bin", vec![7; 40]);
    let data = w.to_binary();
    let sarc = Sarc::new(&data).unwrap();
    assert!(sarc.entries_ok());
    let by = sarc.get_file("by").unwrap().unwrap();
    assert!(by.is_byml());
    assert!(!by.is_sarc());
    assert!(!by.is_aamp());
    assert!(!by.is_compressed());
    let one = sarc.get_file("one").unwrap().unwrap();
    assert!(!one.is_byml());
    assert!(!one.is_sarc());
    assert!(!one.is_aamp());
    assert!(!one.is_compressed());
}

#[test]
fn written_data_is_aligned_to_minimum_and_extension() {
    let mut w = SarcWriter::new(Endian::Little);
    w.set_min_alignment(0x100).unwrap();
    w.add_alignment_requirement("bin".to_string(), 0x400).unwrap();
    w.add_file("a.txt", vec![0xA1, 0xA2, 0xA3]);
    w.add_file("b.bin", vec![0xB4; 10]);
    w.add_file("c.dat", vec![0xC5; 7]);
    let data = w.to_binary();
    let sarc = Sarc::new(&data).unwrap();
    for name in ["a.txt", "b.bin", "c.dat"] {
        let f = sarc.get_file(name).unwrap().unwrap();
        let bytes = f.data();
        let pos = data.windows(bytes.len()).position(|x| x == bytes).unwrap();
        assert_eq!(pos % 0x100, 0);
        if name.ends_with(".bin") {
            assert_eq!(pos % 0x400, 0);
        }
    }
}

#[test]
fn empty_last_file_at_aligned_end_reads_back() {
    let mut w = SarcWriter::new(Endian::Little);
    w.add_file("abc", Vec::new());
    let data = w.to_binary();
    assert_eq!(data.len(), 0x3C);
    let sarc = Sarc::new(&data).unwrap();
    assert!(sarc.entries_ok());
    let f = sarc.get_file("abc").unwrap().unwrap();
    assert_eq!(f.name(), Some("abc"));
    assert!(f.data().is_empty());
}

#[test]
fn collecting_files_yields_each_in_order() {
    let mut w = sample_writer(Endian::Big);
    let data = w.to_binary();
    let sarc = Sarc::new(&data).unwrap();
    let files = sarc.files().collect_files();
    assert_eq!(files.len(), sarc.len());
    for (i, f) in files.iter().enumerate() {
        assert_eq!(f.index(), i);
        let g = sarc.file_at(i).unwrap();
        assert_eq!(f.name(), g.name());
        assert_eq!(f.data(), g.data());
    }
}
