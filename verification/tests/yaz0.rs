use roead::yaz0::{
    compress, compress_if, compress_if_extension, compress_with_level, compress_with_options, decompress, decompress_if,
    decompress_into, get_header, CompressOptions, YazData,
};
use roead::Error;

#[test]
fn condition_test() {
    let data = b"Some random data";
    let same_data = b"Some random data";
    let compressed =
        b"Yaz0\x00\x00\x00\x10\x00\x00\x00\x00\x00\x00\x00\x00\xffSome ran\xffdom data\xff";
    assert_eq!(decompress_if(&compressed[..]).as_slice(), &data[..]);
    assert_eq!(decompress_if(&same_data[..]).as_slice(), &data[..]);
    assert_eq!(compress_if(&data[..], "Test/File.ssarc").as_slice(), &compressed[..]);
    assert_eq!(compress_if(&data[..], "Test/File.sarc").as_slice(), &same_data[..]);
}

#[test]
fn test_unchecked() {
    let data = b"Nothing you have not given away will ever really be yours.";
    let compressed = compress(data);
    let mut buffer = vec![0; data.len()];
    let size = decompress_into(&compressed, &mut buffer).unwrap();
    assert_eq!(data.as_slice(), &buffer[..size]);
}

#[test]
fn roundtrip_repetitive_data() {
    let mut data = Vec::new();
    for i in 0..2000u32 {
        data.extend_from_slice(b"abcabcabc");
        data.push((i % 7) as u8);
    }
    let c = compress(&data);
    assert!(c.len() < data.len());
    assert_eq!(decompress(&c).unwrap(), data);
}

#[test]
fn roundtrip_empty_and_tiny() {
    for data in [&b""[..], &b"a"[..], &b"aaaaaaaaaaaaaaaaaaaaaaaaaaaaaa"[..]] {
        let c = compress(data);
        // Padded to the minimum length before decompression.
        let mut padded = c.clone();
        while padded.len() < 0x16 {
            padded.push(0);
        }
        assert_eq!(decompress(&padded).unwrap(), data);
    }
}

#[test]
fn header_fields() {
    let c = compress_with_options(
        b"hello hello hello hello",
        CompressOptions { alignment: 0x20, compression_level: 9 },
    );
    let h = get_header(&c).unwrap();
    assert_eq!(&h.magic, b"Yaz0");
    assert_eq!(h.uncompressed_size, 23);
    assert_eq!(h.data_alignment, 0x20);
    assert!(get_header(b"short").is_none());
}

#[test]
fn levels_give_the_same_stream() {
    let data = b"level level level level level";
    let a = compress_with_level(data, 6).unwrap();
    let b = compress_with_level(data, 9).unwrap();
    assert_eq!(a, b);
    assert_eq!(a, compress(data));
    let d = CompressOptions::default();
    assert_eq!(d.alignment, 0);
    assert_eq!(d.compression_level, 7);
}

#[test]
fn decompress_errors() {
    assert!(matches!(decompress(b"Yaz0"), Err(Error::InsufficientData(4, 0x16))));
    let bad = b"Yaz1\x00\x00\x00\x10\x00\x00\x00\x00\x00\x00\x00\x00\xffSome ran";
    match decompress(&bad[..]) {
        Err(Error::BadMagic(found, expected)) => {
            assert_eq!(found, "Yaz1");
            assert_eq!(expected, "Yaz0");
        }
        _ => panic!("expected a magic error"),
    }
    // The stream ends before the data does.
    let truncated = b"Yaz0\x00\x00\x01\x00\x00\x00\x00\x00\x00\x00\x00\x00\xffSome ra";
    assert!(matches!(decompress(&truncated[..]), Err(Error::InvalidData(_))));
    let mut small = vec![0u8; 4];
    let c = compress(b"Some random data");
    assert!(matches!(decompress_into(&c, &mut small), Err(Error::InsufficientData(4, 16))));
}

#[test]
fn decompress_if_keeps_bad_data() {
    let truncated = b"Yaz0\x00\x00\x01\x00\x00\x00\x00\x00\x00\x00\x00\x00\xffSome ra";
    match decompress_if(&truncated[..]) {
        YazData::Borrowed(b) => assert_eq!(b, &truncated[..]),
        YazData::Owned(_) => panic!("expected the input back"),
    }
}

#[test]
fn compress_if_extensions() {
    let data = b"abc";
    assert!(matches!(compress_if(data, "x/y.sbyml"), YazData::Owned(_)));
    assert!(matches!(compress_if(data, "x/y.byml"), YazData::Borrowed(_)));
    assert!(matches!(compress_if(data, "x/y"), YazData::Borrowed(_)));
    assert!(matches!(compress_if(data, "x/y.sarc"), YazData::Borrowed(_)));
}

#[test]
fn compress_matches_default_options() {
    let data = b"Some random data Some random data Some random data";
    let a = compress(data);
    assert_eq!(a, compress_with_options(data, CompressOptions::default()));
    assert_eq!(a, compress_with_level(data, 7).unwrap());
    assert!(a.len() < 16 + data.len());
    let out = decompress(&a).unwrap();
    assert_eq!(out.len() as u32, get_header(&a).unwrap().uncompressed_size);
    assert_eq!(out, data);
}

#[test]
fn compress_exact_stream() {
    let compressed =
        b"Yaz0\x00\x00\x00\x10\x00\x00\x00\x00\x00\x00\x00\x00\xffSome ran\xffdom data\xff";
    assert_eq!(compress(b"Some random data"), compressed.to_vec());
    assert_eq!(compressed.len(), 35);
}

#[test]
fn compress_if_by_extension() {
    let data = b"Some random data";
    let compressed =
        b"Yaz0\x00\x00\x00\x10\x00\x00\x00\x00\x00\x00\x00\x00\xffSome ran\xffdom data\xff";
    assert_eq!(compress_if_extension(data, Some("ssarc")).as_slice(), &compressed[..]);
    assert_eq!(compress_if_extension(data, Some("sarc")).as_slice(), &data[..]);
    assert_eq!(compress_if_extension(data, Some("")).as_slice(), &data[..]);
    assert_eq!(compress_if_extension(data, None).as_slice(), &data[..]);
    assert_eq!(compress_if(data, "no_extension").as_slice(), &data[..]);
}
