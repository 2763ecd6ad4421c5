use roead::util::u24;
use roead::Endian;

#[test]
fn test_u24_rw() {
    let num = u24(8388608);
    let le_data = b"\x00\x00\x80";
    let be_data = b"\x80\x00\x00";
    let buf = num.to_bytes(Endian::Little);
    assert_eq!(buf, le_data);
    let buf = num.to_bytes(Endian::Big);
    assert_eq!(buf, be_data);
    let num = u24::read(le_data, Endian::Little);
    assert_eq!(num.0, 8388608);
    let num = u24::read(be_data, Endian::Big);
    assert_eq!(num.0, 8388608);
}

#[test]
fn u24_mixed_bytes() {
    let n = u24(0x123456);
    assert_eq!(n.to_bytes(Endian::Little), vec![0x56, 0x34, 0x12]);
    assert_eq!(n.to_bytes(Endian::Big), vec![0x12, 0x34, 0x56]);
    assert_eq!(u24::read(&[0x56, 0x34, 0x12], Endian::Little).as_u32(), 0x123456);
}

#[test]
fn align_rounds_up() {
    assert_eq!(roead::util::align(5, 4), 8);
    assert_eq!(roead::util::align(8, 4), 8);
    assert_eq!(roead::util::align(0, 16), 0);
    assert_eq!(roead::util::align_pos(9, 8), 16);
    assert_eq!(roead::util::align_pos(9, 0), 0);
}

#[test]
fn write_at_pads_with_zeros() {
    let mut buf = vec![1u8, 2];
    roead::util::write_at(&mut buf, 4, &[9, 9]);
    assert_eq!(buf, vec![1, 2, 0, 0, 9, 9]);
    roead::util::write_at(&mut buf, 1, &[7]);
    assert_eq!(buf, vec![1, 7, 0, 0, 9, 9]);
    roead::util::write_at(&mut buf, 10, &[]);
    assert_eq!(buf.len(), 6);
}

