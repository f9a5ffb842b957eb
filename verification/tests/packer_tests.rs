use libtw2::packer::{pack_int, positive, IntOutOfRange, IntUnpacker, Packer, UnexpectedEnd, Unpacker, Warning};

fn read_one(bytes: &[u8]) -> (Result<i32, UnexpectedEnd>, Vec<Warning>, Vec<u8>) {
    let mut p = Unpacker::new(bytes);
    let mut warn = Vec::new();
    let r = p.read_int(&mut warn);
    (r, warn, p.as_slice().to_vec())
}

#[test]
fn pack_small_values() {
    assert_eq!(pack_int(0), vec![0x00]);
    assert_eq!(pack_int(1), vec![0x01]);
    assert_eq!(pack_int(63), vec![0x3f]);
    assert_eq!(pack_int(-1), vec![0x40]);
    assert_eq!(pack_int(-64), vec![0x7f]);
}

#[test]
fn pack_multi_byte_values() {
    assert_eq!(pack_int(64), vec![0x80, 0x01]);
    assert_eq!(pack_int(-65), vec![0xc0, 0x01]);
    assert_eq!(pack_int(8191), vec![0xbf, 0x7f]);
    assert_eq!(pack_int(8192), vec![0x80, 0x80, 0x01]);
    assert_eq!(pack_int(i32::MAX), vec![0xbf, 0xff, 0xff, 0xff, 0x0f]);
    assert_eq!(pack_int(i32::MIN), vec![0xff, 0xff, 0xff, 0xff, 0x0f]);
}

#[test]
fn read_gives_back_what_was_packed() {
    for &v in &[0, 1, -1, 63, 64, -64, -65, 1000, -1000, 123456789, -123456789, i32::MAX, i32::MIN] {
        let mut bytes = pack_int(v);
        let packed_len = bytes.len();
        bytes.extend_from_slice(&[0x12, 0x34]);
        let (r, warn, rest) = read_one(&bytes);
        assert_eq!(r, Ok(v));
        assert!(warn.is_empty());
        assert_eq!(rest, vec![0x12, 0x34]);
        assert!(packed_len >= 1 && packed_len <= 5);
    }
}

#[test]
fn read_overlong_encoding_warns() {
    let (r, warn, rest) = read_one(&[0x80, 0x00]);
    assert_eq!(r, Ok(0));
    assert_eq!(warn, vec![Warning::OverlongIntEncoding]);
    assert!(rest.is_empty());
}

#[test]
fn read_non_zero_padding_warns() {
    let (r, warn, _) = read_one(&[0x80, 0x80, 0x80, 0x80, 0x10]);
    assert_eq!(r, Ok(i32::MIN));
    assert_eq!(warn, vec![Warning::NonZeroIntPadding]);
}

#[test]
fn read_padding_and_overlong_in_order() {
    let (r, warn, _) = read_one(&[0x80, 0x80, 0x80, 0x80, 0x00]);
    assert_eq!(r, Ok(0));
    assert_eq!(warn, vec![Warning::OverlongIntEncoding]);
    let (_, warn, _) = read_one(&[0x80, 0x80, 0x80, 0x80, 0x80]);
    assert_eq!(warn, vec![Warning::NonZeroIntPadding]);
}

#[test]
fn read_stops_after_five_bytes() {
    let (r, _, rest) = read_one(&[0x81, 0x80, 0x80, 0x80, 0x01, 0x07]);
    assert_eq!(r, Ok(1 + (1 << 27)));
    assert_eq!(rest, vec![0x07]);
}

#[test]
fn read_unexpected_end() {
    let (r, warn, rest) = read_one(&[]);
    assert_eq!(r, Err(UnexpectedEnd));
    assert!(warn.is_empty());
    assert!(rest.is_empty());
    let (r, _, rest) = read_one(&[0x80, 0x80]);
    assert_eq!(r, Err(UnexpectedEnd));
    assert!(rest.is_empty());
}

#[test]
fn packer_writes_within_capacity() {
    let mut p = Packer::new(3);
    assert!(p.write_int(64).is_ok());
    assert_eq!(p.written(), &[0x80, 0x01]);
    assert!(p.write_int(64).is_err());
    assert_eq!(p.written(), &[0x80, 0x01]);
    assert!(p.write_int(-1).is_ok());
    assert_eq!(p.into_written(), vec![0x80, 0x01, 0x40]);
}

#[test]
fn int_unpacker_reads_in_order() {
    let data = [7, -3];
    let mut p = IntUnpacker::new(&data);
    assert_eq!(p.read_int(), Ok(7));
    assert_eq!(p.read_int(), Ok(-3));
    assert_eq!(p.read_int(), Err(UnexpectedEnd));
}

#[test]
fn positive_accepts_non_negative() {
    assert_eq!(positive(0), Ok(0));
    assert_eq!(positive(5), Ok(5));
    assert_eq!(positive(-1), Err(IntOutOfRange));
}

#[test]
fn pack_gives_back_warning_free_bytes() {
    for bytes in [vec![0x00], vec![0x7f], vec![0x80, 0x01], vec![0xc5, 0x7f], vec![0xbf, 0xff, 0xff, 0xff, 0x0f]] {
        let (r, warn, rest) = read_one(&bytes);
        assert!(warn.is_empty());
        assert!(rest.is_empty());
        assert_eq!(pack_int(r.unwrap()), bytes);
    }
}
