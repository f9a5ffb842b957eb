use libtw2::format::{key, key_to_id, key_to_type_id, DeltaHeader, Error, Item, SnapHeader, Warning};
use libtw2::packer::{self, IntUnpacker, Packer, Unpacker};

#[test]
fn key_parts() {
    assert_eq!(key(1, 2), 0x0001_0002);
    assert_eq!(key(0xffff, 0xffff), -1);
    assert_eq!(key(0x8000, 0), i32::MIN);
    assert_eq!(key_to_type_id(0x0001_0002), 1);
    assert_eq!(key_to_id(0x0001_0002), 2);
    assert_eq!(key_to_type_id(-1), 0xffff);
    assert_eq!(key_to_id(-1), 0xffff);
    assert_eq!(key_to_type_id(i32::MIN), 0x8000);
    assert_eq!(key_to_id(i32::MIN), 0);
}

#[test]
fn key_split_join_roundtrip() {
    for &k in &[0, 1, -1, 12345678, -12345678, i32::MAX, i32::MIN] {
        assert_eq!(key(key_to_type_id(k), key_to_id(k)), k);
    }
    for &(t, i) in &[(0u16, 0u16), (1, 65535), (65535, 1), (40000, 30000)] {
        let k = key(t, i);
        assert_eq!(key_to_type_id(k), t);
        assert_eq!(key_to_id(k), i);
    }
}

#[test]
fn item_from_key_keeps_key() {
    let data = [1, 2, 3];
    let item = Item::from_key(-5, &data);
    assert_eq!(item.type_id, 0xffff);
    assert_eq!(item.id, 0xfffb);
    assert_eq!(item.data, &data[..]);
    assert_eq!(item.key(), -5);
}

#[test]
fn warning_from_packer_warning() {
    let w: Warning = packer::Warning::OverlongIntEncoding.into();
    assert_eq!(w, Warning::Packer(packer::Warning::OverlongIntEncoding));
}

#[test]
fn snap_header_decode() {
    let bytes = [0x80, 0x01, 0x05, 0x09];
    let mut p = Unpacker::new(&bytes);
    let mut warn = Vec::new();
    let h = SnapHeader::decode(&mut warn, &mut p).unwrap();
    assert_eq!(h, SnapHeader { data_size: 64, num_items: 5 });
    assert!(warn.is_empty());
    assert_eq!(p.as_slice(), &[0x09]);
}

#[test]
fn snap_header_decode_errors() {
    let mut warn = Vec::new();
    let bytes = [0x40, 0x05];
    let mut p = Unpacker::new(&bytes);
    assert_eq!(SnapHeader::decode(&mut warn, &mut p), Err(Error::IntOutOfRange));
    assert_eq!(p.as_slice(), &[0x05]);
    let bytes = [0x05];
    let mut p = Unpacker::new(&bytes);
    assert_eq!(SnapHeader::decode(&mut warn, &mut p), Err(Error::UnexpectedEnd));
    assert!(warn.is_empty());
}

#[test]
fn snap_header_decode_passes_packer_warnings() {
    let bytes = [0x80, 0x00, 0x02];
    let mut p = Unpacker::new(&bytes);
    let mut warn = Vec::new();
    let h = SnapHeader::decode(&mut warn, &mut p).unwrap();
    assert_eq!(h, SnapHeader { data_size: 0, num_items: 2 });
    assert_eq!(warn, vec![Warning::Packer(packer::Warning::OverlongIntEncoding)]);
}

#[test]
fn snap_header_decode_obj() {
    let ints = [10, 20, 30];
    let mut p = IntUnpacker::new(&ints);
    assert_eq!(SnapHeader::decode_obj(&mut p), Ok(SnapHeader { data_size: 10, num_items: 20 }));
    assert_eq!(p.read_int(), Ok(30));
    let ints = [10, -20];
    let mut p = IntUnpacker::new(&ints);
    assert_eq!(SnapHeader::decode_obj(&mut p), Err(Error::IntOutOfRange));
    let ints = [10];
    let mut p = IntUnpacker::new(&ints);
    assert_eq!(SnapHeader::decode_obj(&mut p), Err(Error::UnexpectedEnd));
}

#[test]
fn delta_header_encode() {
    let h = DeltaHeader { num_deleted_items: 3, num_updated_items: 64 };
    assert_eq!(h.encode(Packer::new(16)), Ok(vec![0x03, 0x80, 0x01, 0x00]));
    assert!(h.encode(Packer::new(3)).is_err());
}

#[test]
fn delta_header_roundtrip() {
    let h = DeltaHeader { num_deleted_items: 1000, num_updated_items: 0 };
    let mut bytes = h.encode(Packer::new(64)).unwrap();
    bytes.push(0x2a);
    let mut p = Unpacker::new(&bytes);
    let mut warn = Vec::new();
    assert_eq!(DeltaHeader::decode(&mut warn, &mut p), Ok(h));
    assert!(warn.is_empty());
    assert_eq!(p.as_slice(), &[0x2a]);
}

#[test]
fn delta_header_non_zero_padding() {
    let bytes = [0x01, 0x02, 0x03];
    let mut p = Unpacker::new(&bytes);
    let mut warn = Vec::new();
    let h = DeltaHeader::decode(&mut warn, &mut p).unwrap();
    assert_eq!(h, DeltaHeader { num_deleted_items: 1, num_updated_items: 2 });
    assert_eq!(warn, vec![Warning::NonZeroPadding]);
}

#[test]
fn delta_header_missing_padding() {
    let bytes = [0x01, 0x02];
    let mut p = Unpacker::new(&bytes);
    let mut warn = Vec::new();
    assert_eq!(DeltaHeader::decode(&mut warn, &mut p), Err(Error::UnexpectedEnd));
    let bytes = [0x01, 0x42, 0x00];
    let mut p = Unpacker::new(&bytes);
    assert_eq!(DeltaHeader::decode(&mut warn, &mut p), Err(Error::IntOutOfRange));
}
