use libtw2::dissector::{to_guid, wireshark_version_is_abi_incompatible, Counter};

#[test]
fn counter_counts() {
    let mut c = Counter::new();
    assert!(c.is_empty());
    c.warn();
    c.warn();
    assert!(!c.is_empty());
    assert_eq!(c.count(), 2);
    let d: Counter = Default::default();
    assert!(d.is_empty());
}

#[test]
fn guid_fields_are_big_endian() {
    let bytes = [
        0xa1, 0xa2, 0xa3, 0xa4, 0xb1, 0xb2, 0xc1, 0xc2, 0xd1, 0xd2, 0xd3, 0xd4, 0xd5, 0xd6, 0xd7, 0xd8,
    ];
    let g = to_guid(bytes);
    assert_eq!(g.data1, 0xa1a2a3a4);
    assert_eq!(g.data2, 0xb1b2);
    assert_eq!(g.data3, 0xc1c2);
    assert_eq!(g.data4, [0xd1, 0xd2, 0xd3, 0xd4, 0xd5, 0xd6, 0xd7, 0xd8]);
}

#[test]
fn guid_from_parsed_uuid() {
    let u = uuid::Uuid::parse_str("e05ddaaa-c4e6-4cfb-b642-5d48e80c0029").unwrap();
    let g = to_guid(*u.as_bytes());
    assert_eq!(g.data1, 0xe05ddaaa);
    assert_eq!(g.data2, 0xc4e6);
    assert_eq!(g.data3, 0x4cfb);
    assert_eq!(g.data4, [0xb6, 0x42, 0x5d, 0x48, 0xe8, 0x0c, 0x00, 0x29]);
}

#[test]
fn wireshark_abi_check() {
    assert!(wireshark_version_is_abi_incompatible(b"4.0.4"));
    assert!(!wireshark_version_is_abi_incompatible(b"4.0.3"));
    assert!(!wireshark_version_is_abi_incompatible(b"4.0.5"));
    assert!(!wireshark_version_is_abi_incompatible(b"4.0.40"));
    assert!(!wireshark_version_is_abi_incompatible(b""));
}

#[test]
fn counter_empty_exactly_without_warnings() {
    for n in 0..5u64 {
        let mut c = Counter::new();
        for _ in 0..n {
            c.warn();
        }
        assert_eq!(c.count(), n);
        assert_eq!(c.is_empty(), n == 0);
        assert_eq!(c.is_empty(), n == 0);
    }
}
