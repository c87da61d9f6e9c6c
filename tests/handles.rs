use mswasm::{Handle, Tag};

#[test]
fn null_arithmetic() {
    let h = Handle::Null { offset: 0 }.add(5);
    assert!(matches!(h, Some(Handle::Null { offset: 5 })));
    let back = Handle::Null { offset: 5 }.add(-5);
    assert!(matches!(back, Some(Handle::Null { offset: 0 })));
    assert!(Handle::Null { offset: 2147483647 }.add(1).is_none());
    assert!(Handle::Null { offset: -2147483648 }.sub(1).is_none());
    assert!(matches!(Handle::Null { offset: 3 }.sub(5), Some(Handle::Null { offset: -2 })));
}

#[test]
fn valid_offsets_wrap() {
    let h = Handle::Valid { base_segment_id: 3, offset: 0 };
    assert!(matches!(h.add(-1), Some(Handle::Valid { base_segment_id: 3, offset: 0xFFFF_FFFF })));
    assert!(matches!(h.sub(1), Some(Handle::Valid { base_segment_id: 3, offset: 0xFFFF_FFFF })));
    let top = Handle::Valid { base_segment_id: 3, offset: 0xFFFF_FFFF };
    assert!(matches!(top.add(2), Some(Handle::Valid { base_segment_id: 3, offset: 1 })));
    assert!(matches!(h.sub(i32::MIN), Some(Handle::Valid { base_segment_id: 3, offset: 0x8000_0000 })));
}

#[test]
fn corrupted_arithmetic_fails() {
    let c = Handle::Corrupted { bytes: [0; 8] };
    assert!(c.add(0).is_none());
    assert!(c.sub(1).is_none());
}

#[test]
fn segment_index_and_offset() {
    let v = Handle::Valid { base_segment_id: 7, offset: 40 };
    assert_eq!(v.segment_index(), Some(7));
    assert_eq!(v.segment_offset(), Some(40));
    let n = Handle::Null { offset: 12 };
    assert_eq!(n.segment_index(), None);
    assert_eq!(n.segment_offset(), Some(12));
    let c = Handle::Corrupted { bytes: [0; 8] };
    assert_eq!(c.segment_index(), None);
    assert_eq!(c.segment_offset(), None);
}

#[test]
fn valid_encoding() {
    let (bytes, tag) = Handle::Valid { base_segment_id: 0x0102_0304, offset: 0x0A0B_0C0D }.to_bytes();
    assert_eq!(bytes, [4, 3, 2, 1, 0x0D, 0x0C, 0x0B, 0x0A]);
    assert_eq!(tag, Tag::Handle);
}

#[test]
fn null_encoding_is_all_ones() {
    let (bytes, tag) = Handle::Null { offset: 0 }.to_bytes();
    assert_eq!(bytes, [0xFF; 8]);
    assert_eq!(tag, Tag::Handle);
}

#[test]
fn corrupted_encoding_is_its_bytes_as_data() {
    let (bytes, tag) = Handle::Corrupted { bytes: [9, 8, 7, 6, 5, 4, 3, 2] }.to_bytes();
    assert_eq!(bytes, [9, 8, 7, 6, 5, 4, 3, 2]);
    assert_eq!(tag, Tag::Data);
}

#[test]
fn round_trip() {
    for h in [
        Handle::Valid { base_segment_id: 1, offset: 0 },
        Handle::Valid { base_segment_id: 0xFFFF_FFFE, offset: 0xFFFF_FFFF },
        Handle::Null { offset: 0 },
        Handle::Corrupted { bytes: [0xFF; 8] },
    ] {
        let (bytes, tag) = h.to_bytes();
        assert!(Handle::from_bytes(bytes, tag).is_eq(h));
    }
}

#[test]
fn data_tag_never_decodes_as_handle() {
    let (bytes, _) = Handle::Valid { base_segment_id: 1, offset: 8 }.to_bytes();
    assert!(matches!(Handle::from_bytes(bytes, Tag::Data), Handle::Corrupted { bytes: b } if b == bytes));
}

#[test]
fn decodability() {
    assert!(Handle::is_decodable(&[0xFF; 8], Tag::Handle));
    assert!(!Handle::is_decodable(&[0xFF, 0xFF, 0xFF, 0xFF, 0, 0, 0, 0], Tag::Handle));
    assert!(Handle::is_decodable(&[0xFF, 0xFF, 0xFF, 0xFF, 0, 0, 0, 0], Tag::Data));
    assert!(Handle::Null { offset: 0 }.has_encoding());
    assert!(!Handle::Null { offset: 1 }.has_encoding());
}

#[test]
fn equality() {
    let a = Handle::Valid { base_segment_id: 1, offset: 2 };
    assert!(a.is_eq(Handle::Valid { base_segment_id: 1, offset: 2 }));
    assert!(!a.is_eq(Handle::Valid { base_segment_id: 1, offset: 3 }));
    assert!(!a.is_eq(Handle::Null { offset: 2 }));
    assert!(Handle::Null { offset: 4 }.is_eq(Handle::Null { offset: 4 }));
    let c = Handle::Corrupted { bytes: [1, 2, 3, 4, 5, 6, 7, 8] };
    assert!(c.is_eq(Handle::Corrupted { bytes: [1, 2, 3, 4, 5, 6, 7, 8] }));
    assert!(!c.is_eq(Handle::Corrupted { bytes: [1, 2, 3, 4, 5, 6, 7, 9] }));
}

#[test]
fn ordering() {
    let null = Handle::Null { offset: 0 };
    let a = Handle::Valid { base_segment_id: 1, offset: 9 };
    let b = Handle::Valid { base_segment_id: 2, offset: 0 };
    let c = Handle::Corrupted { bytes: [0; 8] };
    assert_eq!(null.is_lt(a), Some(true));
    assert_eq!(a.is_lt(null), Some(false));
    assert_eq!(a.is_lt(b), Some(true));
    assert_eq!(b.is_lt(a), Some(false));
    assert_eq!(a.is_lt(Handle::Valid { base_segment_id: 1, offset: 10 }), Some(true));
    assert_eq!(a.is_lt(a), Some(false));
    assert_eq!(Handle::Null { offset: -1 }.is_lt(null), Some(true));
    assert_eq!(c.is_lt(a), None);
    assert_eq!(a.is_lt(c), None);
}
