use mswasm::{Handle, Tag, TagStrategy, WasmModule};

fn base_of(h: Option<Handle>) -> (u32, u32) {
    match h {
        Some(Handle::Valid { base_segment_id, offset }) => (base_segment_id, offset),
        other => panic!("expected a valid handle, got {:?}", other),
    }
}

#[test]
fn first_segment_gets_identifier_one() {
    let mut m = WasmModule::new(TagStrategy::PerWord, 0);
    assert_eq!(base_of(m.new_segment(16)), (1, 0));
    assert_eq!(base_of(m.new_segment(3)), (2, 0));
}

#[test]
fn new_segment_is_zeroed() {
    let mut m = WasmModule::new(TagStrategy::PerWord, 0);
    let a = m.new_segment(12).unwrap();
    assert_eq!(m.read_bytes(a, 12), Some(vec![0u8; 12]));
    assert_eq!(m.read_bytes(a, 13), None);
}

#[test]
fn store_load_then_plain_write_corrupts() {
    let mut m = WasmModule::new(TagStrategy::PerWord, 0);
    let a = m.new_segment(16).unwrap();
    let a0 = a.add(0).unwrap();
    assert_eq!(m.store_handle(a0, a0), Some(()));
    let got = m.get_handle(a0).unwrap();
    assert!(got.is_eq(a0));
    assert_eq!(m.write_mem(a0, 1, 0xFF), Some(()));
    let got = m.get_handle(a0).unwrap();
    assert!(matches!(got, Handle::Corrupted { bytes: [0xFF, 0, 0, 0, 0, 0, 0, 0] }));
    assert!(!got.is_eq(a0));
}

#[test]
fn plain_write_corrupts_under_packed_tags() {
    let mut m = WasmModule::new(TagStrategy::Packed, 0);
    let a = m.new_segment(24).unwrap();
    let slot = a.add(8).unwrap();
    assert_eq!(m.store_handle(slot, a), Some(()));
    assert!(m.get_handle(slot).unwrap().is_eq(a));
    // A write that overlaps the slot only by its last byte still demotes it.
    assert_eq!(m.write_mem(a.add(7).unwrap(), 2, 0), Some(()));
    assert!(matches!(m.get_handle(slot), Some(Handle::Corrupted { .. })));
}

#[test]
fn write_beside_a_handle_keeps_it() {
    let mut m = WasmModule::new(TagStrategy::PerWord, 0);
    let a = m.new_segment(24).unwrap();
    let slot = a.add(8).unwrap();
    assert_eq!(m.store_handle(slot, a), Some(()));
    assert_eq!(m.write_mem(a, 8, u64::MAX), Some(()));
    assert_eq!(m.write_mem(a.add(16).unwrap(), 4, 7), Some(()));
    assert!(m.get_handle(slot).unwrap().is_eq(a));
}

#[test]
fn bulk_write_demotes_every_word_it_touches() {
    let mut m = WasmModule::new(TagStrategy::PerWord, 0);
    let a = m.new_segment(32).unwrap();
    let s1 = a.add(8).unwrap();
    let s2 = a.add(16).unwrap();
    assert_eq!(m.store_handle(s1, a), Some(()));
    assert_eq!(m.store_handle(s2, a), Some(()));
    // Bytes 4..=16: the last byte lies in the second slot.
    assert_eq!(m.write_bytes(a.add(4).unwrap(), &[1u8; 13]), Some(()));
    assert!(matches!(m.get_handle(s1), Some(Handle::Corrupted { .. })));
    assert!(matches!(m.get_handle(s2), Some(Handle::Corrupted { .. })));
}

#[test]
fn handle_store_needs_alignment() {
    let mut m = WasmModule::new(TagStrategy::PerWord, 0);
    let a = m.new_segment(16).unwrap();
    let a1 = a.add(1).unwrap();
    assert_eq!(m.store_handle(a1, a), None);
    assert!(m.get_handle(a1).is_none());
    assert_eq!(m.write_mem(a1, 1, 5), Some(()));
    assert_eq!(m.read_mem(a1, 1), Some(5));
}

#[test]
fn handle_store_needs_a_whole_word() {
    let mut m = WasmModule::new(TagStrategy::PerWord, 0);
    let a = m.new_segment(12).unwrap();
    assert_eq!(m.store_handle(a.add(8).unwrap(), a), None);
    assert_eq!(m.store_handle(a, a), Some(()));
}

#[test]
fn non_base_free_rejected() {
    let mut m = WasmModule::new(TagStrategy::PerWord, 0);
    let base = m.new_segment(16).unwrap();
    let inner = base.add(8).unwrap();
    assert_eq!(m.free_segment(inner), None);
    assert_eq!(m.write_mem(inner, 4, 1), Some(()));
    assert_eq!(m.free_segment(base), Some(()));
}

#[test]
fn free_rejects_null_and_corrupted() {
    let mut m = WasmModule::new(TagStrategy::PerWord, 0);
    assert_eq!(m.free_segment(Handle::Null { offset: 0 }), None);
    assert_eq!(m.free_segment(Handle::Corrupted { bytes: [1, 0, 0, 0, 0, 0, 0, 0] }), None);
    assert_eq!(m.free_segment(Handle::Valid { base_segment_id: 9, offset: 0 }), None);
}

#[test]
fn free_then_use_fails() {
    let mut m = WasmModule::new(TagStrategy::PerWord, 0);
    let a = m.new_segment(32).unwrap();
    let inner = a.add(8).unwrap();
    assert_eq!(m.store_handle(inner, a), Some(()));
    assert_eq!(m.free_segment(a), Some(()));
    assert_eq!(m.read_mem(a, 4), None);
    assert_eq!(m.write_mem(a, 4, 1), None);
    assert_eq!(m.read_mem(inner, 1), None);
    assert!(m.get_handle(inner).is_none());
    assert_eq!(m.store_handle(inner, a), None);
    assert_eq!(m.read_bytes(a, 1), None);
    assert_eq!(m.write_bytes(inner, &[1, 2]), None);
    // A later allocation never brings the identifier back.
    let b = m.new_segment(32).unwrap();
    assert_eq!(base_of(Some(b)), (2, 0));
    assert_eq!(m.read_mem(a, 4), None);
}

#[test]
fn access_outside_segment_fails() {
    let mut m = WasmModule::new(TagStrategy::PerWord, 0);
    let a = m.new_segment(10).unwrap();
    assert_eq!(m.write_mem(a.add(6).unwrap(), 4, 1), Some(()));
    assert_eq!(m.write_mem(a.add(7).unwrap(), 4, 1), None);
    assert_eq!(m.read_mem(a.add(7).unwrap(), 4), None);
    assert_eq!(m.read_mem(a.add(-1).unwrap(), 1), None);
    assert_eq!(m.read_mem(Handle::Null { offset: 0 }, 1), None);
}

#[test]
fn plain_values_are_little_endian() {
    let mut m = WasmModule::new(TagStrategy::PerWord, 0);
    let a = m.new_segment(16).unwrap();
    assert_eq!(m.write_mem(a, 4, 0x1234_5678), Some(()));
    assert_eq!(m.read_bytes(a, 4), Some(vec![0x78, 0x56, 0x34, 0x12]));
    assert_eq!(m.read_mem(a, 2), Some(0x5678));
    assert_eq!(m.read_mem(a.add(1).unwrap(), 2), Some(0x3456));
    // Only the low `width` bytes of the value are written.
    assert_eq!(m.write_mem(a.add(8).unwrap(), 2, 0xABCD_EF01), Some(()));
    assert_eq!(m.read_mem(a.add(8).unwrap(), 8), Some(0xEF01));
}

#[test]
fn stored_handle_bytes_are_its_encoding() {
    let mut m = WasmModule::new(TagStrategy::PerWord, 0);
    let a = m.new_segment(16).unwrap();
    let target = a.add(0x0102).unwrap();
    assert_eq!(m.store_handle(a.add(8).unwrap(), target), Some(()));
    assert_eq!(m.read_bytes(a.add(8).unwrap(), 8), Some(vec![1, 0, 0, 0, 2, 1, 0, 0]));
}

#[test]
fn storing_null_reads_back_null() {
    let mut m = WasmModule::new(TagStrategy::PerWord, 0);
    let a = m.new_segment(16).unwrap();
    assert_eq!(m.store_handle(a, Handle::Null { offset: 0 }), Some(()));
    assert!(matches!(m.get_handle(a), Some(Handle::Null { offset: 0 })));
    assert_eq!(m.store_handle(a, Handle::Null { offset: 4 }), None);
}

#[test]
fn storing_corrupted_pattern_stays_corrupted() {
    let mut m = WasmModule::new(TagStrategy::PerWord, 0);
    let a = m.new_segment(16).unwrap();
    let forged = Handle::Corrupted { bytes: [1, 0, 0, 0, 0, 0, 0, 0] };
    assert_eq!(m.store_handle(a, forged), Some(()));
    assert!(m.get_handle(a).unwrap().is_eq(forged));
}

#[test]
fn disabled_tags_read_data_as_handles() {
    let mut m = WasmModule::new(TagStrategy::Disabled, 0);
    let a = m.new_segment(16).unwrap();
    assert_eq!(m.write_mem(a, 4, 1), Some(()));
    assert!(m.get_handle(a).unwrap().is_eq(Handle::Valid { base_segment_id: 1, offset: 0 }));
    // The sentinel segment with a non-sentinel offset does not decode.
    assert_eq!(m.write_mem(a.add(8).unwrap(), 4, 0xFFFF_FFFF), Some(()));
    assert!(m.get_handle(a.add(8).unwrap()).is_none());
}

#[test]
fn tag_strategy_is_kept() {
    let m = WasmModule::new(TagStrategy::Packed, 0);
    assert_eq!(m.tag_strategy(), TagStrategy::Packed);
    assert!(Tag::Handle.can_be_handle());
    assert!(!Tag::Data.can_be_handle());
}

#[test]
fn fresh_slot_reads_as_zero_pattern() {
    let mut m = WasmModule::new(TagStrategy::Packed, 0);
    let a = m.new_segment(16).unwrap();
    assert!(matches!(m.get_handle(a.add(8).unwrap()), Some(Handle::Corrupted { bytes: [0, 0, 0, 0, 0, 0, 0, 0] })));
}

#[test]
fn sentinel_segment_handle_is_not_stored() {
    let mut m = WasmModule::new(TagStrategy::PerWord, 0);
    let a = m.new_segment(16).unwrap();
    let bogus = Handle::Valid { base_segment_id: 0xFFFF_FFFF, offset: 4 };
    assert_eq!(m.store_handle(a, bogus), None);
    assert!(!bogus.names_a_segment_id());
    assert!(a.names_a_segment_id());
}
