use mswasm::codec::read_le;
use mswasm::host::iovec_buffer;
use mswasm::{Handle, TagStrategy, TaggedVal, WasmModule};

#[test]
fn collect_memory_copies_segment_and_offset() {
    let mut m = WasmModule::new(TagStrategy::PerWord, 0);
    let a = m.new_segment(8).unwrap();
    assert_eq!(m.write_mem(a.add(2).unwrap(), 1, 9), Some(()));
    let (bytes, off) = m.collect_memory(a.add(5).unwrap()).unwrap();
    assert_eq!(bytes, vec![0, 0, 9, 0, 0, 0, 0, 0]);
    assert_eq!(off, 5);
    assert!(m.collect_memory(Handle::Null { offset: 0 }).is_none());
    assert!(m.collect_memory(a.add(-1).unwrap()).is_none());
}

#[test]
fn restore_memory_demotes_only_changed_words() {
    let mut m = WasmModule::new(TagStrategy::PerWord, 0);
    let a = m.new_segment(24).unwrap();
    let s0 = a;
    let s1 = a.add(8).unwrap();
    assert_eq!(m.store_handle(s0, a), Some(()));
    assert_eq!(m.store_handle(s1, a), Some(()));
    let (mut bytes, _) = m.collect_memory(a).unwrap();
    bytes[20] = 7;
    bytes[9] = bytes[9] ^ 1;
    assert_eq!(m.restore_memory(a, &bytes), Some(()));
    assert!(m.get_handle(s0).unwrap().is_eq(a));
    assert!(matches!(m.get_handle(s1), Some(Handle::Corrupted { .. })));
    assert_eq!(m.read_mem(a.add(20).unwrap(), 1), Some(7));
    assert_eq!(m.restore_memory(a, &bytes[..23]), None);
}

#[test]
fn store_args_scatters_pointers_and_strings() {
    let mut m = WasmModule::new(TagStrategy::PerWord, 0);
    let argv = m.new_segment(16).unwrap();
    let buf = m.new_segment(8).unwrap();
    // Two arguments, "ab\0" and "c\0", laid out after three pointers.
    let start: u32 = 12;
    let mut flat = Vec::new();
    flat.extend_from_slice(&start.to_le_bytes());
    flat.extend_from_slice(&(start + 3).to_le_bytes());
    flat.extend_from_slice(&0u32.to_le_bytes());
    flat.extend_from_slice(b"ab\0c\0");
    assert_eq!(m.store_args(argv, buf, &flat, 2, 5), Some(()));
    assert!(m.get_handle(argv).unwrap().is_eq(buf));
    assert!(m.get_handle(argv.add(8).unwrap()).unwrap().is_eq(buf.add(3).unwrap()));
    assert_eq!(m.read_bytes(buf, 5), Some(b"ab\0c\0".to_vec()));
}

#[test]
fn store_args_fails_without_room() {
    let mut m = WasmModule::new(TagStrategy::PerWord, 0);
    let argv = m.new_segment(8).unwrap();
    let buf = m.new_segment(8).unwrap();
    let mut flat = Vec::new();
    flat.extend_from_slice(&12u32.to_le_bytes());
    flat.extend_from_slice(&13u32.to_le_bytes());
    flat.extend_from_slice(&0u32.to_le_bytes());
    flat.extend_from_slice(b"a\0b\0");
    // Two pointers need 16 bytes at `argv`.
    assert_eq!(m.store_args(argv, buf, &flat, 2, 4), None);
}

#[test]
fn iovec_buffer_layout() {
    let parts = vec![b"hi".to_vec(), vec![], b"abc".to_vec()];
    let buf = iovec_buffer(&parts).unwrap();
    let ds: u64 = 8 * 3 + 4;
    assert_eq!(buf.len(), 28 + 5 + 4);
    assert_eq!(read_le(&buf, 0, 4), Some(ds));
    assert_eq!(read_le(&buf, 4, 4), Some(2));
    assert_eq!(read_le(&buf, 8, 4), Some(ds + 2));
    assert_eq!(read_le(&buf, 12, 4), Some(0));
    assert_eq!(read_le(&buf, 16, 4), Some(ds + 2));
    assert_eq!(read_le(&buf, 20, 4), Some(3));
    assert_eq!(read_le(&buf, 24, 4), Some(0));
    assert_eq!(&buf[28..33], b"hiabc");
    assert_eq!(&buf[33..], &[0, 0, 0, 0]);
}

#[test]
fn gather_iovecs_reads_through_handles() {
    let mut m = WasmModule::new(TagStrategy::PerWord, 0);
    let iovs = m.new_segment(32).unwrap();
    let text = m.new_segment(16).unwrap();
    assert_eq!(m.write_bytes(text, b"Hello, World!"), Some(()));
    assert_eq!(m.store_handle(iovs, text), Some(()));
    assert_eq!(m.write_mem(iovs.add(8).unwrap(), 4, 5), Some(()));
    assert_eq!(m.store_handle(iovs.add(16).unwrap(), text.add(7).unwrap()), Some(()));
    assert_eq!(m.write_mem(iovs.add(24).unwrap(), 4, 6), Some(()));
    let buf = m.gather_iovecs(iovs, 2).unwrap();
    assert_eq!(buf.len(), 20 + 11 + 4);
    assert_eq!(read_le(&buf, 0, 4), Some(20));
    assert_eq!(read_le(&buf, 8, 4), Some(25));
    assert_eq!(&buf[20..31], b"HelloWorld!");
    assert_eq!(m.gather_iovecs(iovs, 0).unwrap(), vec![0u8; 8]);
    assert_eq!(m.gather_iovecs(iovs, -3).unwrap(), vec![0u8; 8]);
}

#[test]
fn gather_iovecs_refuses_forged_pointers() {
    let mut m = WasmModule::new(TagStrategy::PerWord, 0);
    let iovs = m.new_segment(16).unwrap();
    let text = m.new_segment(16).unwrap();
    assert_eq!(m.store_handle(iovs, text), Some(()));
    assert_eq!(m.write_mem(iovs.add(8).unwrap(), 4, 4), Some(()));
    assert!(m.gather_iovecs(iovs, 1).is_some());
    // Overwriting the handle's bytes with the same value still demotes it.
    assert_eq!(m.write_mem(iovs, 4, 2), Some(()));
    assert!(m.gather_iovecs(iovs, 1).is_none());
    // A zero-length entry needs no readable target bytes, but its handle
    // slot must still decode.
    assert_eq!(m.write_mem(iovs.add(8).unwrap(), 4, 0), Some(()));
    assert_eq!(m.gather_iovecs(iovs, 1).unwrap(), vec![12, 0, 0, 0, 0, 0, 0, 0, 0, 0, 0, 0, 0, 0, 0, 0]);
}

#[test]
fn globals() {
    let mut m = WasmModule::new(TagStrategy::PerWord, 2);
    assert!(matches!(m.global(1), Some(TaggedVal::Undefined)));
    assert!(m.global(2).is_none());
    assert_eq!(m.set_global(0, TaggedVal::I32(7)), Some(()));
    assert!(matches!(m.global(0), Some(TaggedVal::I32(7))));
    assert_eq!(m.set_global(2, TaggedVal::I32(7)), None);
}
