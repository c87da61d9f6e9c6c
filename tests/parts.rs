use mswasm::codec::{read_le, write_le};
use mswasm::dispatch::{DispatchTable, FuncType};
use mswasm::guest::{add, sum};
use mswasm::segment::Segment;
use mswasm::{Handle, Tag, TagStrategy, TaggedVal, Tags, ValType};

#[test]
fn codec_reads_and_writes_little_endian() {
    let mut buf = vec![0u8; 6];
    assert_eq!(write_le(&mut buf, 1, 4, 0xDEAD_BEEF), Some(()));
    assert_eq!(buf, vec![0, 0xEF, 0xBE, 0xAD, 0xDE, 0]);
    assert_eq!(read_le(&buf, 1, 4), Some(0xDEAD_BEEF));
    assert_eq!(read_le(&buf, 3, 4), None);
    assert_eq!(write_le(&mut buf, 3, 4, 1), None);
    assert_eq!(buf, vec![0, 0xEF, 0xBE, 0xAD, 0xDE, 0]);
    assert_eq!(read_le(&buf, 6, 0), Some(0));
}

#[test]
fn per_word_tags() {
    let mut t = Tags::new(TagStrategy::PerWord, 3);
    assert_eq!(t.get(2), Some(Tag::Data));
    assert_eq!(t.update(2, Tag::Handle), Some(()));
    assert_eq!(t.get(2), Some(Tag::Handle));
    assert_eq!(t.get(1), Some(Tag::Data));
    assert_eq!(t.update(3, Tag::Handle), None);
    assert_eq!(t.get(3), None);
}

#[test]
fn packed_tags() {
    let mut t = Tags::new(TagStrategy::Packed, 130);
    assert_eq!(t.update(129, Tag::Handle), Some(()));
    assert_eq!(t.update(64, Tag::Handle), Some(()));
    assert_eq!(t.get(129), Some(Tag::Handle));
    assert_eq!(t.get(64), Some(Tag::Handle));
    assert_eq!(t.get(65), Some(Tag::Data));
    assert_eq!(t.update(64, Tag::Data), Some(()));
    assert_eq!(t.get(64), Some(Tag::Data));
    assert_eq!(t.get(129), Some(Tag::Handle));
    assert_eq!(t.get(130), None);
    assert_eq!(t.update(130, Tag::Handle), None);
}

#[test]
fn disabled_tags() {
    let mut t = Tags::new(TagStrategy::Disabled, 2);
    assert_eq!(t.get(0), Some(Tag::Handle));
    assert_eq!(t.update(0, Tag::Data), Some(()));
    assert_eq!(t.get(0), Some(Tag::Handle));
    assert_eq!(t.get(2), None);
}

#[test]
fn segment_life_cycle() {
    let mut s = Segment::allocate(TagStrategy::PerWord, 9);
    assert_eq!(s.len(), Some(9));
    assert_eq!(s.get_data().unwrap(), &[0u8; 9][..]);
    assert_eq!(s.get_mut_data(8, 1, 0x1FF), Some(()));
    assert_eq!(s.get_data().unwrap()[8], 0xFF);
    assert_eq!(s.get_mut_data(8, 2, 0), None);
    assert_eq!(s.get_mut_data_slice(0, &[1, 2, 3]), Some(()));
    assert_eq!(&s.get_data().unwrap()[..4], &[1, 2, 3, 0][..]);
    assert_eq!(s.store_handle(0, Handle::Null { offset: 0 }), Some(()));
    assert!(matches!(s.get_handle(0), Some(Handle::Null { offset: 0 })));
    s.free();
    assert_eq!(s.len(), None);
    assert!(s.get_data().is_none());
    assert!(s.get_handle(0).is_none());
    assert_eq!(s.store_handle(0, Handle::Null { offset: 0 }), None);
    assert_eq!(s.get_mut_data_slice(0, &[1]), None);
}

fn two_arg_table() -> DispatchTable {
    let mut table = DispatchTable::new(vec![
        FuncType { params: vec![], results: vec![] },
        FuncType { params: vec![ValType::I32, ValType::Handle], results: vec![ValType::I32] },
    ]);
    table.bind(7, 1);
    table.bind(2, 0);
    table
}

#[test]
fn dispatch_checks_arguments() {
    let table = two_arg_table();
    let h = Handle::Valid { base_segment_id: 1, offset: 0 };
    assert_eq!(table.indirect_call(7, &[TaggedVal::I32(3)]), None);
    assert_eq!(table.indirect_call(7, &[TaggedVal::I32(3), TaggedVal::I32(4)]), None);
    let target = table.indirect_call(7, &[TaggedVal::I32(3), TaggedVal::Handle(h)]);
    assert_eq!(target, Some(1));
    assert_eq!(table.result_types(1), Some(&vec![ValType::I32]));
}

#[test]
fn dispatch_rejects_unbound_and_out_of_range() {
    let table = two_arg_table();
    assert_eq!(table.indirect_call(2, &[]), Some(0));
    assert_eq!(table.indirect_call(3, &[]), None);
    assert_eq!(table.indirect_call(8, &[]), None);
    assert_eq!(table.indirect_call(2, &[TaggedVal::Undefined]), None);
    assert_eq!(table.result_types(2), None);
}

#[test]
fn values_and_types() {
    let h = Handle::Null { offset: 0 };
    assert_eq!(ValType::from(TaggedVal::Handle(h)), ValType::Handle);
    assert_eq!(ValType::from(TaggedVal::F64(0)), ValType::F64);
    assert_eq!(ValType::from(TaggedVal::default()), ValType::Undefined);
    assert_eq!(TaggedVal::I32(4).try_as_i32(), Some(4));
    assert_eq!(TaggedVal::I32(4).try_as_i64(), None);
    assert_eq!(TaggedVal::I64(-4).try_as_i64(), Some(-4));
    assert_eq!(TaggedVal::F32(1.5f32.to_bits()).try_as_f32(), Some(1.5f32.to_bits()));
    assert_eq!(TaggedVal::F64(2.5f64.to_bits()).try_as_f64(), Some(2.5f64.to_bits()));
    assert!(TaggedVal::Handle(h).try_as_handle().unwrap().is_eq(h));
    assert!(TaggedVal::I32(0).try_as_handle().is_none());
}

#[test]
fn guest_programs() {
    assert_eq!(sum(&[1, 2, 3, 4, 5, 6]), 21);
    assert_eq!(add(2, 2), 4);
}
