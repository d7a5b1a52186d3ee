use serde_device_tree::node::split_name;
use serde_device_tree::pointer::Pointer;
use serde_device_tree::string_block::StringBlock;
use serde_device_tree::compatible::Compatible;
use serde_device_tree::error::{Error, ErrorType};
use serde_device_tree::matrix::Matrix;
use serde_device_tree::riscv_pmu::{EventToMhpmcounters, EventToMhpmevent, RawEventToMhpcounters};
use serde_device_tree::str_seq::StrSeq;

fn be(ws: &[u32]) -> Vec<u8> {
    ws.iter().flat_map(|w| w.to_be_bytes()).collect()
}

#[test]
fn matrix_base_ser_test() {
    let data = be(&[0xdeadbeef; 16]);
    let m = Matrix::<4>::new(&data, 0).unwrap();
    assert_eq!(Matrix::<4>::get_block_size(), 16);
    assert_eq!(m.len(), 4);
    assert!(!m.is_empty());
    let mut count = 0;
    let mut it = m.iter();
    while let Some(row) = it.next() {
        for c in row.chunks(4) {
            assert_eq!(u32::from_be_bytes([c[0], c[1], c[2], c[3]]), 0xdeadbeef);
            count += 1;
        }
    }
    assert_eq!(count, 16);
    assert_eq!(m.get(1).len(), 16);
    assert_eq!(m.cell(3, 2), 0xdeadbeef);
}

#[test]
fn matrix_rejects_partial_rows() {
    let data = be(&[1, 2, 3, 4, 5]);
    match Matrix::<4>::new(&data, 12) {
        Err(Error::Typed { error_type: ErrorType::InvalidSerdeTypeLength { expected_length: 4 }, file_index: 12 }) => {}
        _ => panic!("expected a length error"),
    }
    let empty: [u8; 0] = [];
    assert!(Matrix::<3>::new(&empty, 0).unwrap().is_empty());
}

#[test]
fn riscv_pmu_tables() {
    let data = be(&[0x00003, 0x00000000, 0x1, 0x00004, 0x00000000, 0x2]);
    let ev = EventToMhpmevent(Matrix::<3>::new(&data, 0).unwrap());
    assert_eq!(ev.len(), 2);
    assert!(!ev.is_empty());
    assert_eq!(ev.get_event_id(1), 4);
    assert_eq!(ev.get_selector_value(1), 2);
    let data2 = be(&[0x00001, 0x00002, 0x7fff8, 0x00003, 0x00006, 0x7ffc0]);
    let cn = EventToMhpmcounters(Matrix::<3>::new(&data2, 0).unwrap());
    assert_eq!(cn.len(), 2);
    assert_eq!(cn.get_event_idx_range(0), (1, 2));
    assert_eq!(cn.get_counter_bitmap(1), 0x7ffc0);
    assert!(!cn.is_empty());
    let data3 = be(&[0x1, 0x2, 0xffffffff, 0xffffffff, 0x7fff8]);
    let raw = RawEventToMhpcounters(Matrix::<5>::new(&data3, 0).unwrap());
    assert_eq!(raw.len(), 1);
    assert!(!raw.is_empty());
    assert_eq!(raw.get_event_idx_base(0), 0x1_0000_0002);
    assert_eq!(raw.get_event_idx_mask(0), 0xffff_ffff_ffff_ffff);
    assert_eq!(raw.get_counter_bitmap(0), 0x7fff8);
}

#[test]
fn str_seq_last_without_terminator() {
    let s = StrSeq::new(b"ab\0cd");
    let mut it = s.iter();
    assert_eq!(it.next().unwrap(), b"ab");
    assert_eq!(it.next().unwrap(), b"cd");
    assert!(it.next().is_none());
}

#[test]
fn compatible_entries() {
    let c = Compatible { data: b"sifive,fu740-c000\0sifive,fu740\0" };
    let mut it = c.iter();
    assert_eq!(it.next().unwrap(), b"sifive,fu740-c000");
    assert_eq!(it.next().unwrap(), b"sifive,fu740");
    assert!(it.next().is_none());
}

#[test]
fn error_constructors() {
    assert_eq!(
        Error::structure_index_overflow(9, 8, 36),
        Error::Typed {
            error_type: ErrorType::StructureIndex {
                current_index: 9,
                bound_index: 8,
                structure_or_string: true,
                overflow_or_underflow: true
            },
            file_index: 36
        }
    );
    assert_eq!(
        Error::invalid_tag_id(7, 60),
        Error::Typed { error_type: ErrorType::InvalidTagId { wrong_id: 7 }, file_index: 60 }
    );
    assert_eq!(
        Error::unaligned(3),
        Error::Typed { error_type: ErrorType::Unaligned { ptr_value: 3, align: 8 }, file_index: 0 }
    );
}

#[test]
fn string_block_finds_or_appends() {
    let mut sb = StringBlock::new();
    assert_eq!(sb.find_or_insert(b"compatible"), 0);
    assert_eq!(sb.find_or_insert(b"reg"), 11);
    assert_eq!(sb.find_or_insert(b"compatible"), 0);
    assert_eq!(sb.insert_str(b"x"), 15);
    assert_eq!(sb.len(), 17);
    let (s, next) = sb.get_str_by_offset(11);
    assert_eq!(s, b"reg");
    assert_eq!(next, 15);
    assert_eq!(sb.into_bytes(), b"compatible\0reg\0x\0".to_vec());
}

#[test]
fn pointer_writes_words_and_names() {
    let mut p = Pointer::new(Some(Vec::new()));
    let off = p.step_by_prop();
    assert_eq!(off, 4);
    p.write_to_offset_u32(off, 5);
    p.step_by_name(b"ab");
    p.step_by_u8(7);
    p.step_align();
    p.step_by_len(2);
    assert_eq!(p.get_offset(), 22);
    assert_eq!(
        p.into_data().unwrap(),
        vec![0, 0, 0, 3, 0, 0, 0, 5, 0, 0, 0, 4, b'a', b'b', 0, 0, 7, 0, 0, 0, 0, 0]
    );
    let mut counting = Pointer::new(None);
    counting.step_by_u32(1);
    counting.update_data(None);
    assert_eq!(counting.get_offset(), 4);
    assert!(counting.into_data().is_none());
}

#[test]
fn parsed_names() {
    let (base, unit, has_at) = split_name(b"uart@10000000");
    assert_eq!((base, unit, has_at), (&b"uart"[..], &b"10000000"[..], true));
    let (base, unit, has_at) = split_name(b"cpus");
    assert_eq!((base, unit, has_at), (&b"cpus"[..], &b""[..], false));
    assert_eq!(
        Error::no_remaining_tags(),
        Error::Typed { error_type: ErrorType::NoRemainingTags, file_index: 0 }
    );
}
