use serde_device_tree::matrix::Matrix;
use serde_device_tree::riscv_pmu::EventToMhpmcounters;
use serde_device_tree::access::{StructAccess, StructAccessType, Temp, ValueCursor, ValueDeserializer};
use serde_device_tree::reg::RegConfig;
use serde_device_tree::dtb::{Dtb, DtbPtr};
use serde_device_tree::error::{Error, ErrorType};
use serde_device_tree::node::Node;
use serde_device_tree::node_seq::NodeSeq;
use serde_device_tree::patch::{Field, Patch, PatchList, Value, ValueType};
use serde_device_tree::reg::RegRegion;
use serde_device_tree::ser::{encode, to_dtb};
use serde_device_tree::tag::{Tag, Tags};

fn field(name: &str, value: Value) -> Field {
    Field { name: name.as_bytes().to_vec(), value }
}

fn node(fields: Vec<Field>) -> Value {
    Value::Node(fields)
}

fn encode_plain(v: &Value) -> Vec<u8> {
    let list: Vec<Patch> = Vec::new();
    let mut patches = PatchList::new(&list);
    encode(v, &mut patches).unwrap()
}

fn words(b: &[u8]) -> Vec<u32> {
    b.chunks(4).map(|c| u32::from_be_bytes([c[0], c[1], c[2], c[3]])).collect()
}

fn structure_words(blob: &[u8]) -> Vec<u32> {
    let w = words(&blob[..40]);
    let off = w[2] as usize;
    let size = w[9] as usize;
    words(&blob[off..off + size])
}

fn root(blob: &[u8]) -> Node<'_> {
    let ptr = DtbPtr::from_raw(blob).unwrap();
    Node::root(Dtb::from_ptr(ptr))
}

fn prop_names(n: &Node) -> Vec<Vec<u8>> {
    n.props().unwrap().iter().map(|p| p.get_name().to_vec()).collect()
}

fn child_names(n: &Node) -> Vec<Vec<u8>> {
    n.nodes().unwrap().iter().map(|c| c.get_full_name().to_vec()).collect()
}

#[test]
fn error_invalid_magic() {
    let data = [0x11u8, 0x22, 0x33, 0x44];
    let e = DtbPtr::from_raw(&data).err().unwrap();
    assert_eq!(
        e,
        Error::Typed { error_type: ErrorType::InvalidMagic { wrong_magic: 0x11223344 }, file_index: 0 }
    );
    match e {
        Error::Typed { error_type: ErrorType::InvalidMagic { wrong_magic }, file_index } => {
            assert_eq!(wrong_magic, 287454020);
            assert_eq!(file_index, 0);
        }
        _ => panic!("wrong error"),
    }
}

#[test]
fn header_too_short_blob() {
    let e = DtbPtr::from_raw(&[0xd0, 0x0d]).err().unwrap();
    assert_eq!(
        e,
        Error::Typed {
            error_type: ErrorType::HeaderTooShort { header_length: 2, at_least_length: 40 },
            file_index: 0
        }
    );
}

#[test]
fn incompatible_version_blob() {
    let mut blob = encode_plain(&node(vec![]));
    blob[24..28].copy_from_slice(&18u32.to_be_bytes());
    let e = DtbPtr::from_raw(&blob).err().unwrap();
    assert_eq!(
        e,
        Error::Typed {
            error_type: ErrorType::IncompatibleVersion { last_comp_version: 18, library_supported_version: 17 },
            file_index: 24
        }
    );
}

#[test]
fn root_with_one_u32_property() {
    let v = node(vec![field("hello", Value::U32(0xDEEDBEEF))]);
    let blob = encode_plain(&v);
    assert_eq!(
        structure_words(&blob),
        vec![1, 0, 3, 4, 0, 0xDEEDBEEF, 2, 9]
    );
    let r = root(&blob);
    let p = r.get_prop(b"hello").unwrap().unwrap();
    assert_eq!(p.as_u32().unwrap(), 0xDEEDBEEF);
}

#[test]
fn u32_of_wrong_length_is_refused() {
    let v = node(vec![field("hello", Value::Bytes(vec![1, 2, 3]))]);
    let blob = encode_plain(&v);
    let r = root(&blob);
    let p = r.get_prop(b"hello").unwrap().unwrap();
    match p.as_u32() {
        Err(Error::Typed { error_type: ErrorType::InvalidSerdeTypeLength { expected_length: 4 }, .. }) => {}
        other => panic!("unexpected {:?}", other),
    }
}

#[test]
fn empty_root_has_nothing() {
    let blob = encode_plain(&node(vec![]));
    assert_eq!(structure_words(&blob), vec![1, 0, 2, 9]);
    let r = root(&blob);
    assert_eq!(r.props().unwrap().len(), 0);
    assert_eq!(r.nodes().unwrap().len(), 0);
    assert_eq!(r.name().unwrap(), b"");
}

#[test]
fn empty_value_reads_as_true_and_empty_bytes() {
    let v = node(vec![field("flag", Value::Bytes(vec![])), field("word", Value::U32(5))]);
    let blob = encode_plain(&v);
    let r = root(&blob);
    let flag = r.get_prop(b"flag").unwrap().unwrap();
    assert_eq!(flag.as_bool().unwrap(), true);
    assert_eq!(flag.data().unwrap().len(), 0);
    let word = r.get_prop(b"word").unwrap().unwrap();
    assert!(word.as_bool().is_err());
}

fn memory_tree() -> Value {
    node(vec![
        field("#address-cells", Value::U32(2)),
        field("#size-cells", Value::U32(2)),
        field(
            "memory@0",
            node(vec![field("reg", Value::U32Seq(vec![0, 0x8000_0000, 1, 0]))]),
        ),
        field(
            "memory@1",
            node(vec![field("reg", Value::U32Seq(vec![0, 0x1000, 0, 0x10]))]),
        ),
        field("cpus", node(vec![])),
    ])
}

#[test]
fn group_iteration() {
    let blob = encode_plain(&memory_tree());
    let r = root(&blob);
    let kids = r.nodes().unwrap();
    assert_eq!(kids.len(), 3);
    assert_eq!(kids[1].get_parsed_name(), (&b"memory"[..], Some(&b"1"[..])));
    assert_eq!(kids[2].get_parsed_name(), (&b"cpus"[..], None));
    let first = kids[0];
    let seq = NodeSeq::take(r.dtb, r.reg, serde_device_tree::cursor::AnyCursor(first.node.start_cursor.0, serde_device_tree::cursor::Title {})).unwrap();
    assert_eq!(seq.name, b"memory");
    assert_eq!(seq.len(), 2);
    let mut it = seq.iter();
    let a = it.next().unwrap();
    let b = it.next().unwrap();
    assert_eq!(a.at(), b"0");
    assert_eq!(b.at(), b"1");
    assert!(it.next().is_none());
}

#[test]
fn test_nodeseq_with_at() {
    let blob = encode_plain(&memory_tree());
    let r = root(&blob);
    let kids = r.nodes().unwrap();
    let mem = kids[0].to_node();
    let reg = mem.get_prop(b"reg").unwrap().unwrap().as_reg().unwrap();
    let mut it = reg.iter();
    let region = it.next().unwrap();
    assert_eq!(region, RegRegion { start: 2147483648, end: 6442450944 });
    assert!(it.next().is_none());
}

#[test]
fn test_nodeseq_without_at() {
    let v = node(vec![
        field("#address-cells", Value::U32(1)),
        field("#size-cells", Value::U32(1)),
        field("memory", node(vec![field("reg", Value::U32Seq(vec![0x5000_0000, 0x03f0_0000]))])),
    ]);
    let blob = encode_plain(&v);
    let r = root(&blob);
    let kids = r.nodes().unwrap();
    let cfg = r.child_config().unwrap();
    let seq = NodeSeq::take(r.dtb, cfg, serde_device_tree::cursor::AnyCursor(kids[0].node.start_cursor.0, serde_device_tree::cursor::Title {})).unwrap();
    assert_eq!(seq.len(), 1);
    let item = seq.iter().next().unwrap();
    assert_eq!(item.at(), b"");
    let mem = item.to_node();
    let reg = mem.get_prop(b"reg").unwrap().unwrap().as_reg().unwrap();
    let region = reg.iter().next().unwrap();
    assert_eq!(region, RegRegion { start: 1342177280, end: 1408237568 });
}

#[test]
fn child_config_follows_parent_cells() {
    let v = node(vec![
        field("#address-cells", Value::U32(1)),
        field("#size-cells", Value::U32(1)),
        field("soc", node(vec![field("reg", Value::U32Seq(vec![0x1000, 0x20, 0x3000, 0x40]))])),
    ]);
    let blob = encode_plain(&v);
    let r = root(&blob);
    let cfg = r.child_config().unwrap();
    assert_eq!((cfg.address_cells, cfg.size_cells), (1, 1));
    let soc = r.nodes().unwrap()[0].to_node();
    assert_eq!((soc.reg.address_cells, soc.reg.size_cells), (1, 1));
    let reg = soc.get_prop(b"reg").unwrap().unwrap().as_reg().unwrap();
    let mut it = reg.iter();
    assert_eq!(it.next().unwrap(), RegRegion { start: 0x1000, end: 0x1020 });
    assert_eq!(it.next().unwrap(), RegRegion { start: 0x3000, end: 0x3040 });
    assert!(it.next().is_none());
    // the soc node sets nothing, so its own children get the defaults
    let soc_cfg = soc.child_config().unwrap();
    assert_eq!((soc_cfg.address_cells, soc_cfg.size_cells), (2, 1));
}

#[test]
fn reg_count_matches_length() {
    let data: Vec<u8> = [0u32, 1, 2, 3, 4, 5].iter().flat_map(|w| w.to_be_bytes()).collect();
    let reg = serde_device_tree::reg::Reg::new(&data, serde_device_tree::reg::RegConfig { address_cells: 2, size_cells: 1 });
    let mut it = reg.iter();
    let mut count = 0;
    while let Some(r) = it.next() {
        assert!(r.start <= r.end);
        count += 1;
    }
    assert_eq!(count, data.len() / (4 * 3));
    let first = reg.iter().next().unwrap();
    assert_eq!(first, RegRegion { start: 1, end: 3 });
}

fn aliases_tree() -> Value {
    node(vec![
        field("aliases", node(vec![field("serial0", Value::Str(b"/soc/uart@10000000".to_vec()))])),
        field("chosen", node(vec![field("stdout-path", Value::Str(b"serial0:115200n8".to_vec()))])),
        field("soc", node(vec![field("uart@10000000", node(vec![field("compatible", Value::Str(b"ns16550a".to_vec()))]))])),
    ])
}

#[test]
fn test_find() {
    let blob = encode_plain(&aliases_tree());
    let r = root(&blob);
    let stdout = r.chosen_stdout_path().unwrap().unwrap();
    assert_eq!(stdout, b"serial0");
    let uart = r.find(stdout).unwrap().unwrap();
    assert_eq!(uart.name().unwrap(), b"uart@10000000");
    let direct = r.find(b"/soc/uart@10000000").unwrap().unwrap();
    assert_eq!(direct.cursor.0, uart.cursor.0);
    assert!(r.find(b"/soc/none").unwrap().is_none());
    assert!(r.find(b"serial9").unwrap().is_none());
    assert_eq!(r.find(b"/").unwrap().unwrap().cursor.0, 0);
}

#[test]
fn test_find_prop() {
    let blob = encode_plain(&aliases_tree());
    let r = root(&blob);
    let uart = r.find(b"/soc/uart@10000000").unwrap().unwrap();
    let p = uart.get_prop(b"compatible").unwrap().unwrap();
    assert_eq!(p.get_name(), b"compatible");
    let list = p.as_str_seq().unwrap();
    assert_eq!(list.iter().next().unwrap(), b"ns16550a");
}

#[test]
fn test_search() {
    let blob = encode_plain(&aliases_tree());
    let r = root(&blob);
    let all = r.search().unwrap();
    assert_eq!(all.len(), 5);
    assert_eq!(all[0].cursor.0, 0);
}

#[test]
fn chosen_stdin_missing() {
    let blob = encode_plain(&aliases_tree());
    let r = root(&blob);
    assert!(r.chosen_stdin_path().unwrap().is_none());
    assert!(r.chosen().unwrap().is_some());
}

#[test]
fn replace_prop_ser_test() {
    let v = node(vec![field("hello", Value::U32(0xDEEDBEEF)), field("other", Value::U32(7))]);
    let list = vec![Patch::new(b"/hello".to_vec(), Value::U32(0x55667788), ValueType::Prop)];
    let mut patches = PatchList::new(&list);
    let blob = encode(&v, &mut patches).unwrap();
    assert!(patches.is_parsed(0));
    let r = root(&blob);
    assert_eq!(r.get_prop(b"hello").unwrap().unwrap().as_u32().unwrap(), 0x55667788);
    assert_eq!(r.get_prop(b"other").unwrap().unwrap().as_u32().unwrap(), 7);
    assert_eq!(prop_names(&r), vec![b"hello".to_vec(), b"other".to_vec()]);
}

#[test]
fn add_node_ser_test() {
    let v = node(vec![
        field("hello", Value::U32(1)),
        field("base1", node(vec![field("hello", Value::Str(b"Hello, World!".to_vec()))])),
        field("base2", node(vec![field("hello", Value::Str(b"Roger".to_vec()))])),
    ]);
    let added = node(vec![field("hello", Value::Str(b"added".to_vec()))]);
    let list = vec![Patch::new(b"/base3".to_vec(), added, ValueType::Node)];
    let mut patches = PatchList::new(&list);
    let blob = encode(&v, &mut patches).unwrap();
    assert!(patches.is_parsed(0));
    let r = root(&blob);
    assert_eq!(child_names(&r), vec![b"base1".to_vec(), b"base2".to_vec(), b"base3".to_vec()]);
    let base3 = r.find(b"/base3").unwrap().unwrap();
    let p = base3.props().unwrap();
    assert_eq!(p.len(), 1);
    assert_eq!(p[0].data().unwrap(), b"added\0");
}

#[test]
fn patch_without_parent_is_not_written() {
    let v = node(vec![field("hello", Value::U32(1))]);
    let list = vec![Patch::new(b"/missing/leaf".to_vec(), Value::U32(2), ValueType::Prop)];
    let mut patches = PatchList::new(&list);
    let blob = encode(&v, &mut patches).unwrap();
    assert!(!patches.is_parsed(0));
    let r = root(&blob);
    assert_eq!(prop_names(&r), vec![b"hello".to_vec()]);
    assert_eq!(r.nodes().unwrap().len(), 0);
}

#[test]
fn replace_node_ser_test() {
    let v = node(vec![
        field("hello", Value::U32(0xdeedbeef)),
        field("base1", node(vec![field("hello", Value::Str(b"Hello, World!".to_vec()))])),
    ]);
    let list = vec![Patch::new(
        b"/base1".to_vec(),
        node(vec![field("hello", Value::Str(b"replacement".to_vec()))]),
        ValueType::Node,
    )];
    let mut patches = PatchList::new(&list);
    let blob = encode(&v, &mut patches).unwrap();
    let r = root(&blob);
    let b1 = r.find(b"/base1").unwrap().unwrap();
    assert_eq!(b1.get_prop(b"hello").unwrap().unwrap().data().unwrap(), b"replacement\0");
}

#[test]
fn names_are_stored_once() {
    let v = node(vec![
        field("hello", Value::U32(1)),
        field("a", node(vec![field("hello", Value::U32(2))])),
        field("b", node(vec![field("hello", Value::U32(3))])),
    ]);
    let blob = encode_plain(&v);
    let w = words(&blob[..40]);
    let strings = &blob[w[3] as usize..(w[3] + w[8]) as usize];
    assert_eq!(strings, b"hello\0");
}

#[test]
fn serializer_seq_str_ser_test() {
    let v = node(vec![field("list", Value::Bytes(b"Hello\0World!\0Again\0".to_vec()))]);
    let blob = encode_plain(&v);
    let r = root(&blob);
    let list = r.get_prop(b"list").unwrap().unwrap().as_str_seq().unwrap();
    let mut it = list.iter();
    assert_eq!(it.next().unwrap(), b"Hello");
    assert_eq!(it.next().unwrap(), b"World!");
    assert_eq!(it.next().unwrap(), b"Again");
    assert!(it.next().is_none());
}

#[test]
fn to_dtb_writes_prefix() {
    let v = node(vec![field("hello", Value::U32(0xDEEDBEEF))]);
    let mut buf = [0xAAu8; 256];
    let n = to_dtb(&v, &[], &mut buf).unwrap();
    assert_eq!(n, 40 + 16 + 32 + 6);
    assert_eq!(&buf[..4], &[0xd0, 0x0d, 0xfe, 0xed]);
    assert_eq!(buf[n], 0xAA);
    assert!(DtbPtr::from_raw(&buf[..n]).is_ok());
    let mut small = [0u8; 16];
    assert_eq!(to_dtb(&v, &[], &mut small), Err(serde_device_tree::patch::Error::BufferTooSmall));
}

#[test]
fn tags_walk() {
    let v = node(vec![field("hello", Value::U32(0xDEEDBEEF)), field("sub", node(vec![]))]);
    let blob = encode_plain(&v);
    let w = words(&blob[..40]);
    let s = &blob[w[2] as usize..(w[2] + w[9]) as usize];
    let t = &blob[w[3] as usize..(w[3] + w[8]) as usize];
    let mut tags = Tags::new(s, t, w[2] as usize);
    let mut seen = Vec::new();
    while let Some(x) = tags.next() {
        let (tag, _) = x.unwrap();
        seen.push(match tag {
            Tag::Begin(n) => format!("begin {}", String::from_utf8_lossy(n)),
            Tag::Prop(v, n) => format!("prop {} {}", String::from_utf8_lossy(n), v.len()),
            Tag::End => "end".to_string(),
        });
    }
    assert_eq!(seen, vec!["begin ", "prop hello 4", "begin sub", "end", "end"]);
}

#[test]
fn round_trip_generic_tree() {
    let blob = encode_plain(&aliases_tree());
    let r = root(&blob);
    let again = encode_plain(&to_value(&r));
    assert_eq!(again, blob);
}

fn to_value(n: &Node) -> Value {
    let mut fields = Vec::new();
    for p in n.props().unwrap() {
        fields.push(Field { name: p.get_name().to_vec(), value: Value::Bytes(p.data().unwrap().to_vec()) });
    }
    for c in n.nodes().unwrap() {
        fields.push(Field { name: c.get_full_name().to_vec(), value: to_value(&c.to_node()) });
    }
    Value::Node(fields)
}

#[test]
fn decode_twice_is_equal() {
    let blob = encode_plain(&memory_tree());
    let before = blob.clone();
    let a: Vec<Vec<u8>> = child_names(&root(&blob));
    let b: Vec<Vec<u8>> = child_names(&root(&blob));
    assert_eq!(a, b);
    assert_eq!(blob, before);
}

fn set_word(blob: &mut [u8], index: usize, v: u32) {
    blob[4 * index..4 * index + 4].copy_from_slice(&v.to_be_bytes());
}

fn header_error(blob: &[u8]) -> ErrorType {
    match DtbPtr::from_raw(blob).err().unwrap() {
        Error::Typed { error_type, .. } => error_type,
        other => panic!("unexpected {:?}", other),
    }
}

fn header_error_index(blob: &[u8]) -> usize {
    match DtbPtr::from_raw(blob).err().unwrap() {
        Error::Typed { file_index, .. } => file_index,
        other => panic!("unexpected {:?}", other),
    }
}

#[test]
fn header_checks_in_order() {
    let good = encode_plain(&node(vec![field("hello", Value::U32(1))]));
    assert!(DtbPtr::from_raw(&good).is_ok());
    let total = good.len() as u32;

    let mut b = good.clone();
    set_word(&mut b, 1, 8);
    assert_eq!(header_error(&b), ErrorType::HeaderTooShort { header_length: 8, at_least_length: 40 });
    assert_eq!(header_error_index(&b), 4);

    let mut b = good.clone();
    set_word(&mut b, 1, total + 4);
    assert_eq!(
        header_error(&b),
        ErrorType::SliceEofUnexpected { expected_length: total + 4, remaining_length: total }
    );

    let mut b = good.clone();
    set_word(&mut b, 2, 8);
    assert_eq!(
        header_error(&b),
        ErrorType::StructureIndex { current_index: 8, bound_index: 40, structure_or_string: true, overflow_or_underflow: false }
    );
    assert_eq!(header_error_index(&b), 8);

    let mut b = good.clone();
    set_word(&mut b, 9, total);
    assert_eq!(
        header_error(&b),
        ErrorType::StructureIndex { current_index: 56 + total, bound_index: total, structure_or_string: true, overflow_or_underflow: true }
    );
    assert_eq!(header_error_index(&b), 36);

    let mut b = good.clone();
    set_word(&mut b, 14, 7);
    assert_eq!(header_error(&b), ErrorType::InvalidTagId { wrong_id: 7 });
    assert_eq!(header_error_index(&b), 56);

    let mut b = good.clone();
    set_word(&mut b, 15, 0x61000000);
    assert_eq!(header_error(&b), ErrorType::InvalidTagId { wrong_id: 0x61000000 });
    assert_eq!(header_error_index(&b), 60);

    let mut b = good.clone();
    set_word(&mut b, 3, 12);
    assert_eq!(
        header_error(&b),
        ErrorType::StructureIndex { current_index: 12, bound_index: 40, structure_or_string: false, overflow_or_underflow: false }
    );

    let mut b = good.clone();
    set_word(&mut b, 8, 100);
    assert!(matches!(
        header_error(&b),
        ErrorType::StructureIndex { structure_or_string: false, overflow_or_underflow: true, .. }
    ));
    assert_eq!(header_error_index(&b), 32);

    let mut b = good.clone();
    set_word(&mut b, 4, 16);
    assert_eq!(
        header_error(&b),
        ErrorType::StructureIndex { current_index: 16, bound_index: 40, structure_or_string: false, overflow_or_underflow: false }
    );
    assert_eq!(header_error_index(&b), 16);
}

#[test]
fn tag_stream_errors() {
    // a word that is no token
    let s = [0, 0, 0, 7u8];
    let mut tags = Tags::new(&s, &[], 56);
    match tags.next() {
        Some(Err(Error::Typed { error_type: ErrorType::InvalidTagId { wrong_id: 7 }, file_index: 60 })) => {}
        other => panic!("unexpected {:?}", other.map(|r| r.map(|(_, i)| i))),
    }
    // a node name without a terminator
    let s = [0, 0, 0, 1u8, b'a', b'b', b'c', b'd'];
    let mut tags = Tags::new(&s, &[], 0);
    match tags.next() {
        Some(Err(Error::Typed { error_type: ErrorType::StringEofUnexpected, file_index: 4 })) => {}
        _ => panic!("expected a string error"),
    }
    // a property whose value runs past the block
    let s = [0, 0, 0, 3u8, 0, 0, 0, 9, 0, 0, 0, 0, 1, 2];
    let mut tags = Tags::new(&s, b"x\0", 0);
    match tags.next() {
        Some(Err(Error::Typed {
            error_type: ErrorType::SliceEofUnexpected { expected_length: 9, remaining_length: 2 },
            file_index: 12,
        })) => {}
        _ => panic!("expected a slice error"),
    }
    // a property whose name offset is outside the string block
    let s = [0, 0, 0, 3u8, 0, 0, 0, 0, 0, 0, 0, 5];
    let mut tags = Tags::new(&s, b"x\0", 0);
    match tags.next() {
        Some(Err(Error::Typed {
            error_type: ErrorType::TableStringOffset { given_offset: 5, bound_offset: 2 },
            ..
        })) => {}
        _ => panic!("expected a string table error"),
    }
    // NOPs are skipped, END ends the walk
    let s = [0, 0, 0, 4u8, 0, 0, 0, 2, 0, 0, 0, 9];
    let mut tags = Tags::new(&s, &[], 0);
    assert!(matches!(tags.next(), Some(Ok((Tag::End, 8)))));
    assert!(tags.next().is_none());
    // running off the end
    let mut tags = Tags::new(&s[..2], &[], 0);
    assert!(matches!(
        tags.next(),
        Some(Err(Error::Typed { error_type: ErrorType::TagEofUnexpected { current_index: 0, bound_index: 2 }, .. }))
    ));
}

#[test]
fn dtb_align_is_power_of_two() {
    let blob = encode_plain(&node(vec![field("hello", Value::U32(1))]));
    let ptr = DtbPtr::from_raw(&blob).unwrap();
    let a = ptr.align();
    assert!(a.is_power_of_two());
    assert!(a >= blob.len() as u64);
    assert!(a / 2 < blob.len() as u64);
}

#[test]
fn entry_reader_groups_and_updates_cells() {
    let blob = encode_plain(&memory_tree());
    let r = root(&blob);
    let body = serde_device_tree::cursor::AnyCursor(2, serde_device_tree::cursor::Body {});
    let mut access = StructAccess {
        access_type: StructAccessType::AsMap(true),
        temp: Temp::Whole,
        de: ValueDeserializer { dtb: r.dtb, reg: RegConfig::default_config(), cursor: ValueCursor::Body(body) },
        cells: RegConfig::default_config(),
    };
    let mut keys = Vec::new();
    while let Some(k) = access.next_key().unwrap() {
        keys.push(k.to_vec());
    }
    assert_eq!(keys, vec![b"#address-cells".to_vec(), b"#size-cells".to_vec(), b"memory".to_vec(), b"cpus".to_vec()]);
    assert_eq!((access.cells.address_cells, access.cells.size_cells), (2, 2));
    assert_eq!((access.de.reg.address_cells, access.de.reg.size_cells), (2, 1));
    assert!(access.de.is_complete_on());

    let fields: [&[u8]; 1] = [b"cpus"];
    let mut only = StructAccess {
        access_type: StructAccessType::AsStruct(&fields),
        temp: Temp::Whole,
        de: ValueDeserializer { dtb: r.dtb, reg: RegConfig::default_config(), cursor: ValueCursor::Body(body) },
        cells: RegConfig::default_config(),
    };
    assert_eq!(only.next_key().unwrap().unwrap(), b"cpus");
    assert!(only.next_key().unwrap().is_none());
}

#[test]
fn patch_fires_once() {
    let v = node(vec![field("hello", Value::U32(1)), field("hello", Value::U32(2))]);
    let list = vec![Patch::new(b"/hello".to_vec(), Value::U32(9), ValueType::Prop)];
    let mut patches = PatchList::new(&list);
    let blob = encode(&v, &mut patches).unwrap();
    let r = root(&blob);
    let values: Vec<u32> = r.props().unwrap().iter().map(|p| p.as_u32().unwrap()).collect();
    assert_eq!(values, vec![9, 2]);
}

#[test]
fn conflicting_patches_are_refused() {
    let v = node(vec![field("hello", Value::U32(1))]);
    let list = vec![
        Patch::new(b"/hello".to_vec(), Value::U32(2), ValueType::Prop),
        Patch::new(b"/hello".to_vec(), Value::U32(3), ValueType::Prop),
    ];
    let mut patches = PatchList::new(&list);
    assert_eq!(encode(&v, &mut patches).err(), Some(serde_device_tree::patch::Error::Conflict));
}

#[test]
fn nested_patch_paths() {
    let v = node(vec![field("chosen", node(vec![field("stdout-path", Value::Str(b"serial0".to_vec()))]))]);
    let list = vec![
        Patch::new(b"/chosen/stdout-path".to_vec(), Value::Str(b"serial1".to_vec()), ValueType::Prop),
        Patch::new(b"/chosen/bootargs".to_vec(), Value::Str(b"quiet".to_vec()), ValueType::Prop),
    ];
    assert_eq!(list[0].get_depth(), 2);
    assert_eq!(list[0].get_depth_path(1), b"chosen");
    assert_eq!(list[0].get_depth_path(2), b"stdout-path");
    assert_eq!(list[0].get_depth_path(3), b"");
    let mut patches = PatchList::new(&list);
    let blob = encode(&v, &mut patches).unwrap();
    assert!(patches.is_parsed(0) && patches.is_parsed(1));
    let r = root(&blob);
    let chosen = r.find(b"/chosen").unwrap().unwrap();
    assert_eq!(chosen.get_prop(b"stdout-path").unwrap().unwrap().data().unwrap(), b"serial1\0");
    assert_eq!(chosen.get_prop(b"bootargs").unwrap().unwrap().data().unwrap(), b"quiet\0");
}

#[test]
fn root_reader_and_finish() {
    let blob = encode_plain(&memory_tree());
    let v = ValueDeserializer::root(&blob).unwrap();
    assert!(v.finish().is_ok());
    let mut bad = blob.clone();
    bad[0] = 0;
    assert!(ValueDeserializer::root(&bad).is_err());
}

#[test]
fn chosen_test_chosen_stdout() {
    let v = node(vec![
        field("chosen", node(vec![field("stdout-path", Value::Str(b"serial3:2000000n8".to_vec()))])),
        field("aliases", node(vec![field("serial3", Value::Str(b"/soc/serial@30002000".to_vec()))])),
    ]);
    let blob = encode_plain(&v);
    let r = root(&blob);
    assert!(r.chosen().unwrap().is_some());
    assert_eq!(r.chosen_stdout_path().unwrap(), Some(&b"serial3"[..]));
}

#[test]
fn riscv_pmu_test_chosen_stdout() {
    let rows = vec![
        1, 1, 0x7fff9, 2, 2, 0x7fffc, 0x10019, 0x10019, 0x7fff8, 0x1001b, 0x1001b, 0x7fff8, 0x10021,
        0x10021, 0x7fff8,
    ];
    let v = node(vec![field("pmu", node(vec![field("riscv,event-to-mhpmcounters", Value::U32Seq(rows))]))]);
    let blob = encode_plain(&v);
    let r = root(&blob);
    let pmu = r.find(b"/pmu").unwrap().unwrap();
    let data = pmu.get_prop(b"riscv,event-to-mhpmcounters").unwrap().unwrap().data().unwrap();
    let result = EventToMhpmcounters(Matrix::<3>::new(data, 0).unwrap());
    assert_eq!(result.len(), 5);
    assert_eq!(result.get_event_idx_range(0), (1, 1));
    assert_eq!(result.get_counter_bitmap(0), 0x7fff9);
    assert_eq!(result.get_event_idx_range(1), (2, 2));
    assert_eq!(result.get_counter_bitmap(1), 0x7fffc);
    assert_eq!(result.get_event_idx_range(2), (0x10019, 0x10019));
    assert_eq!(result.get_counter_bitmap(2), 0x7fff8);
}

#[test]
fn value_reader_primitives() {
    let v = node(vec![field("flag", Value::Bytes(vec![])), field("word", Value::U32(0x01020304))]);
    let blob = encode_plain(&v);
    let r = root(&blob);
    let props = r.props().unwrap();
    let flag = ValueDeserializer {
        dtb: r.dtb,
        reg: r.reg,
        cursor: ValueCursor::Prop(serde_device_tree::cursor::AnyCursor(props[0].prop.0, serde_device_tree::cursor::Body {}), props[0].prop),
    };
    assert_eq!(flag.deserialize_bool().unwrap(), true);
    assert_eq!(flag.deserialize_option().unwrap(), false);
    assert!(flag.deserialize_u32().is_err());
    let word = ValueDeserializer {
        dtb: r.dtb,
        reg: r.reg,
        cursor: ValueCursor::Prop(serde_device_tree::cursor::AnyCursor(props[1].prop.0, serde_device_tree::cursor::Body {}), props[1].prop),
    };
    assert_eq!(word.deserialize_u32().unwrap(), 0x01020304);
    assert_eq!(word.deserialize_bytes().unwrap(), &[1, 2, 3, 4]);
    assert_eq!(word.deserialize_option().unwrap(), true);
    assert!(word.deserialize_bool().is_err());
}

const MAX_SIZE: usize = 256 + 32;

fn write_and_read(v: &Value) -> Vec<u8> {
    let mut buf = [0u8; MAX_SIZE];
    let n = to_dtb(v, &[], &mut buf).unwrap();
    buf[..n].to_vec()
}

#[test]
fn serializer_base_ser_test() {
    let blob = write_and_read(&node(vec![field("hello", Value::U32(0xdeedbeef))]));
    let r = root(&blob);
    assert_eq!(r.get_prop(b"hello").unwrap().unwrap().as_u32().unwrap(), 0xdeedbeef);
}

#[test]
fn serializer_rev_ser_test() {
    let v = node(vec![
        field("hello", Value::U32(0xdeedbeef)),
        field("base1", node(vec![field("hello", Value::U32(0x10000001))])),
    ]);
    let blob = write_and_read(&v);
    let r = root(&blob);
    let b1 = r.find(b"/base1").unwrap().unwrap();
    assert_eq!(b1.get_prop(b"hello").unwrap().unwrap().as_u32().unwrap(), 0x10000001);
}

#[test]
fn serializer_rev_str_ser_test() {
    let v = node(vec![
        field("hello", Value::U32(0xdeedbeef)),
        field("base1", node(vec![field("hello", Value::Str(b"Hello, World!".to_vec()))])),
    ]);
    let blob = write_and_read(&v);
    let r = root(&blob);
    let b1 = r.find(b"/base1").unwrap().unwrap();
    let s = b1.get_prop(b"hello").unwrap().unwrap().as_str_seq().unwrap();
    assert_eq!(s.iter().next().unwrap(), b"Hello, World!");
}

#[test]
fn node_prop_ser_test() {
    let v = node(vec![
        field("hello", Value::U32(0xdeedbeef)),
        field("base1", node(vec![field("hello", Value::Str(b"Hello, World!".to_vec()))])),
        field("hello2", Value::U32(0x11223344)),
        field("base2", node(vec![field("hello", Value::Str(b"Roger".to_vec()))])),
    ]);
    let blob = write_and_read(&v);
    let r = root(&blob);
    assert_eq!(prop_names(&r), vec![b"hello".to_vec(), b"hello2".to_vec()]);
    assert_eq!(child_names(&r), vec![b"base1".to_vec(), b"base2".to_vec()]);
    let b2 = r.find(b"/base2").unwrap().unwrap();
    assert_eq!(b2.get_prop(b"hello").unwrap().unwrap().data().unwrap(), b"Roger\0");
}

#[test]
fn header_tail_may_hold_nops() {
    // root with END_NODE, NOP, END at the end of the structure block
    let base = encode_plain(&node(vec![]));
    let w = words(&base[..40]);
    let off = w[2] as usize;
    let mut blob = base[..off].to_vec();
    for x in [1u32, 0, 2, 4, 9] {
        blob.extend_from_slice(&x.to_be_bytes());
    }
    let strings = blob.len() as u32;
    blob[4..8].copy_from_slice(&strings.to_be_bytes());
    blob[12..16].copy_from_slice(&strings.to_be_bytes());
    blob[32..36].copy_from_slice(&0u32.to_be_bytes());
    blob[36..40].copy_from_slice(&20u32.to_be_bytes());
    let r = root(&blob);
    assert_eq!(r.props().unwrap().len(), 0);
    assert_eq!(r.nodes().unwrap().len(), 0);
    // the same tail without END is refused at the last non-NOP word
    let mut bad = blob.clone();
    bad[off + 16..off + 20].copy_from_slice(&4u32.to_be_bytes());
    // the last non-NOP word is now END_NODE, and the one before it (the root
    // name word) is checked first
    assert_eq!(header_error(&bad), ErrorType::InvalidTagId { wrong_id: 0 });
    assert_eq!(header_error_index(&bad), off + 4);
}

#[test]
fn group_takes_sibling_without_unit() {
    let v = node(vec![field("x@0", node(vec![])), field("x", node(vec![])), field("y", node(vec![]))]);
    let blob = encode_plain(&v);
    let r = root(&blob);
    let kids = r.nodes().unwrap();
    let seq = NodeSeq::take(r.dtb, r.reg, serde_device_tree::cursor::AnyCursor(kids[0].node.start_cursor.0, serde_device_tree::cursor::Title {})).unwrap();
    assert_eq!(seq.len(), 2);
    let mut it = seq.iter();
    assert_eq!(it.next().unwrap().at(), b"0");
    assert_eq!(it.next().unwrap().at(), b"");
    assert!(it.next().is_none());
}

#[test]
fn cells_reach_children_only() {
    let v = node(vec![
        field("#address-cells", Value::U32(1)),
        field("#size-cells", Value::U32(1)),
        field("reg", Value::U32Seq(vec![0, 1, 2])),
        field("soc", node(vec![])),
    ]);
    let blob = encode_plain(&v);
    let r = root(&blob);
    let mut access = StructAccess {
        access_type: StructAccessType::AsMap(true),
        temp: Temp::Whole,
        de: ValueDeserializer { dtb: r.dtb, reg: RegConfig::default_config(), cursor: ValueCursor::Body(serde_device_tree::cursor::AnyCursor(2, serde_device_tree::cursor::Body {})) },
        cells: RegConfig::default_config(),
    };
    let mut seen = Vec::new();
    while let Some(k) = access.next_key().unwrap() {
        let v = access.next_value();
        seen.push((k.to_vec(), v.reg.address_cells, v.reg.size_cells));
    }
    assert_eq!(seen[2], (b"reg".to_vec(), 2, 1));
    assert_eq!(seen[3], (b"soc".to_vec(), 1, 1));
}

#[test]
fn lazy_iterators() {
    let blob = encode_plain(&memory_tree());
    let r = root(&blob);
    let mut props = r.prop_iter().unwrap();
    let mut names = Vec::new();
    while let Some(p) = props.next().unwrap() {
        names.push(p.get_name().to_vec());
    }
    assert_eq!(names, prop_names(&r));
    let mut kids = r.node_iter(r.child_config().unwrap()).unwrap();
    let mut names = Vec::new();
    while let Some(c) = kids.next().unwrap() {
        names.push(c.get_full_name().to_vec());
    }
    assert_eq!(names, child_names(&r));
}

#[test]
fn ser_base_ser_test() {
    let blob = write_and_read(&node(vec![field("hello", Value::U32(0xdeedbeef))]));
    assert_eq!(structure_words(&blob), vec![1, 0, 3, 4, 0, 0xdeedbeef, 2, 9]);
}

#[test]
fn ser_rev_ser_test() {
    let v = node(vec![
        field("hello", Value::U32(0xdeedbeef)),
        field("base1", node(vec![field("hello", Value::U32(0x10000001))])),
    ]);
    let blob = write_and_read(&v);
    assert_eq!(child_names(&root(&blob)), vec![b"base1".to_vec()]);
}

#[test]
fn ser_rev_str_ser_test() {
    let v = node(vec![
        field("hello", Value::U32(0xdeedbeef)),
        field("base1", node(vec![field("hello", Value::Str(b"Hello, World!".to_vec()))])),
    ]);
    let blob = write_and_read(&v);
    let b1 = root(&blob).find(b"/base1").unwrap().unwrap();
    assert_eq!(b1.get_prop(b"hello").unwrap().unwrap().data().unwrap(), b"Hello, World!\0");
}

#[test]
fn ser_seq_str_ser_test() {
    let v = node(vec![
        field("hello", Value::U32(0xdeedbeef)),
        field("base1", Value::Bytes(b"Hello\0World!\0Again\0".to_vec())),
    ]);
    let blob = write_and_read(&v);
    let r = root(&blob);
    let list = r.get_prop(b"base1").unwrap().unwrap().as_str_seq().unwrap();
    let mut it = list.iter();
    assert_eq!(it.next().unwrap(), b"Hello");
    assert_eq!(it.next().unwrap(), b"World!");
    assert_eq!(it.next().unwrap(), b"Again");
}

#[test]
fn header_checks_end_node_before_end() {
    // structure block [BEGIN_NODE, 0, PROP, PROP]: the END_NODE check fails first
    let base = encode_plain(&node(vec![]));
    let off = words(&base[..40])[2] as usize;
    let mut blob = base.clone();
    for (k, x) in [1u32, 0, 3, 3].iter().enumerate() {
        blob[off + 4 * k..off + 4 * k + 4].copy_from_slice(&x.to_be_bytes());
    }
    assert_eq!(header_error(&blob), ErrorType::InvalidTagId { wrong_id: 3 });
    assert_eq!(header_error_index(&blob), off + 8);
}

#[test]
fn node_name_ends_at_first_nul() {
    // a child whose name word is "a\0bc" followed by "d\0\0\0": the name is "a"
    let v = node(vec![field("ab", node(vec![field("p", Value::U32(7))]))]);
    let mut blob = encode_plain(&v);
    let off = words(&blob[..40])[2] as usize;
    // child title at word 2, its name in word 3 ("ab\0\0")
    blob[off + 12..off + 16].copy_from_slice(&[b'a', 0, b'b', b'c']);
    let r = root(&blob);
    let kids = r.nodes().unwrap();
    assert_eq!(kids[0].get_full_name(), b"a");
    let child = kids[0].to_node();
    assert_eq!(child.get_prop(b"p").unwrap().unwrap().as_u32().unwrap(), 7);
}

#[test]
fn decoded_tree_to_value_round_trip() {
    let blob = encode_plain(&aliases_tree());
    let r = root(&blob);
    let v = r.to_value().unwrap();
    assert_eq!(encode_plain(&v), blob);
}

#[test]
fn joined_primitives() {
    let items = vec![Value::U32(1), Value::Str(b"ab".to_vec()), Value::Bytes(vec![9]), Value::U32Seq(vec![2])];
    match serde_device_tree::ser::join_prims(&items).unwrap() {
        Value::Bytes(b) => assert_eq!(b, vec![0, 0, 0, 1, b'a', b'b', 0, 9, 0, 0, 0, 2]),
        _ => panic!("expected bytes"),
    }
    assert!(serde_device_tree::ser::join_prims(&vec![Value::Node(vec![])]).is_err());
}

#[test]
fn root_reader_positions() {
    let blob = encode_plain(&memory_tree());
    let v = ValueDeserializer::root(&blob).unwrap();
    match v.cursor {
        ValueCursor::NodeIn(g) => {
            assert_eq!(g.data_cursor.0, 2);
            assert_eq!(g.skip_cursor.0 + 1, blob[36..40].iter().fold(0usize, |a, b| a * 256 + *b as usize) / 4);
        }
        _ => panic!("root is a node"),
    }
}
