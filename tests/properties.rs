use delta_encoding::{
    DataDifference, Difference, DifferenceAction, EntryDifference, HistoryValue, IndexedData,
    IndexedDataResult, Range, SDDEError, SimpleDirectDeltaEncoding, USizeType,
};

fn record(action: DifferenceAction, start: usize, length: usize, value: &[u8]) -> Difference {
    Difference { action, range: Range::new(start, length), value: value.to_vec(), is_open: false }
}

fn field_bytes(sdd: &SimpleDirectDeltaEncoding, index: u8) -> Option<Vec<u8>> {
    sdd.data_collection().into_iter().find(|d| d.index == index).map(|d| d.data)
}

fn folded(sdd: &SimpleDirectDeltaEncoding) -> Vec<u8> {
    let parts: Vec<Vec<u8>> = sdd.data_collection().iter().map(|d| d.data.clone()).collect();
    SimpleDirectDeltaEncoding::fold_bytes(&parts)
}

fn round_trip(old: &[u8], new: &[u8]) {
    let diffs = DataDifference::diff(old, new);
    assert_eq!(DataDifference::apply_diff(old, &diffs), new.to_vec());
    assert!(diffs.iter().all(|d| !d.is_open));
}

#[test]
fn diff_round_trip_examples() {
    round_trip(b"", b"");
    round_trip(b"", b"abc");
    round_trip(b"abc", b"");
    round_trip(b"Test", b"Test2");
    round_trip(b"Test", b"TesNN");
    round_trip(b"hello world", b"help");
    round_trip(b"AAAAAAAA", b"BAAAABBA");
    round_trip(b"abcdefgh", b"aXcdYfgZ12345");
}

#[test]
fn diff_of_equal_sequences_is_empty() {
    assert!(DataDifference::diff(b"", b"").is_empty());
    assert!(DataDifference::diff(b"same bytes", b"same bytes").is_empty());
}

#[test]
fn same_run_tolerance() {
    let diffs = DataDifference::diff(b"Test1THELLO", b"Test2Thello");
    let last = diffs.last().unwrap();
    assert_eq!(last.action, DifferenceAction::Replace);
    assert_eq!(last.range, Range::new(4, 7));
    assert_eq!(last.value, b"2Thello".to_vec());
}

#[test]
fn three_equal_bytes_close_a_replace() {
    let diffs = DataDifference::diff(b"aXXXb", b"bXXXa");
    assert_eq!(diffs.len(), 2);
    assert_eq!(diffs[0].range, Range::new(0, 1));
    assert_eq!(diffs[1].range, Range::new(4, 1));
}

#[test]
fn growth_is_one_insert_and_shrink_one_delete() {
    let grow = DataDifference::diff(b"ab", b"abcde");
    assert_eq!(grow.len(), 1);
    assert_eq!(grow[0].action, DifferenceAction::Insert);
    assert_eq!(grow[0].range, Range::new(2, 3));
    assert_eq!(grow[0].value, b"cde".to_vec());
    let shrink = DataDifference::diff(b"abcde", b"ab");
    assert_eq!(shrink.len(), 1);
    assert_eq!(shrink[0].action, DifferenceAction::Delete);
    assert_eq!(shrink[0].range, Range::new(2, 3));
    assert!(shrink[0].value.is_empty());
}

#[test]
fn insert_inside_the_buffer_inserts_the_whole_value() {
    let diffs = vec![record(DifferenceAction::Insert, 1, 2, b"XY")];
    assert_eq!(DataDifference::apply_diff(b"abc", &diffs), b"aXYbc".to_vec());
}

#[test]
fn replace_and_delete_replay() {
    let diffs = vec![
        record(DifferenceAction::Replace, 0, 2, b"XY"),
        record(DifferenceAction::Delete, 3, 2, b""),
    ];
    assert_eq!(DataDifference::apply_diff(b"abcdef", &diffs), b"XYcf".to_vec());
}

#[test]
fn varint_widths() {
    assert_eq!(Difference::get_usize_type_to_bytes(0), vec![0]);
    assert_eq!(Difference::get_usize_type_to_bytes(255), vec![255]);
    assert_eq!(Difference::get_usize_type_to_bytes(256), vec![0x73, 1, 0]);
    assert_eq!(Difference::get_usize_type_to_bytes(65535), vec![0x73, 255, 255]);
    assert_eq!(Difference::get_usize_type_to_bytes(65536), vec![0x69, 0, 1, 0, 0]);
    assert_eq!(
        Difference::get_usize_type_to_bytes(4294967296),
        vec![0x6C, 0, 0, 0, 1, 0, 0, 0, 0]
    );
}

#[test]
fn varint_decoding() {
    assert_eq!(Difference::get_usize_type_from_bytes(&[7, 1, 2]), (7, 1));
    assert_eq!(Difference::get_usize_type_from_bytes(&[0x73, 1, 0, 9]), (256, 3));
    assert_eq!(Difference::get_usize_type_from_bytes(&[0x69, 0, 1, 0, 0]), (65536, 5));
    assert_eq!(
        Difference::get_usize_type_from_bytes(&[0x6C, 0, 0, 0, 1, 0, 0, 0, 0]),
        (4294967296, 9)
    );
}

#[test]
fn width_tags() {
    assert_eq!(USizeType::from(b's'), USizeType::U16);
    assert_eq!(USizeType::from(b'i'), USizeType::U32);
    assert_eq!(USizeType::from(b'l'), USizeType::U64);
    assert_eq!(USizeType::from(7u8), USizeType::U8);
    assert_eq!(u8::from(USizeType::U16), b's');
    assert_eq!(u8::from(USizeType::U8), b'u');
}

#[test]
fn action_tags() {
    assert_eq!(u8::from(DifferenceAction::Replace), b'r');
    assert_eq!(u8::from(DifferenceAction::Insert), b'i');
    assert_eq!(u8::from(DifferenceAction::Delete), b'd');
    assert_eq!(DifferenceAction::from_tag(b'd'), Some(DifferenceAction::Delete));
    assert_eq!(DifferenceAction::from_tag(b'x'), None);
}

#[test]
fn record_forms() {
    let insert = record(DifferenceAction::Insert, 4, 1, b"2");
    assert_eq!(insert.to_bytes(), vec![105, 58, 4, 45, 1, 50]);
    let delete = record(DifferenceAction::Delete, 5, 3, b"");
    assert_eq!(delete.to_bytes(), vec![100, 58, 5, 45, 3]);
    let long = record(DifferenceAction::Replace, 300, 2, b"ab");
    let bytes = long.to_bytes();
    assert_eq!(bytes, vec![114, 58, 0x73, 1, 44, 45, 2, 97, 98]);
    let back = Difference::from_bytes(&bytes);
    assert_eq!(back.action, DifferenceAction::Replace);
    assert_eq!(back.range, Range::new(300, 2));
    assert_eq!(back.value, b"ab".to_vec());
    assert!(!back.is_open);
}

#[test]
fn malformed_records_are_rejected() {
    let bad_tag = Difference::validate_from_bytes(&[120, 58, 1, 45, 1, 65]);
    assert!(matches!(bad_tag, Err(SDDEError::DifferenceInvalid(_))));
    let truncated = Difference::validate_from_bytes(&[105, 58, 0x73, 1]);
    assert!(matches!(truncated, Err(SDDEError::DifferenceInvalid(_))));
    let short_value = Difference::validate_from_bytes(&[105, 58, 1, 45, 3, 65]);
    assert!(matches!(short_value, Err(SDDEError::DifferenceInvalid(_))));
    let good = Difference::validate_from_bytes(&[105, 58, 1, 45, 1, 65]);
    assert!(good.is_ok());
}

#[test]
fn crc_of_the_folded_fields() {
    let sdd = SimpleDirectDeltaEncoding::new(&[IndexedData::new(0, b"Test".to_vec())]);
    assert_eq!(sdd.crc, b"1367696971".to_vec());
    let split = SimpleDirectDeltaEncoding::new(&[
        IndexedData::new(1, b"st".to_vec()),
        IndexedData::new(0, b"Te".to_vec()),
    ]);
    assert_eq!(split.crc, b"1367696971".to_vec());
}

#[test]
fn fields_are_held_in_index_order() {
    let sdd = SimpleDirectDeltaEncoding::new(&[
        IndexedData::new(5, b"five".to_vec()),
        IndexedData::new(2, b"two".to_vec()),
        IndexedData::new(5, b"later".to_vec()),
    ]);
    let fields = sdd.data_collection();
    assert_eq!(fields.len(), 2);
    assert_eq!(fields[0].index, 2);
    assert_eq!(fields[1].index, 5);
    assert_eq!(fields[1].data, b"later".to_vec());
}

#[test]
fn multi_field_equivalence() {
    let props = vec![IndexedData::new(0, b"Test".to_vec()), IndexedData::new(1, b"Test2".to_vec())];
    let mut a = SimpleDirectDeltaEncoding::new(&props);
    let patch = a.patch(&[IndexedData::new(0, b"Test1".to_vec()), IndexedData::new(1, b"Test3".to_vec())]);
    let mut b = SimpleDirectDeltaEncoding::new(&props);
    let result = b.apply_patch(&patch).ok().unwrap();
    assert_eq!(folded(&a), b"Test1Test3".to_vec());
    assert_eq!(folded(&b), folded(&a));
    assert_eq!(result.len(), 2);
    assert_eq!(SimpleDirectDeltaEncoding::fold_indexes(&result), b"Test1Test3".to_vec());
}

#[test]
fn field_removal() {
    let props = vec![
        IndexedData::new(0, b"Test".to_vec()),
        IndexedData::new(1, b"Test2".to_vec()),
        IndexedData::new(3, b"Test4".to_vec()),
    ];
    let mut a = SimpleDirectDeltaEncoding::new(&props);
    let patch = a.patch(&[IndexedData::new(0, b"Test".to_vec()), IndexedData::new(1, b"Test2".to_vec())]);
    assert!(patch.ends_with(&[b'v', 3, b'r']));
    let mut b = SimpleDirectDeltaEncoding::new(&props);
    let result = b.apply_patch(&patch).ok().unwrap();
    assert!(result.is_empty());
    assert_eq!(field_bytes(&b, 3), None);
    assert_eq!(folded(&b), b"TestTest2".to_vec());
}

#[test]
fn field_addition() {
    let props = vec![IndexedData::new(0, b"Test".to_vec()), IndexedData::new(1, b"Test2".to_vec())];
    let mut a = SimpleDirectDeltaEncoding::new(&props);
    let patch = a.patch(&[
        IndexedData::new(0, b"Test".to_vec()),
        IndexedData::new(1, b"Test2".to_vec()),
        IndexedData::new(3, b"Test4".to_vec()),
    ]);
    let mut b = SimpleDirectDeltaEncoding::new(&props);
    let result = b.apply_patch(&patch).ok().unwrap();
    assert_eq!(result.len(), 1);
    assert_eq!(result[0].index, 3);
    assert_eq!(result[0].data, b"Test4".to_vec());
    assert_eq!(field_bytes(&b, 3), Some(b"Test4".to_vec()));
}

#[test]
fn empty_new_field_is_created() {
    let mut a = SimpleDirectDeltaEncoding::new(&[IndexedData::new(0, b"x".to_vec())]);
    let patch = a.patch(&[IndexedData::new(0, b"x".to_vec()), IndexedData::new(7, Vec::new())]);
    let mut b = SimpleDirectDeltaEncoding::new(&[IndexedData::new(0, b"x".to_vec())]);
    assert!(b.apply_patch(&patch).is_ok());
    assert_eq!(field_bytes(&b, 7), Some(Vec::new()));
}

#[test]
fn crc_gate() {
    let props = vec![IndexedData::new(0, b"Test".to_vec())];
    let mut a = SimpleDirectDeltaEncoding::new(&props);
    let patch = a.patch(&[IndexedData::new(0, b"Test2".to_vec())]);
    let initial = SimpleDirectDeltaEncoding::new(&props);
    let mut b = SimpleDirectDeltaEncoding::load(&[IndexedData::new(0, b"Tesx".to_vec())], initial.crc.clone());
    let result = b.apply_patch(&patch);
    assert!(matches!(result, Err(SDDEError::CRC(_))));
    assert_eq!(folded(&b), b"Tesx".to_vec());
    assert_eq!(b.crc, initial.crc);
}

#[test]
fn malformed_patches_are_rejected_without_change() {
    let props = vec![IndexedData::new(0, b"Test".to_vec())];
    let mut b = SimpleDirectDeltaEncoding::new(&props);
    assert!(matches!(b.apply_patch(&[]), Err(SDDEError::DifferenceInvalid(_))));
    let mut bad = vec![b.crc.len() as u8];
    bad.extend(b.crc.clone());
    bad.extend([b'v', 0, 6, b'x', 58, 4, 45, 1, 50]);
    assert!(matches!(b.apply_patch(&bad), Err(SDDEError::DifferenceInvalid(_))));
    let mut unreplayable = vec![b.crc.len() as u8];
    unreplayable.extend(b.crc.clone());
    unreplayable.extend([b'v', 0, 6, b'r', 58, 9, 45, 1, 50]);
    assert!(matches!(b.apply_patch(&unreplayable), Err(SDDEError::DifferenceInvalid(_))));
    assert_eq!(folded(&b), b"Test".to_vec());
    assert!(SimpleDirectDeltaEncoding::validate_patch_differences(&bad).is_err());
}

#[test]
fn validation_and_decoding() {
    let mut a = SimpleDirectDeltaEncoding::new(&[IndexedData::new(0, b"Test".to_vec())]);
    let patch = a.patch(&[IndexedData::new(0, b"Test2".to_vec()), IndexedData::new(2, b"zz".to_vec())]);
    assert!(SimpleDirectDeltaEncoding::validate_patch_differences(&patch).is_ok());
    let stream = SimpleDirectDeltaEncoding::get_differences_bytes_with_crc(&patch);
    assert_eq!(&stream[..2], &[b'v', 0]);
    let entries = SimpleDirectDeltaEncoding::get_differences(&patch).ok().unwrap();
    let first: &EntryDifference = entries[0].as_ref().unwrap();
    assert!(!first.remove_entry);
    assert_eq!(first.diffs.len(), 1);
    assert_eq!(first.diffs[0].value, b"2".to_vec());
    let second = entries[2].as_ref().unwrap();
    assert_eq!(second.diffs[0].action, DifferenceAction::Insert);
    assert!(entries[1].is_none());
}

#[test]
fn rename_propagation() {
    let props = vec![IndexedData::new(0, b"John".to_vec())];
    let mut a = SimpleDirectDeltaEncoding::new(&props);
    a.change_index_mapping(0, b"name");
    a.apply_index_mappings();
    let mut b = SimpleDirectDeltaEncoding::new(&props);
    b.change_index_mapping(0, b"name");
    b.apply_index_mappings();
    a.change_index_mapping(0, b"firstname");
    let patch = a.patch(&props);
    let result = b.apply_patch(&patch).ok().unwrap();
    assert_eq!(result.len(), 1);
    assert_eq!(result[0].index, 0);
    assert_eq!(result[0].map_name_changed, Some(b"firstname".to_vec()));
    let history = b.get_index_mapping()[0].clone().unwrap();
    assert_eq!(history.current, b"firstname".to_vec());
    assert_eq!(history.last, b"name".to_vec());
}

#[test]
fn unchanged_name_emits_nothing() {
    let props = vec![IndexedData::new(0, b"John".to_vec())];
    let mut a = SimpleDirectDeltaEncoding::new(&props);
    a.change_index_mapping(0, b"name");
    a.apply_index_mappings();
    a.change_index_mapping(0, b"name");
    let patch = a.patch(&props);
    assert_eq!(patch.len(), 1 + a.crc.len());
}

#[test]
fn history_value_set() {
    let mut h = HistoryValue::new(b"a".to_vec());
    assert!(h.last.is_empty());
    h.set(b"b".to_vec());
    assert_eq!(h.current, b"b".to_vec());
    assert_eq!(h.last, b"a".to_vec());
}

#[test]
fn entry_and_result_builders() {
    let e = EntryDifference::new(vec![record(DifferenceAction::Insert, 0, 1, b"a")]);
    assert!(!e.remove_entry);
    assert!(e.map_name_changed.is_none());
    let r = EntryDifference::remove_entry();
    assert!(r.remove_entry && r.diffs.is_empty());
    let res = IndexedDataResult::new(&IndexedData::new(4, b"data".to_vec()));
    assert_eq!(res.index, 4);
    assert_eq!(res.data, b"data".to_vec());
    assert!(res.map_name_changed.is_none());
}

#[test]
fn folding() {
    assert_eq!(
        SimpleDirectDeltaEncoding::fold_bytes(&[b"ab".to_vec(), Vec::new(), b"c".to_vec()]),
        b"abc".to_vec()
    );
    assert!(SimpleDirectDeltaEncoding::fold_indexes(&[]).is_empty());
}

#[test]
fn apply_with_a_given_crc() {
    let props = vec![IndexedData::new(0, b"Test".to_vec())];
    let mut a = SimpleDirectDeltaEncoding::new(&props);
    let patch = a.patch(&[IndexedData::new(0, b"Test2".to_vec())]);
    let mut b = SimpleDirectDeltaEncoding::new(&props);
    assert!(matches!(b.apply_patch_with_crc(&patch, b"0".to_vec()), Err(SDDEError::CRC(_))));
    assert_eq!(folded(&b), b"Test".to_vec());
    let result = b.apply_patch_with_crc(&patch, b"1367696971".to_vec()).ok().unwrap();
    assert_eq!(result[0].data, b"Test2".to_vec());
    assert_eq!(b.crc, b"1367696971".to_vec());
}

#[test]
fn empty_new_name_sends_no_block() {
    let mut a = SimpleDirectDeltaEncoding::new(&[]);
    a.change_index_mapping(0, &[]);
    let patch = a.patch(&[]);
    assert_eq!(patch.len(), 1 + a.crc.len());
    let history = a.get_index_mapping()[0].clone().unwrap();
    assert!(history.current.is_empty());
    let entries = SimpleDirectDeltaEncoding::get_differences(&patch).ok().unwrap();
    assert!(entries.iter().all(|e| e.is_none()));
    let mut b = SimpleDirectDeltaEncoding::new(&[]);
    assert!(b.apply_patch(&patch).ok().unwrap().is_empty());
}
