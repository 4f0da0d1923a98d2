use rlb::rlb_file::RLBFile;
use rlb::value::Value;
use rlb::Error;

fn build_file(data: &[u8], relocs: &[u32], records: &[(u32, u32)], other: &[(u32, u32)], labels: &[u8]) -> Vec<u8> {
    let file_size = 0x20 + data.len() + relocs.len() * 4 + (records.len() + other.len()) * 8 + labels.len();
    let mut bytes = Vec::new();
    for n in [file_size, data.len(), relocs.len(), records.len(), other.len()] {
        bytes.extend_from_slice(&(n as u32).to_be_bytes());
    }
    bytes.extend_from_slice(&[0u8; 12]);
    bytes.extend_from_slice(data);
    for r in relocs {
        bytes.extend_from_slice(&r.to_be_bytes());
    }
    for &(a, l) in records.iter().chain(other.iter()) {
        bytes.extend_from_slice(&a.to_be_bytes());
        bytes.extend_from_slice(&l.to_be_bytes());
    }
    bytes.extend_from_slice(labels);
    bytes
}

/// A string pool ("a.fsb", "b.fsb"), an FsbFileListData table of two entries at
/// 12 and a WanderingDataTable of one entry at 24.
fn sample_file() -> Vec<u8> {
    let mut data = b"a.fsb\0b.fsb\0".to_vec();
    data.extend_from_slice(&[0, 0, 0, 0, 0, 0, 0, 6, 0, 0, 0, 0]);
    data.extend_from_slice(&[0, 0, 0, 1, 0, 0, 0, 2, 1, 0, 0, 0]);
    data.extend_from_slice(&[0xFF, 0xFF, 0xFF, 0xFF, 0xFF, 0xFF, 0xFF, 0xFF, 0, 0, 0, 0]);
    build_file(
        &data,
        &[12, 16],
        &[(12, 0), (24, 16)],
        &[],
        b"FsbFileListData\0WanderingDataTable\0",
    )
}

fn string_of(v: Option<Value>) -> Option<String> {
    match v {
        Some(Value::String(s)) => s,
        other => panic!("not a string value: {other:?}"),
    }
}

#[test]
fn parse_lists_each_table_with_its_label_and_size() {
    let file = RLBFile::parse(&sample_file()).expect("parse should succeed");
    let views = file.tables().expect("every slot names a table");
    assert_eq!(views.len(), 2);
    assert_eq!(views[0].label, "FsbFileListData");
    assert_eq!(views[0].entry_count, 2);
    assert_eq!(views[0].fields.len(), 1);
    assert_eq!(views[0].fields[0].name, "script_name");
    assert_eq!(views[1].label, "WanderingDataTable");
    assert_eq!(views[1].entry_count, 1);
    assert_eq!(views[1].fields.len(), 3);
    assert_ne!(views[0].id, views[1].id);
}

#[test]
fn get_field_reads_pointers_integers_and_booleans() {
    let file = RLBFile::parse(&sample_file()).expect("parse should succeed");
    let views = file.tables().unwrap();
    let fsb = views[0].id;
    let wandering = views[1].id;
    assert_eq!(string_of(file.get_field(fsb, 0, "script_name")), Some("a.fsb".to_string()));
    assert_eq!(string_of(file.get_field(fsb, 1, "script_name")), Some("b.fsb".to_string()));
    assert!(matches!(file.get_field(wandering, 0, "pokemon_unlock_id"), Some(Value::Integer(1))));
    assert!(matches!(file.get_field(wandering, 0, "pokemon_friendship_id"), Some(Value::Integer(2))));
    assert!(matches!(file.get_field(wandering, 0, "enabled"), Some(Value::Boolean(true))));
    assert!(file.get_field(fsb, 2, "script_name").is_none());
    assert!(file.get_field(fsb, 0, "no_such_field").is_none());
}

#[test]
fn write_reproduces_the_parsed_file() {
    let input = sample_file();
    let file = RLBFile::parse(&input).expect("parse should succeed");
    assert_eq!(file.write().expect("write should succeed"), input);
}

#[test]
fn written_file_reads_back_to_the_same_values() {
    let mut file = RLBFile::parse(&sample_file()).expect("parse should succeed");
    let fsb = file.tables().unwrap()[0].id;
    file.set_field(fsb, 1, "script_name", Value::String(Some("c.fsb".to_string())))
        .expect("field exists");
    let written = file.write().expect("write should succeed");
    let reparsed = RLBFile::parse(&written).expect("parse should succeed");
    let id = reparsed.tables().unwrap()[0].id;
    assert_eq!(string_of(reparsed.get_field(id, 0, "script_name")), Some("a.fsb".to_string()));
    assert_eq!(string_of(reparsed.get_field(id, 1, "script_name")), Some("c.fsb".to_string()));
    assert_eq!(reparsed.write().expect("write should succeed"), written);
}

#[test]
fn set_field_rejects_unknown_entries_and_fields() {
    let mut file = RLBFile::parse(&sample_file()).expect("parse should succeed");
    let fsb = file.tables().unwrap()[0].id;
    assert!(matches!(file.set_field(fsb, 5, "script_name", Value::String(None)), Err(Error::Validation(_))));
    assert!(matches!(file.set_field(fsb, 0, "bogus", Value::String(None)), Err(Error::Validation(_))));
    assert_eq!(string_of(file.get_field(fsb, 0, "script_name")), Some("a.fsb".to_string()));
}

#[test]
fn a_value_of_the_wrong_kind_fails_to_write() {
    let mut file = RLBFile::parse(&sample_file()).expect("parse should succeed");
    let wandering = file.tables().unwrap()[1].id;
    file.set_field(wandering, 0, "enabled", Value::Integer(3)).expect("field exists");
    assert!(matches!(file.write(), Err(Error::Validation(_))));
}

#[test]
fn an_unknown_label_is_rejected() {
    let bytes = build_file(&[0, 0, 0, 0], &[], &[(0, 0)], &[], b"Mystery\0");
    match RLBFile::parse(&bytes) {
        Err(Error::UnknownTableSchema { name }) => assert_eq!(name, "Mystery"),
        other => panic!("unexpected result: {other:?}"),
    }
}

#[test]
fn a_label_outside_the_pool_is_rejected() {
    let bytes = build_file(&[0, 0, 0, 0], &[], &[(0, 40)], &[], b"FsbFileListData\0");
    assert!(matches!(RLBFile::parse(&bytes), Err(Error::OffsetOutOfBounds { .. })));
}

#[test]
fn a_table_without_its_terminator_is_rejected() {
    let bytes = build_file(&[0, 0, 0, 0, 0, 0, 0, 4], &[0, 4], &[(0, 0)], &[], b"FsbFileListData\0");
    assert!(RLBFile::parse(&bytes).is_err());
}

#[test]
fn tables_are_numbered_in_order_of_start() {
    // The other table of contents lists a table that starts first.
    let mut data = vec![0u8; 4];
    data.extend_from_slice(&[0, 0, 0, 0]);
    let bytes = build_file(&data, &[], &[(4, 0)], &[(0, 0)], b"FsbFileListData\0");
    let file = RLBFile::parse(&bytes).expect("parse should succeed");
    let views = file.tables().unwrap();
    assert_eq!(views.len(), 2);
    assert_eq!(views[0].id.0, 1);
    assert_eq!(views[1].id.0, 0);
    assert_eq!(file.write().expect("write should succeed"), build_file(&data, &[], &[(4, 0)], &[(0, 0)], b"FsbFileListData\0"));
}

/// A disposition header whose byte 4 counts two item kinds, and the item kinds.
fn counted_file() -> Vec<u8> {
    let mut data = vec![0, 0, 0, 0, 2, 0, 0, 0];
    data.extend_from_slice(&[0, 0, 0, 1, 0, 0, 0, 5, 0, 0, 0, 2, 0, 0, 0, 7]);
    build_file(
        &data,
        &[],
        &[(0, 0), (8, 22)],
        &[],
        b"dispositionDataHeader\0itemKindTotalNumData\0",
    )
}

#[test]
fn counted_tables_take_their_size_from_the_header() {
    let file = RLBFile::parse(&counted_file()).expect("parse should succeed");
    let views = file.tables().unwrap();
    assert_eq!(views[0].entry_count, 1);
    assert_eq!(views[1].entry_count, 2);
    assert!(matches!(file.get_field(views[0].id, 0, "item_kind_total_num_count"), Some(Value::Integer(2))));
    assert!(matches!(file.get_field(views[1].id, 1, "amount"), Some(Value::Integer(7))));
    assert!(matches!(file.get_field(views[1].id, 0, "item_kind"), Some(Value::Integer(1))));
    assert_eq!(file.write().expect("write should succeed"), counted_file());
}

#[test]
fn a_counted_table_needs_a_header() {
    let bytes = build_file(&[0; 8], &[], &[(0, 0)], &[], b"itemKindTotalNumData\0");
    assert!(matches!(RLBFile::parse(&bytes), Err(Error::Validation(_))));
}

#[test]
fn setting_a_field_leaves_the_others() {
    let mut file = RLBFile::parse(&counted_file()).expect("parse should succeed");
    let kinds = file.tables().unwrap()[1].id;
    file.set_field(kinds, 0, "amount", Value::Integer(9)).expect("field exists");
    assert!(matches!(file.get_field(kinds, 0, "amount"), Some(Value::Integer(9))));
    assert!(matches!(file.get_field(kinds, 0, "item_kind"), Some(Value::Integer(1))));
    assert!(matches!(file.get_field(kinds, 1, "amount"), Some(Value::Integer(7))));
    let reparsed = RLBFile::parse(&file.write().unwrap()).unwrap();
    let id = reparsed.tables().unwrap()[1].id;
    assert!(matches!(reparsed.get_field(id, 0, "amount"), Some(Value::Integer(9))));
}

#[test]
fn float_fields_keep_their_bits() {
    let bits = 1.5f32.to_bits();
    let mut data = vec![0, 0, 0, 0, 1, 0, 0, 0];
    for _ in 0..4 {
        data.extend_from_slice(&bits.to_be_bytes());
    }
    data[0] = 1;
    data[4] = 0;
    let bytes = build_file(&data, &[], &[(0, 0), (8, 22)], &[], b"dispositionDataHeader\0playerDispositionData\0");
    let file = RLBFile::parse(&bytes).expect("parse should succeed");
    let player = file.tables().unwrap()[1].id;
    match file.get_field(player, 0, "position_y") {
        Some(Value::Float(b)) => assert_eq!(f32::from_bits(b), 1.5),
        other => panic!("unexpected value: {other:?}"),
    }
    assert_eq!(file.write().unwrap(), bytes);
}

#[test]
fn reading_a_written_file_gives_the_same_tables_and_bytes() {
    for bytes in [sample_file(), counted_file()] {
        let file = RLBFile::parse(&bytes).expect("parse should succeed");
        let written = file.clone().write().expect("write should succeed");
        let reparsed = RLBFile::parse(&written).expect("parse should succeed");
        let before = file.tables().unwrap();
        let after = reparsed.tables().unwrap();
        assert_eq!(before.len(), after.len());
        for (b, a) in before.iter().zip(after.iter()) {
            assert_eq!(b.id, a.id);
            assert_eq!(b.label, a.label);
            assert_eq!(b.entry_count, a.entry_count);
            assert_eq!(b.fields, a.fields);
            for row in 0..b.entry_count {
                for field in &b.fields {
                    assert_eq!(file.get_field(b.id, row, field.name), reparsed.get_field(a.id, row, field.name));
                }
            }
        }
        assert_eq!(reparsed.write().expect("write should succeed"), written);
    }
}

#[test]
fn a_terminated_table_that_runs_out_of_data_is_unexpected_eof() {
    let bytes = build_file(&[0, 0, 0, 0, 0, 0, 0, 4], &[0, 4], &[(0, 0)], &[], b"FsbFileListData\0");
    match RLBFile::parse(&bytes) {
        Err(Error::UnexpectedEof { context }) => assert_eq!(context, "parsing table record"),
        other => panic!("unexpected result: {other:?}"),
    }
}

#[test]
fn a_wandering_table_that_runs_out_of_data_names_its_records() {
    let bytes = build_file(&[0, 0, 0, 0], &[], &[(0, 0)], &[], b"WanderingDataTable\0");
    match RLBFile::parse(&bytes) {
        Err(Error::UnexpectedEof { context }) => assert_eq!(context, "parsing WanderingData record"),
        other => panic!("unexpected result: {other:?}"),
    }
}
