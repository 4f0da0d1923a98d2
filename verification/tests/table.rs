use rlb::collection::{TableCollection, TableId};
use rlb::row::Row;
use rlb::schema::SchemaId;
use rlb::table::Table;
use rlb::value::Value;
use rlb::Error;

fn fsb_row(name: &str) -> Row {
    Row::new().with("script_name", Value::String(Some(name.to_string())))
}

#[test]
fn row_insert_replaces_and_returns_the_old_value() {
    let mut row = Row::new();
    assert!(row.insert("a", Value::Integer(1)).is_none());
    assert!(matches!(row.insert("a", Value::Integer(2)), Some(Value::Integer(1))));
    assert!(matches!(row.get("a"), Some(Value::Integer(2))));
    assert!(row.get("b").is_none());
}

#[test]
fn create_builds_a_table_from_rows() {
    let table = Table::create("FsbFileListData", &[fsb_row("x.fsb"), fsb_row("y.fsb")]).expect("rows fit");
    assert_eq!(table.entry_count(), 2);
    assert_eq!(table.schema_id(), SchemaId::FsbFileList);
    assert!(matches!(table.get_field(1, "script_name"), Some(Value::String(Some(ref s))) if s == "y.fsb"));
    let written = table.serialize().expect("values fit");
    assert_eq!(written.data, vec![0u8; 12]);
    assert_eq!(written.string_fixups.len(), 2);
    assert_eq!(written.string_fixups[0].offset, 0);
    assert_eq!(written.string_fixups[0].value, "x.fsb");
    assert_eq!(written.string_fixups[1].offset, 4);
}

#[test]
fn create_rejects_unknown_labels_and_missing_fields() {
    assert!(matches!(Table::create("Nope", &[]), Err(Error::UnknownTableSchema { .. })));
    assert!(matches!(Table::create("FsbFileListData", &[Row::new()]), Err(Error::Validation(_))));
    let header_row = Row::new().with("player_disposition_count", Value::Integer(0));
    assert!(matches!(Table::create("dispositionDataHeader", &[header_row]), Err(Error::Validation(_))));
}

#[test]
fn new_wandering_table_ends_with_its_terminator() {
    let table = Table::create("WanderingDataTable", &[]).expect("no rows");
    let written = table.serialize().expect("terminator fits");
    assert_eq!(written.data, vec![0xFF, 0xFF, 0xFF, 0xFF, 0xFF, 0xFF, 0xFF, 0xFF, 0, 0, 0, 0]);
}

#[test]
fn new_attraction_ranking_ends_with_its_terminator() {
    let table = Table::create("AttractionRanking", &[]).expect("no rows");
    let written = table.serialize().expect("terminator fits");
    let mut expected = vec![0u8; 28];
    expected[3] = 0xc9;
    assert_eq!(written.data, expected);
}

#[test]
fn append_and_remove_rows() {
    let mut table = Table::create("FsbFileListData", &[]).expect("no rows");
    assert_eq!(table.append_row(&fsb_row("a")).unwrap(), 0);
    assert_eq!(table.append_row(&fsb_row("b")).unwrap(), 1);
    assert!(matches!(table.append_row(&Row::new()), Err(Error::Validation(_))));
    table.remove_row(0).expect("row exists");
    assert_eq!(table.entry_count(), 1);
    assert!(matches!(table.get_field(0, "script_name"), Some(Value::String(Some(ref s))) if s == "b"));
    assert!(matches!(table.remove_row(3), Err(Error::Validation(_))));
}

#[test]
fn serialize_rejects_values_that_do_not_fit() {
    let row = Row::new().with("flag_name", Value::String(None)).with("bit_width", Value::Integer(256));
    let table = Table::create("FlagTable", &[row]).expect("row has every field");
    assert!(matches!(table.serialize(), Err(Error::Validation(_))));
}

#[test]
fn set_field_changes_one_value() {
    let mut table = Table::create("FsbFileListData", &[fsb_row("a")]).expect("rows fit");
    table.set_field(0, "script_name", Value::String(None)).expect("field exists");
    assert!(matches!(table.get_field(0, "script_name"), Some(Value::String(None))));
    assert!(matches!(table.set_field(0, "other", Value::String(None)), Err(Error::Validation(_))));
}

#[test]
fn collection_lays_out_strings_then_tables() {
    let mut tables = TableCollection::new();
    let a = tables.insert(Table::create("FsbFileListData", &[fsb_row("ab"), fsb_row("c")]).unwrap());
    let b = tables.insert(Table::create("FsbFileListData", &[fsb_row("c")]).unwrap());
    assert_eq!(tables.len(), 2);
    assert_eq!(a, TableId(0));
    assert_eq!(b, TableId(1));
    let out = tables.serialize().expect("strings encode");
    // Pool: "ab\0c\0" (5 bytes); table a at 5 (three entries), table b at 17 (two entries).
    let mut expected = b"ab\0c\0".to_vec();
    expected.extend_from_slice(&[0, 0, 0, 0, 0, 0, 0, 3, 0, 0, 0, 0]);
    expected.extend_from_slice(&[0, 0, 0, 3, 0, 0, 0, 0]);
    assert_eq!(out.data(), &expected);
    assert_eq!(out.offset_of(a), Some(5));
    assert_eq!(out.offset_of(b), Some(17));
    assert_eq!(out.offset_of(TableId(2)), None);
    assert_eq!(out.relocations(), &vec![5, 9, 17]);
}

#[test]
fn collection_set_field_checks_the_table_id() {
    let mut tables = TableCollection::new();
    let a = tables.insert(Table::create("FsbFileListData", &[fsb_row("x")]).unwrap());
    assert!(matches!(tables.set_field(TableId(7), 0, "script_name", Value::String(None)), Err(Error::Validation(_))));
    tables.set_field(a, 0, "script_name", Value::String(None)).expect("field exists");
    assert!(matches!(tables.get(a).unwrap().get_field(0, "script_name"), Some(Value::String(None))));
    assert!(tables.get(TableId(1)).is_none());
}

fn validation_message<T>(r: Result<T, Error>) -> String {
    match r {
        Err(Error::Validation(m)) => m,
        Err(other) => panic!("expected a validation error, got {:?}", other),
        Ok(_) => panic!("expected a validation error"),
    }
}

#[test]
fn error_messages_name_the_field_and_the_index() {
    assert_eq!(
        validation_message(Table::create("FsbFileListData", &[Row::new()])),
        "missing field \"script_name\""
    );
    let mut table = Table::create("FsbFileListData", &[fsb_row("a")]).expect("rows fit");
    assert_eq!(
        validation_message(table.set_field(0, "nope", Value::Integer(1))),
        "unknown field: 'nope'"
    );
    assert_eq!(
        validation_message(table.set_field(42, "script_name", Value::String(None))),
        "entry index 42 out of bounds"
    );
    assert_eq!(validation_message(table.remove_row(1234)), "row index 1234 out of bounds");
    assert_eq!(validation_message(table.remove_row(7)), "row index 7 out of bounds");
    assert_eq!(validation_message(table.append_row(&Row::new())), "missing field \"script_name\"");
}

#[test]
fn disposition_header_rows_can_be_neither_added_nor_removed() {
    let mut header = Table::create("dispositionDataHeader", &[]).expect("no rows");
    let row = Row::new().with("player_disposition_count", Value::Integer(0));
    assert_eq!(
        validation_message(header.append_row(&row)),
        "appending rows to DispositionDataHeader is not supported"
    );
    assert_eq!(
        validation_message(header.remove_row(0)),
        "removing rows from DispositionDataHeader is not supported"
    );
}

#[test]
fn unknown_table_ids_are_named_in_the_error() {
    let mut tables = TableCollection::new();
    assert_eq!(
        validation_message(tables.set_field(TableId(10), 0, "script_name", Value::Integer(0))),
        "unknown TableId TableId(11v1)"
    );
}

#[test]
fn finishing_an_entry_of_the_wrong_size_names_both_sizes() {
    let mut ser = rlb::codec::EntrySerializer::new();
    ser.write_u8(1);
    let mut table = rlb::codec::RelocatableTable::new();
    assert_eq!(validation_message(ser.finish(&mut table, 12)), "entry serialized 1 bytes, expected 12");
    assert!(table.data.is_empty());
}

#[test]
fn a_missing_table_label_is_named_in_the_error() {
    let relocations = rlb::relocation::RelocationTable::from_raw(&[]);
    let context = rlb::parse_context::ParseContext::new(&[], &relocations, vec![("a".to_string(), 4)]);
    assert_eq!(context.table_offset("a").unwrap(), 4);
    assert_eq!(
        validation_message(context.table_offset("dispositionDataHeader")),
        "RLB table entry \"dispositionDataHeader\" was not found"
    );
}

#[test]
fn field_reads_past_the_data_are_unexpected_eof_and_keep_the_position() {
    let relocations = rlb::relocation::RelocationTable::from_raw(&[]);
    let data = [0u8, 0, 1, 2, 0xFF];
    let context = rlb::parse_context::ParseContext::new(&data, &relocations, vec![]);
    let mut de = rlb::codec::EntryDeserializer::new(&context, 0);
    assert_eq!(de.read_u32().unwrap(), 0x0102);
    assert!(matches!(de.read_u32(), Err(Error::UnexpectedEof { context: "entry field (u32)" })));
    assert!(matches!(de.read_u16(), Err(Error::UnexpectedEof { context: "entry field (u16)" })));
    assert!(matches!(de.read_pad(2), Err(Error::UnexpectedEof { context: "entry pad bytes" })));
    assert!(matches!(de.read_string_pointer(), Err(Error::UnexpectedEof { context: "entry field (u32)" })));
    assert_eq!(de.read_u8().unwrap(), 0xFF);
    assert!(matches!(de.read_u8(), Err(Error::UnexpectedEof { context: "entry field (u8)" })));
}

#[test]
fn range_errors_name_the_field_except_in_the_disposition_header() {
    let row = Row::new().with("flag_name", Value::String(None)).with("bit_width", Value::Integer(256));
    let table = Table::create("FlagTable", &[row]).expect("row has every field");
    assert_eq!(validation_message(table.serialize()), "bit_width exceeds u8 range");

    let slots = rlb::schema::slots(SchemaId::DispositionDataHeader);
    let mut values = Vec::new();
    let mut pads = Vec::new();
    for slot in slots.iter() {
        match slot {
            rlb::schema::Slot::Field { .. } => values.push(Value::Integer(300)),
            rlb::schema::Slot::Pad(n) => pads.push(vec![0u8; *n]),
        }
    }
    let entry = rlb::entry::Entry::from_parts(values, pads);
    let mut ser = rlb::codec::EntrySerializer::new();
    assert_eq!(validation_message(entry.write(&mut ser, &slots, false)), "integer value exceeds u8 range");

    let mut ser = rlb::codec::EntrySerializer::new();
    assert_eq!(
        validation_message(ser.write_field(rlb::codec::Codec::U16, &Value::Integer(70000), "object_id")),
        "object_id exceeds u16 range"
    );
    assert!(ser.finish(&mut rlb::codec::RelocatableTable::new(), 0).is_ok());
    let mut ser = rlb::codec::EntrySerializer::new();
    assert_eq!(
        validation_message(ser.write_field(rlb::codec::Codec::U8, &Value::Float(0), "x")),
        "expected Integer value in write path; schema mismatch"
    );
}

#[test]
fn a_missing_label_is_debug_formatted_in_the_error() {
    let relocations = rlb::relocation::RelocationTable::from_raw(&[]);
    let context = rlb::parse_context::ParseContext::new(&[], &relocations, vec![]);
    assert_eq!(
        validation_message(context.table_offset("a\"b\\c\n")),
        format!("RLB table entry {:?} was not found", "a\"b\\c\n")
    );
    assert_eq!(validation_message(context.table_offset("a\"b")), "RLB table entry \"a\\\"b\" was not found");
}
