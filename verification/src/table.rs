//! A table: the entries of one schema, read from and written to the data blob.
use vstd::prelude::*;
use crate::codec::{
    fixups_view, shift_fixups, EntryDeserializer, EntrySerializer, RelocatableTable,
};
use crate::codec::past_data;
use crate::entry::{
    lemma_slots_error_prefix, slots_error, decode_slots, encode_slots, entry_from_row, entry_view_of, lemma_decode_within, value_position,
    missing_field, missing_field_message, unknown_field_message, field_position, slots_write_message,
    zeros, Entry, EntryView,
};
use crate::row::Row;
use crate::schema::field_count;
use crate::error::{Error, Result};
use crate::field::{FieldConstraint, FieldDescriptor, FieldKind, FloatKind, IntegerKind};
use crate::codec::Codec;
use crate::parse_context::{first_offset, ParseContext};
use crate::schema::{
    spec_row_layout, spec_schema_description,
    entry_size, row_layout, rows_rule, schema_description, schema_for_name, slots,
    spec_entry_size, spec_rows_rule, spec_schema_for_name, spec_slots, RowsRule, SchemaDescriptor,
    SchemaId, Slot,
};
use crate::value::{validation, validation_naming, Value, ValueView};
use crate::util::{debug_quoted, decimal, decimal_string};

verus! {

/// Whether `e` is the entry that ends a table of schema `id`.
pub open spec fn spec_is_terminator(id: SchemaId, e: EntryView) -> bool {
    match id {
        SchemaId::ScriptList => e.values.len() >= 5 && e.values[0] == ValueView::String(None)
            && e.values[1] == ValueView::Integer(0) && e.values[2] == ValueView::Integer(0)
            && e.values[3] == ValueView::Integer(0) && e.values[4] == ValueView::Integer(0),
        SchemaId::WanderingData => e.values.len() >= 3 && e.values[0] == ValueView::Integer(
            0xFFFF_FFFF,
        ) && e.values[1] == ValueView::Integer(0xFFFF_FFFF) && e.values[2]
            == ValueView::Boolean(false),
        SchemaId::FsbFileList | SchemaId::FlagTable => e.values.len() >= 1 && e.values[0]
            == ValueView::String(None),
        SchemaId::AttractionRanking => e.values.len() >= 1 && e.values[0] == ValueView::Integer(
            0xc9,
        ),
        _ => false,
    }
}

fn is_string_none(v: &Value) -> (r: bool)
    ensures
        r == (v@ == ValueView::String(None)),
{
    match v {
        Value::String(None) => true,
        _ => false,
    }
}

fn is_integer(v: &Value, n: u32) -> (r: bool)
    ensures
        r == (v@ == ValueView::Integer(n)),
{
    match v {
        Value::Integer(x) => *x == n,
        _ => false,
    }
}

fn is_boolean(v: &Value, b: bool) -> (r: bool)
    ensures
        r == (v@ == ValueView::Boolean(b)),
{
    match v {
        Value::Boolean(x) => *x == b,
        _ => false,
    }
}

/// A table as plain values.
#[verifier::ext_equal]
pub struct TableModel {
    pub schema: SchemaId,
    pub entries: Seq<EntryView>,
    pub terminator: Option<EntryView>,
}

/// `o` with `es` put before its entries.
pub open spec fn prepend(es: Seq<EntryView>, o: Option<(Seq<EntryView>, EntryView)>) -> Option<
    (Seq<EntryView>, EntryView),
> {
    match o {
        Some((xs, t)) => Some((es + xs, t)),
        None => None,
    }
}

/// The entries of a table of schema `id` from position `pos` up to its
/// terminator, and the terminator; `None` when an entry cannot be read first.
pub open spec fn decode_terminated(id: SchemaId, data: Seq<u8>, relocs: Seq<u32>, pos: int) -> Option<
    (Seq<EntryView>, EntryView),
>
    decreases data.len() - pos,
{
    let size = spec_entry_size(id);
    if pos < 0 || size == 0 || pos + size > data.len() {
        None
    } else {
        match decode_slots(spec_slots(id), data, relocs, pos) {
            None => None,
            Some(e) => if spec_is_terminator(id, e) {
                Some((Seq::empty(), e))
            } else {
                prepend(seq![e], decode_terminated(id, data, relocs, pos + size))
            },
        }
    }
}

/// The `count` entries of schema `id` stored one after the other from `root`.
pub open spec fn decode_counted(
    id: SchemaId,
    data: Seq<u8>,
    relocs: Seq<u32>,
    root: int,
    count: nat,
) -> Option<Seq<EntryView>>
    decreases count,
{
    if count == 0 {
        Some(Seq::empty())
    } else {
        match decode_counted(id, data, relocs, root, (count - 1) as nat) {
            None => None,
            Some(es) => match decode_slots(
                spec_slots(id),
                data,
                relocs,
                root + (count - 1) * spec_entry_size(id),
            ) {
                Some(e) => Some(es.push(e)),
                None => None,
            },
        }
    }
}

proof fn lemma_counted_prefix(
    id: SchemaId,
    data: Seq<u8>,
    relocs: Seq<u32>,
    root: int,
    count: nat,
    j: nat,
)
    requires
        j <= count,
        decode_counted(id, data, relocs, root, count) is Some,
    ensures
        decode_counted(id, data, relocs, root, j) is Some,
    decreases count,
{
    if j < count {
        lemma_counted_prefix(id, data, relocs, root, (count - 1) as nat, j);
    }
}

/// When the first `j` entries read and entry `j` does not, reading `count`
/// entries fails with the error of entry `j`.
proof fn lemma_counted_error_prefix(
    id: SchemaId,
    data: Seq<u8>,
    relocs: Seq<u32>,
    root: int,
    count: nat,
    j: nat,
)
    requires
        j < count,
        decode_counted(id, data, relocs, root, j) is Some,
        decode_counted(id, data, relocs, root, j + 1) is None,
    ensures
        decode_counted(id, data, relocs, root, count) is None,
        counted_error(id, data, relocs, root, count) == counted_error(id, data, relocs, root, j + 1),
    decreases count,
{
    if j + 1 < count {
        lemma_counted_error_prefix(id, data, relocs, root, (count - 1) as nat, j);
    }
}

/// The table of schema `id` that starts at `root` of `data`; `tables` gives where
/// each labelled table starts.
pub open spec fn decode_table(
    id: SchemaId,
    data: Seq<u8>,
    relocs: Seq<u32>,
    tables: Seq<(Seq<char>, usize)>,
    root: int,
) -> Option<TableModel> {
    match spec_rows_rule(id) {
        RowsRule::Terminated => match decode_terminated(id, data, relocs, root) {
            Some((es, t)) => Some(TableModel { schema: id, entries: es, terminator: Some(t) }),
            None => None,
        },
        RowsRule::Single => match decode_slots(spec_slots(id), data, relocs, root) {
            Some(e) => Some(TableModel { schema: id, entries: seq![e], terminator: None }),
            None => None,
        },
        RowsRule::CountedByHeaderByte(k) => match first_offset(tables, "dispositionDataHeader"@) {
            None => None,
            Some(h) => if h + k < data.len() {
                match decode_counted(id, data, relocs, root, data[h + k] as nat) {
                    Some(es) => Some(TableModel { schema: id, entries: es, terminator: None }),
                    None => None,
                }
            } else {
                None
            },
        },
    }
}

/// The error that reading a terminated table gives when the data ends before a
/// whole record of schema `id`.
pub open spec fn record_eof(id: SchemaId) -> Error {
    if id == SchemaId::WanderingData {
        Error::UnexpectedEof { context: "parsing WanderingData record" }
    } else {
        Error::UnexpectedEof { context: "parsing table record" }
    }
}

/// The error for a terminated table of schema `id` whose data ends before a
/// whole record.
fn record_eof_error(id: SchemaId) -> (r: Error)
    ensures
        r == record_eof(id),
{
    if id == SchemaId::WanderingData {
        Error::UnexpectedEof { context: "parsing WanderingData record" }
    } else {
        Error::UnexpectedEof { context: "parsing table record" }
    }
}

/// The error that reading a terminated table of schema `id` from `pos` gives
/// when it cannot be read: that of the first entry that cannot be read.
pub open spec fn terminated_error(id: SchemaId, data: Seq<u8>, relocs: Seq<u32>, pos: int) -> Error
    decreases data.len() - pos,
{
    let size = spec_entry_size(id);
    if pos < 0 || size == 0 || pos + size > data.len() {
        record_eof(id)
    } else {
        match decode_slots(spec_slots(id), data, relocs, pos) {
            None => slots_error(spec_slots(id), data, relocs, pos),
            Some(e) => if spec_is_terminator(id, e) {
                past_data(pos, data.len())
            } else {
                terminated_error(id, data, relocs, pos + size)
            },
        }
    }
}

/// The error that reading `count` entries of schema `id` from `root` gives when
/// they cannot be read: that of the first entry whose offset does not fit or
/// that cannot be read.
pub open spec fn counted_error(id: SchemaId, data: Seq<u8>, relocs: Seq<u32>, root: int, count: nat) -> Error
    decreases count,
{
    if count == 0 {
        past_data(root, data.len())
    } else if decode_counted(id, data, relocs, root, (count - 1) as nat) is None {
        counted_error(id, data, relocs, root, (count - 1) as nat)
    } else {
        let p = root + (count - 1) * spec_entry_size(id);
        if p > usize::MAX {
            Error::OffsetOutOfBounds { context: "table data", offset: root as usize, length: data.len() as usize }
        } else {
            slots_error(spec_slots(id), data, relocs, p)
        }
    }
}

/// `e` is the error that reading the table of schema `id` at `root` gives when it
/// cannot be read: a counted table also fails when no table is labelled as the
/// disposition header or its count byte lies past the data.
pub open spec fn table_fails_with(
    id: SchemaId,
    data: Seq<u8>,
    relocs: Seq<u32>,
    tables: Seq<(Seq<char>, usize)>,
    root: int,
    e: Error,
) -> bool {
    match spec_rows_rule(id) {
        RowsRule::Terminated => e == terminated_error(id, data, relocs, root),
        RowsRule::Single => e == slots_error(spec_slots(id), data, relocs, root),
        RowsRule::CountedByHeaderByte(k) => match first_offset(tables, "dispositionDataHeader"@) {
            None => e matches Error::Validation(m) && m@ == "RLB table entry "@ + debug_quoted(
                "dispositionDataHeader"@,
            ) + " was not found"@,
            Some(h) => if h + k > usize::MAX {
                e == Error::OffsetOutOfBounds { context: "table data", offset: h, length: data.len() as usize }
            } else if h + k >= data.len() {
                e == past_data(h + k, data.len())
            } else {
                e == counted_error(id, data, relocs, root, data[h + k] as nat)
            },
        },
    }
}

/// The bytes and fixups of an entry, provided it has exactly `size` bytes.
pub open spec fn encode_sized(slots: Seq<Slot>, size: nat, e: EntryView) -> Option<
    (Seq<u8>, Seq<(int, Seq<char>)>),
> {
    match encode_slots(slots, e) {
        Some((b, f)) => if b.len() == size {
            Some((b, f))
        } else {
            None
        },
        None => None,
    }
}

/// The bytes of the entries one after the other, and their fixups as offsets in
/// those bytes.
pub open spec fn encode_entries(slots: Seq<Slot>, size: nat, es: Seq<EntryView>) -> Option<
    (Seq<u8>, Seq<(int, Seq<char>)>),
>
    decreases es.len(),
{
    if es.len() == 0 {
        Some((Seq::empty(), Seq::empty()))
    } else {
        match encode_entries(slots, size, es.drop_last()) {
            None => None,
            Some((b, f)) => match encode_sized(slots, size, es.last()) {
                Some((eb, ef)) => Some((b + eb, f + shift_fixups(ef, b.len() as int))),
                None => None,
            },
        }
    }
}

/// The bytes and fixups of a whole table: its entries, then its terminator.
pub open spec fn encode_table(m: TableModel) -> Option<(Seq<u8>, Seq<(int, Seq<char>)>)> {
    let all = match m.terminator {
        Some(t) => m.entries.push(t),
        None => m.entries,
    };
    encode_entries(spec_slots(m.schema), spec_entry_size(m.schema), all)
}

/// The message of the error that writing entry `e` of `size` bytes gives when
/// it fails: that of a value that does not fit, or of an entry of the wrong size.
pub open spec fn entry_write_message(slots: Seq<Slot>, size: nat, e: EntryView, names_fields: bool) -> Seq<char> {
    match encode_slots(slots, e) {
        None => slots_write_message(slots, e, names_fields),
        Some((b, _)) => "entry serialized "@ + decimal(b.len()) + " bytes, expected "@ + decimal(size),
    }
}

/// The message of the error that writing the entries gives when it fails: that
/// of the first entry that cannot be written.
pub open spec fn entries_write_message(slots: Seq<Slot>, size: nat, es: Seq<EntryView>, names_fields: bool) -> Seq<
    char,
>
    decreases es.len(),
{
    if es.len() == 0 {
        Seq::empty()
    } else if encode_entries(slots, size, es.drop_last()) is None {
        entries_write_message(slots, size, es.drop_last(), names_fields)
    } else {
        entry_write_message(slots, size, es.last(), names_fields)
    }
}

/// The message of the error that writing the table `m` gives when it fails: that
/// of its first entry, terminator last, that cannot be written. Range errors
/// name the field, except in the disposition header.
pub open spec fn table_write_message(m: TableModel) -> Seq<char> {
    let all = match m.terminator {
        Some(t) => m.entries.push(t),
        None => m.entries,
    };
    entries_write_message(spec_slots(m.schema), spec_entry_size(m.schema), all, m.schema != SchemaId::DispositionDataHeader)
}

/// Once a prefix of the entries cannot be written, the message is that of the prefix.
proof fn lemma_entries_message_prefix(slots: Seq<Slot>, size: nat, es: Seq<EntryView>, names_fields: bool, k: int)
    requires
        0 <= k <= es.len(),
        encode_entries(slots, size, es.take(k)) is None,
    ensures
        entries_write_message(slots, size, es, names_fields) == entries_write_message(slots, size, es.take(k), names_fields),
    decreases es.len(),
{
    if k < es.len() {
        let d = es.drop_last();
        assert(d.take(k) =~= es.take(k));
        if encode_entries(slots, size, d) is Some {
            lemma_encode_entries_prefix(slots, size, d, k);
        }
        lemma_entries_message_prefix(slots, size, d, names_fields, k);
    } else {
        assert(es.take(k) =~= es);
    }
}

proof fn lemma_encode_entries_prefix(slots: Seq<Slot>, size: nat, es: Seq<EntryView>, k: int)
    requires
        0 <= k <= es.len(),
        encode_entries(slots, size, es) is Some,
    ensures
        encode_entries(slots, size, es.take(k)) is Some,
    decreases es.len(),
{
    if k < es.len() {
        assert(es.drop_last().take(k) =~= es.take(k));
        lemma_encode_entries_prefix(slots, size, es.drop_last(), k);
    } else {
        assert(es.take(k) =~= es);
    }
}

/// The names of the fields among the slots, in order.
pub open spec fn field_names(slots: Seq<Slot>) -> Seq<Seq<char>>
    decreases slots.len(),
{
    if slots.len() == 0 {
        Seq::empty()
    } else {
        match slots.last() {
            Slot::Field { name, .. } => field_names(slots.drop_last()).push(name@),
            Slot::Pad(_) => field_names(slots.drop_last()),
        }
    }
}

/// The names of the fields, read from the front: the first slot's name, if it is
/// a field, then the names of the rest.
proof fn lemma_field_names_front(slots: Seq<Slot>)
    requires
        slots.len() > 0,
    ensures
        field_names(slots) == match slots[0] {
            Slot::Field { name, .. } => seq![name@],
            Slot::Pad(_) => Seq::<Seq<char>>::empty(),
        } + field_names(slots.drop_first()),
    decreases slots.len(),
{
    if slots.len() == 1 {
        assert(slots.drop_last() =~= Seq::<Slot>::empty());
        assert(slots.drop_first() =~= Seq::<Slot>::empty());
        assert(slots.last() == slots[0]);
    } else {
        let d = slots.drop_last();
        lemma_field_names_front(d);
        assert(d[0] == slots[0]);
        assert(slots.drop_first().drop_last() =~= d.drop_first());
        assert(slots.drop_first().last() == slots.last());
    }
}

/// The position of the first field named `f` is a position among the field
/// names that holds `f`, and no name before it is `f`; with no such field, no
/// name is `f`.
proof fn lemma_field_position_names(slots: Seq<Slot>, f: Seq<char>)
    ensures
        field_position(slots, f) matches Some(k) ==> k < field_names(slots).len() && field_names(slots)[k as int] == f,
        field_position(slots, f) is None ==> forall|k: int| 0 <= k < field_names(slots).len() ==> field_names(slots)[k] != f,
    decreases slots.len(),
{
    if slots.len() > 0 {
        lemma_field_names_front(slots);
        lemma_field_position_names(slots.drop_first(), f);
        let rest = field_names(slots.drop_first());
        match slots[0] {
            Slot::Field { name, .. } => {
                let all = seq![name@] + rest;
                assert forall|k: int| 0 <= k < all.len() && k > 0 implies all[k] == rest[k - 1] by {}
                if field_position(slots, f) is None {
                    assert forall|k: int| 0 <= k < all.len() implies all[k] != f by {
                        if k > 0 {
                            assert(all[k] == rest[k - 1]);
                        }
                    }
                }
            },
            Slot::Pad(_) => {
                assert(Seq::<Seq<char>>::empty() + rest =~= rest);
            },
        }
    }
}

/// A row gives an entry exactly when it has a value for every field; the entry
/// then holds those values in field order, and otherwise the missing field is
/// the first one the row lacks.
proof fn lemma_entry_from_row_values(slots: Seq<Slot>, row: Map<Seq<char>, ValueView>)
    ensures
        entry_from_row(slots, row) is Some <==> forall|k: int|
            0 <= k < field_names(slots).len() ==> row.contains_key(#[trigger] field_names(slots)[k]),
        entry_from_row(slots, row) matches Some(e) ==> e.values == Seq::new(
            field_names(slots).len(),
            |k: int| row[field_names(slots)[k]],
        ),
        entry_from_row(slots, row) is None ==> exists|k: int|
            0 <= k < field_names(slots).len() && #[trigger] field_names(slots)[k] == missing_field(slots, row)
                && !row.contains_key(field_names(slots)[k]) && forall|j: int|
                0 <= j < k ==> row.contains_key(#[trigger] field_names(slots)[j]),
    decreases slots.len(),
{
    if slots.len() > 0 {
        let d = slots.drop_last();
        lemma_entry_from_row_values(d, row);
        let nd = field_names(d);
        let n = field_names(slots);
        match slots.last() {
            Slot::Field { name, .. } => {
                assert(n == nd.push(name@));
                assert forall|k: int| 0 <= k < nd.len() implies n[k] == #[trigger] nd[k] by {}
                if entry_from_row(slots, row) is Some {
                    assert forall|k: int| 0 <= k < n.len() implies row.contains_key(#[trigger] n[k]) by {
                        if k < nd.len() {
                            assert(n[k] == nd[k]);
                        }
                    }
                    let e = entry_from_row(slots, row).unwrap();
                    assert(e.values =~= Seq::new(n.len(), |k: int| row[n[k]]));
                } else {
                    if entry_from_row(d, row) is None {
                        let k = choose|k: int|
                            0 <= k < nd.len() && #[trigger] nd[k] == missing_field(d, row) && !row.contains_key(nd[k])
                                && forall|j: int| 0 <= j < k ==> row.contains_key(#[trigger] nd[j]);
                        assert(n[k] == nd[k]);
                        assert forall|j: int| 0 <= j < k implies row.contains_key(#[trigger] n[j]) by {
                            assert(n[j] == nd[j]);
                        }
                    } else {
                        let k = nd.len() as int;
                        assert(n[k] == name@);
                        assert forall|j: int| 0 <= j < k implies row.contains_key(#[trigger] n[j]) by {
                            assert(n[j] == nd[j]);
                        }
                    }
                }
                if forall|k: int| 0 <= k < n.len() ==> row.contains_key(#[trigger] n[k]) {
                    assert forall|k: int| 0 <= k < nd.len() implies row.contains_key(#[trigger] nd[k]) by {
                        assert(n[k] == nd[k]);
                    }
                    assert(row.contains_key(n[nd.len() as int]));
                }
            },
            Slot::Pad(_) => {
                assert(n == nd);
                if entry_from_row(slots, row) is Some {
                    let e = entry_from_row(slots, row).unwrap();
                    assert(e.values == entry_from_row(d, row).unwrap().values);
                }
            },
        }
    }
}

/// Adding a row succeeds exactly when the schema takes new rows and the row has
/// a value for every field. The new entry then comes last, reads each field as
/// the row's value for it, and nothing else of the table changes. When the row
/// lacks a field, the one named in the error is the first field it lacks.
pub proof fn lemma_append_row(m: TableModel, row: Map<Seq<char>, ValueView>)
    ensures
        model_append(m, row) is Some <==> (m.schema != SchemaId::DispositionDataHeader && forall|k: int|
            0 <= k < field_names(spec_slots(m.schema)).len() ==> row.contains_key(
                #[trigger] field_names(spec_slots(m.schema))[k],
            )),
        model_append(m, row) matches Some(t) ==> {
            &&& t.schema == m.schema
            &&& t.terminator == m.terminator
            &&& t.entries.len() == m.entries.len() + 1
            &&& t.entries.take(m.entries.len() as int) == m.entries
            &&& forall|f: Seq<char>|
                #[trigger] field_position(spec_slots(m.schema), f) is Some ==> {
                    &&& value_position(spec_slots(m.schema), t.entries.last(), f) == field_position(
                        spec_slots(m.schema),
                        f,
                    )
                    &&& t.entries.last().values[field_position(spec_slots(m.schema), f).unwrap() as int]
                        == row[f]
                }
            &&& forall|f: Seq<char>|
                #[trigger] field_position(spec_slots(m.schema), f) is None ==> value_position(
                    spec_slots(m.schema),
                    t.entries.last(),
                    f,
                ) is None
        },
        m.schema != SchemaId::DispositionDataHeader && model_append(m, row) is None ==> exists|k: int|
            0 <= k < field_names(spec_slots(m.schema)).len() && #[trigger] field_names(spec_slots(m.schema))[k]
                == missing_field(spec_slots(m.schema), row) && !row.contains_key(
                field_names(spec_slots(m.schema))[k],
            ) && forall|j: int|
                0 <= j < k ==> row.contains_key(#[trigger] field_names(spec_slots(m.schema))[j]),
{
    let sl = spec_slots(m.schema);
    lemma_entry_from_row_values(sl, row);
    if model_append(m, row) is Some {
        let t = model_append(m, row).unwrap();
        let e = entry_from_row(sl, row).unwrap();
        assert(t.entries.last() == e);
        assert(t.entries.take(m.entries.len() as int) =~= m.entries);
        assert forall|f: Seq<char>| #[trigger] field_position(sl, f) is Some implies {
            &&& value_position(sl, t.entries.last(), f) == field_position(sl, f)
            &&& t.entries.last().values[field_position(sl, f).unwrap() as int] == row[f]
        } by {
            lemma_field_position_names(sl, f);
        }
    }
}

/// A field of an entry that holds a value for each field reads exactly when the
/// schema has a field of that name; the value read is the entry's value for the
/// first field of that name.
pub proof fn lemma_field_reads_iff_named(slots: Seq<Slot>, e: EntryView, f: Seq<char>)
    requires
        e.values.len() == field_names(slots).len(),
    ensures
        value_position(slots, e, f) is Some <==> field_names(slots).contains(f),
        value_position(slots, e, f) matches Some(k) ==> field_names(slots)[k as int] == f && forall|j: int|
            0 <= j < k ==> field_names(slots)[j] != f,
{
    lemma_field_position_names_first(slots, f);
    if field_names(slots).contains(f) {
        let k = choose|k: int| 0 <= k < field_names(slots).len() && field_names(slots)[k] == f;
        assert(field_names(slots)[k] == f);
    }
}

/// The first field named `f` is the first position among the field names that
/// holds `f`.
proof fn lemma_field_position_names_first(slots: Seq<Slot>, f: Seq<char>)
    ensures
        field_position(slots, f) matches Some(k) ==> k < field_names(slots).len() && field_names(slots)[k as int] == f
            && forall|j: int| 0 <= j < k ==> field_names(slots)[j] != f,
        field_position(slots, f) is None ==> forall|k: int| 0 <= k < field_names(slots).len() ==> field_names(slots)[k] != f,
    decreases slots.len(),
{
    lemma_field_position_names(slots, f);
    if slots.len() > 0 {
        lemma_field_names_front(slots);
        lemma_field_position_names_first(slots.drop_first(), f);
        let rest = field_names(slots.drop_first());
        match slots[0] {
            Slot::Field { name, .. } => {
                let all = seq![name@] + rest;
                if field_position(slots, f) is Some {
                    let k = field_position(slots, f).unwrap();
                    assert forall|j: int| 0 <= j < k implies all[j] != f by {
                        if j > 0 {
                            assert(all[j] == rest[j - 1]);
                        }
                    }
                }
            },
            Slot::Pad(_) => {
                assert(Seq::<Seq<char>>::empty() + rest =~= rest);
            },
        }
    }
}

/// Reading a terminated table: when it reads, the entries are the records from
/// `pos` on, one after the other, none of them a terminator, and the terminator
/// is the record right after them.
pub proof fn lemma_terminated_shape(id: SchemaId, data: Seq<u8>, relocs: Seq<u32>, pos: int)
    requires
        decode_terminated(id, data, relocs, pos) is Some,
    ensures
        ({
            let (es, t) = decode_terminated(id, data, relocs, pos).unwrap();
            let size = spec_entry_size(id);
            &&& forall|j: int|
                0 <= j < es.len() ==> decode_slots(spec_slots(id), data, relocs, pos + j * size) == Some(
                    #[trigger] es[j],
                ) && !spec_is_terminator(id, es[j])
            &&& decode_slots(spec_slots(id), data, relocs, pos + es.len() * size) == Some(t)
            &&& spec_is_terminator(id, t)
        }),
    decreases data.len() - pos,
{
    let size = spec_entry_size(id);
    let e = decode_slots(spec_slots(id), data, relocs, pos).unwrap();
    if !spec_is_terminator(id, e) {
        lemma_terminated_shape(id, data, relocs, pos + size);
        let (xs, t) = decode_terminated(id, data, relocs, pos + size).unwrap();
        let (es, t2) = decode_terminated(id, data, relocs, pos).unwrap();
        assert(es == seq![e] + xs);
        assert forall|j: int| 0 <= j < es.len() implies decode_slots(spec_slots(id), data, relocs, pos + j * size)
            == Some(#[trigger] es[j]) && !spec_is_terminator(id, es[j]) by {
            if j > 0 {
                assert(es[j] == xs[j - 1]);
                assert(pos + size + (j - 1) * size == pos + j * size) by (nonlinear_arith);
            }
        }
        assert(pos + size + xs.len() * size == pos + es.len() * size) by (nonlinear_arith)
            requires es.len() == xs.len() + 1;
    }
}

/// The descriptor of a field of the given kind: its kind, and the range of values
/// its bytes hold (a wrapping byte indexes the script file list).
pub open spec fn spec_describe(name: &'static str, codec: Codec) -> FieldDescriptor {
    let (kind, constraint) = match codec {
        Codec::U8 => (
            FieldKind::Integer(IntegerKind::U8),
            FieldConstraint::IntegerRange { min: 0, max: 255 },
        ),
        Codec::U8Wrapping => (
            FieldKind::Integer(IntegerKind::U8),
            FieldConstraint::TableIndex { table: "FsbFileListData" },
        ),
        Codec::U16 => (
            FieldKind::Integer(IntegerKind::U16),
            FieldConstraint::IntegerRange { min: 0, max: 65535 },
        ),
        Codec::U32 => (FieldKind::Integer(IntegerKind::U32), FieldConstraint::Unconstrained),
        Codec::F32 => (FieldKind::Float(FloatKind::F32), FieldConstraint::Unconstrained),
        Codec::Bool => (FieldKind::Boolean, FieldConstraint::Unconstrained),
        Codec::StringPointer => (FieldKind::String, FieldConstraint::Unconstrained),
    };
    FieldDescriptor { name, description: "", kind, constraint }
}

/// The descriptors of the fields among the slots, in order.
pub open spec fn descriptor_list(slots: Seq<Slot>) -> Seq<FieldDescriptor>
    decreases slots.len(),
{
    if slots.len() == 0 {
        Seq::empty()
    } else {
        match slots.last() {
            Slot::Field { name, codec } => descriptor_list(slots.drop_last()).push(spec_describe(name, codec)),
            Slot::Pad(_) => descriptor_list(slots.drop_last()),
        }
    }
}

/// The descriptor of a field of the given kind.
fn describe(name: &'static str, codec: Codec) -> (r: FieldDescriptor)
    ensures
        r.name@ == name@,
        r == spec_describe(name, codec),
{
    let (kind, constraint) = match codec {
        Codec::U8 => (
            FieldKind::Integer(IntegerKind::U8),
            FieldConstraint::IntegerRange { min: 0, max: 255 },
        ),
        Codec::U8Wrapping => (
            FieldKind::Integer(IntegerKind::U8),
            FieldConstraint::TableIndex { table: "FsbFileListData" },
        ),
        Codec::U16 => (
            FieldKind::Integer(IntegerKind::U16),
            FieldConstraint::IntegerRange { min: 0, max: 65535 },
        ),
        Codec::U32 => (FieldKind::Integer(IntegerKind::U32), FieldConstraint::Unconstrained),
        Codec::F32 => (FieldKind::Float(FloatKind::F32), FieldConstraint::Unconstrained),
        Codec::Bool => (FieldKind::Boolean, FieldConstraint::Unconstrained),
        Codec::StringPointer => (FieldKind::String, FieldConstraint::Unconstrained),
    };
    FieldDescriptor { name, description: "", kind, constraint }
}

/// The descriptors of the fields of a schema, in file order.
pub fn field_descriptors(id: SchemaId) -> (r: Vec<FieldDescriptor>)
    ensures
        r@ == descriptor_list(spec_slots(id)),
        r@.len() == field_names(spec_slots(id)).len(),
        forall|k: int| 0 <= k < r@.len() ==> #[trigger] r@[k].name@ == field_names(spec_slots(id))[k],
{
    let sl = slots(id);
    let mut out: Vec<FieldDescriptor> = Vec::new();
    let mut i: usize = 0;
    assert(sl@.take(0) =~= Seq::<Slot>::empty());
    while i < sl.len()
        invariant
            sl@ == spec_slots(id),
            0 <= i <= sl@.len(),
            out@ == descriptor_list(sl@.take(i as int)),
            out@.len() == field_names(sl@.take(i as int)).len(),
            forall|k: int| 0 <= k < out@.len() ==> #[trigger] out@[k].name@ == field_names(
                sl@.take(i as int),
            )[k],
        decreases sl@.len() - i,
    {
        assert(sl@.take(i + 1).drop_last() =~= sl@.take(i as int));
        assert(sl@.take(i + 1).last() == sl@[i as int]);
        let ghost prev = field_names(sl@.take(i as int));
        let ghost before = out@;
        match sl[i] {
            Slot::Field { name, codec } => {
                let d = describe(name, codec);
                out.push(d);
                assert(field_names(sl@.take(i + 1)) == prev.push(name@));
                assert(out@ =~= descriptor_list(sl@.take(i + 1)));
                assert forall|k: int| 0 <= k < out@.len() implies #[trigger] out@[k].name@ == prev.push(name@)[k] by {
                    if k < before.len() {
                        assert(out@[k] == before[k]);
                        assert(before[k].name@ == prev[k]);
                    } else {
                        assert(out@[k] == d);
                    }
                }
            },
            Slot::Pad(_) => {
                assert(field_names(sl@.take(i + 1)) == prev);
            },
        }
        i = i + 1;
    }
    assert(sl@.take(sl@.len() as int) =~= sl@);
    out
}

/// The descriptor of a schema: its fields and its row layout.
pub fn schema_descriptor(id: SchemaId) -> (r: SchemaDescriptor)
    ensures
        r.id == id,
        r.description == spec_schema_description(id),
        r.fields@ == descriptor_list(spec_slots(id)),
        r.rows == spec_row_layout(id),
        r.fields@.len() == field_names(spec_slots(id)).len(),
        forall|k: int| 0 <= k < r.fields@.len() ==> #[trigger] r.fields@[k].name@ == field_names(spec_slots(id))[k],
{
    SchemaDescriptor {
        id,
        description: schema_description(id),
        fields: field_descriptors(id),
        rows: row_layout(id),
    }
}

/// The table with field `field` of entry `index` set to `value`; `None` when
/// there is no such entry or field.
pub open spec fn model_set_field(m: TableModel, index: int, field: Seq<char>, value: ValueView) -> Option<
    TableModel,
> {
    if index < 0 || index >= m.entries.len() {
        None
    } else {
        match value_position(spec_slots(m.schema), m.entries[index], field) {
            Some(k) => Some(
                TableModel {
                    schema: m.schema,
                    entries: m.entries.update(
                        index,
                        EntryView {
                            values: m.entries[index].values.update(k as int, value),
                            pads: m.entries[index].pads,
                        },
                    ),
                    terminator: m.terminator,
                },
            ),
            None => None,
        }
    }
}

/// The entries as plain values.
pub open spec fn entries_view(v: Seq<Entry>) -> Seq<EntryView> {
    Seq::new(v.len(), |i: int| v[i]@)
}

/// The value that field `k` of a new terminator of schema `id` holds: what the
/// schema recognises as the end of its rows, and zero or `None` elsewhere.
pub open spec fn initial_value(id: SchemaId, k: nat, codec: Codec) -> ValueView {
    if id == SchemaId::WanderingData && k < 2 {
        ValueView::Integer(0xFFFF_FFFF)
    } else if id == SchemaId::AttractionRanking && k == 0 {
        ValueView::Integer(0xc9)
    } else {
        match codec {
            Codec::Bool => ValueView::Boolean(false),
            Codec::F32 => ValueView::Float(0),
            Codec::StringPointer => ValueView::String(None),
            _ => ValueView::Integer(0),
        }
    }
}

/// The new terminator of schema `id` as far as `slots` go, with zero padding.
pub open spec fn initial_entry(id: SchemaId, slots: Seq<Slot>) -> EntryView
    decreases slots.len(),
{
    if slots.len() == 0 {
        EntryView { values: Seq::empty(), pads: Seq::empty() }
    } else {
        let e = initial_entry(id, slots.drop_last());
        match slots.last() {
            Slot::Field { codec, .. } => EntryView {
                values: e.values.push(initial_value(id, field_count(slots.drop_last()), codec)),
                pads: e.pads,
            },
            Slot::Pad(n) => EntryView { values: e.values, pads: e.pads.push(Seq::new(n as nat, |i: int| 0u8)) },
        }
    }
}

/// The terminator of a new table of schema `id`, for schemas whose rows end with one.
pub open spec fn initial_terminator(id: SchemaId) -> Option<EntryView> {
    match spec_rows_rule(id) {
        RowsRule::Terminated => Some(initial_entry(id, spec_slots(id))),
        _ => None,
    }
}

proof fn lemma_initial_entry_values(id: SchemaId, slots: Seq<Slot>)
    ensures
        initial_entry(id, slots).values.len() == field_count(slots),
    decreases slots.len(),
{
    if slots.len() > 0 {
        lemma_initial_entry_values(id, slots.drop_last());
    }
}

/// The value of field `k` of a new terminator of schema `id`.
fn new_value(id: SchemaId, k: usize, codec: Codec) -> (r: Value)
    ensures
        r@ == initial_value(id, k as nat, codec),
{
    if id == SchemaId::WanderingData && k < 2 {
        Value::Integer(0xFFFF_FFFF)
    } else if id == SchemaId::AttractionRanking && k == 0 {
        Value::Integer(0xc9)
    } else {
        match codec {
            Codec::Bool => Value::Boolean(false),
            Codec::F32 => Value::Float(0),
            Codec::StringPointer => Value::String(None),
            _ => Value::Integer(0),
        }
    }
}

/// The terminator of a new table of schema `id`, if its rows end with one.
fn new_terminator(id: SchemaId) -> (r: Option<Entry>)
    ensures
        match initial_terminator(id) {
            Some(t) => r matches Some(e) && e@ == t,
            None => r is None,
        },
{
    match rows_rule(id) {
        RowsRule::Terminated => {},
        _ => {
            return None;
        },
    }
    let sl = slots(id);
    let mut values: Vec<Value> = Vec::new();
    let mut pads: Vec<Vec<u8>> = Vec::new();
    let mut i: usize = 0;
    assert(sl@.take(0) =~= Seq::<Slot>::empty());
    assert(entry_view_of(values@, pads@) =~= initial_entry(id, Seq::<Slot>::empty()));
    while i < sl.len()
        invariant
            sl@ == spec_slots(id),
            0 <= i <= sl@.len(),
            initial_entry(id, sl@.take(i as int)) == entry_view_of(values@, pads@),
        decreases sl@.len() - i,
    {
        assert(sl@.take(i + 1).drop_last() =~= sl@.take(i as int));
        assert(sl@.take(i + 1).last() == sl@[i as int]);
        proof {
            lemma_initial_entry_values(id, sl@.take(i as int));
        }
        let ghost before = entry_view_of(values@, pads@);
        match sl[i] {
            Slot::Field { codec, .. } => {
                let v = new_value(id, values.len(), codec);
                values.push(v);
                assert(entry_view_of(values@, pads@) =~= EntryView {
                    values: before.values.push(v@),
                    pads: before.pads,
                });
            },
            Slot::Pad(n) => {
                pads.push(zeros(n));
                assert(entry_view_of(values@, pads@) =~= EntryView {
                    values: before.values,
                    pads: before.pads.push(Seq::new(n as nat, |k: int| 0u8)),
                });
            },
        }
        i = i + 1;
    }
    assert(sl@.take(sl@.len() as int) =~= sl@);
    Some(Entry::from_parts(values, pads))
}

/// The table with an entry made from `row` added at the end; `None` when the
/// schema does not take new rows or the row lacks a field.
pub open spec fn model_append(m: TableModel, row: Map<Seq<char>, ValueView>) -> Option<TableModel> {
    if m.schema == SchemaId::DispositionDataHeader {
        None
    } else {
        match entry_from_row(spec_slots(m.schema), row) {
            Some(e) => Some(TableModel { schema: m.schema, entries: m.entries.push(e), terminator: m.terminator }),
            None => None,
        }
    }
}

/// The table with each row added in turn.
pub open spec fn append_rows(m: TableModel, rows: Seq<Map<Seq<char>, ValueView>>) -> Option<TableModel>
    decreases rows.len(),
{
    if rows.len() == 0 {
        Some(m)
    } else {
        match append_rows(m, rows.drop_last()) {
            None => None,
            Some(t) => model_append(t, rows.last()),
        }
    }
}

proof fn lemma_append_rows_prefix(m: TableModel, rows: Seq<Map<Seq<char>, ValueView>>, k: int)
    requires
        0 <= k <= rows.len(),
        append_rows(m, rows) is Some,
    ensures
        append_rows(m, rows.take(k)) is Some,
    decreases rows.len(),
{
    if k < rows.len() {
        assert(rows.drop_last().take(k) =~= rows.take(k));
        lemma_append_rows_prefix(m, rows.drop_last(), k);
    } else {
        assert(rows.take(k) =~= rows);
    }
}

/// The message of the error for setting field `field` of entry `index` of `m`
/// when there is no such entry or field.
pub open spec fn set_field_message(m: TableModel, index: int, field: Seq<char>) -> Seq<char> {
    if index < 0 || index >= m.entries.len() {
        "entry index "@ + decimal(index as nat) + " out of bounds"@
    } else {
        unknown_field_message(field)
    }
}

/// The message of the error for adding `row` to `m` when that fails.
pub open spec fn append_message(m: TableModel, row: Map<Seq<char>, ValueView>) -> Seq<char> {
    if m.schema == SchemaId::DispositionDataHeader {
        "appending rows to DispositionDataHeader is not supported"@
    } else {
        missing_field_message(spec_slots(m.schema), row)
    }
}

/// The message of the error for removing entry `index` of `m` when that fails.
pub open spec fn remove_message(m: TableModel, index: int) -> Seq<char> {
    if m.schema == SchemaId::DispositionDataHeader {
        "removing rows from DispositionDataHeader is not supported"@
    } else {
        "row index "@ + decimal(index as nat) + " out of bounds"@
    }
}

/// The message of the error for adding `rows` to `m` in turn: that of the first
/// row that cannot be added.
pub open spec fn append_rows_message(m: TableModel, rows: Seq<Map<Seq<char>, ValueView>>) -> Seq<char>
    decreases rows.len(),
{
    if rows.len() == 0 {
        Seq::empty()
    } else {
        match append_rows(m, rows.drop_last()) {
            None => append_rows_message(m, rows.drop_last()),
            Some(t) => append_message(t, rows.last()),
        }
    }
}

/// Once a prefix of the rows cannot be added, the message is that of the prefix.
proof fn lemma_append_rows_message_prefix(m: TableModel, rows: Seq<Map<Seq<char>, ValueView>>, k: int)
    requires
        0 <= k <= rows.len(),
        append_rows(m, rows.take(k)) is None,
    ensures
        append_rows_message(m, rows) == append_rows_message(m, rows.take(k)),
    decreases rows.len(),
{
    if k < rows.len() {
        let d = rows.drop_last();
        assert(d.take(k) =~= rows.take(k));
        if append_rows(m, d) is Some {
            lemma_append_rows_prefix(m, d, k);
        }
        lemma_append_rows_message_prefix(m, d, k);
    } else {
        assert(rows.take(k) =~= rows);
    }
}

/// A new table of schema `id`: no entries, and the schema's terminator if its rows
/// end with one.
pub open spec fn empty_table(id: SchemaId) -> TableModel {
    TableModel { schema: id, entries: Seq::empty(), terminator: initial_terminator(id) }
}

/// The rows as plain values.
pub open spec fn rows_view(rows: Seq<Row>) -> Seq<Map<Seq<char>, ValueView>> {
    Seq::new(rows.len(), |i: int| rows[i]@)
}

/// A table of one schema: its entries, and its terminator when its rows end with one.
#[derive(Debug, Clone)]
pub struct Table {
    schema: SchemaId,
    entries: Vec<Entry>,
    terminator: Option<Entry>,
}

impl View for Table {
    type V = TableModel;

    closed spec fn view(&self) -> TableModel {
        TableModel {
            schema: self.schema,
            entries: entries_view(self.entries@),
            terminator: match self.terminator {
                Some(t) => Some(t@),
                None => None,
            },
        }
    }
}

/// Whether `e` is the entry that ends a table of schema `id`.
pub fn is_terminator(id: SchemaId, e: &Entry) -> (r: bool)
    ensures
        r == spec_is_terminator(id, e@),
{
    let values = e.values();
    match id {
        SchemaId::ScriptList => values.len() >= 5 && is_string_none(&values[0]) && is_integer(
            &values[1],
            0,
        ) && is_integer(&values[2], 0) && is_integer(&values[3], 0) && is_integer(&values[4], 0),
        SchemaId::WanderingData => values.len() >= 3 && is_integer(&values[0], 0xFFFF_FFFF)
            && is_integer(&values[1], 0xFFFF_FFFF) && is_boolean(&values[2], false),
        SchemaId::FsbFileList | SchemaId::FlagTable => values.len() >= 1 && is_string_none(
            &values[0],
        ),
        SchemaId::AttractionRanking => values.len() >= 1 && is_integer(&values[0], 0xc9),
        _ => false,
    }
}

impl Table {
    /// Reads the table labelled `name` that starts at `offset` of the context's data.
    ///
    /// Fails with `UnknownTableSchema` when the label names no schema, and with
    /// another error when an entry cannot be read.
    pub fn parse(name: &str, context: &ParseContext, offset: usize) -> (r: Result<Table>)
        ensures
            spec_schema_for_name(name@) is None ==> (r matches Err(
                Error::UnknownTableSchema { name: n },
            ) && n@ == name@),
            spec_schema_for_name(name@) matches Some(id) ==> match decode_table(
                id,
                context.data_view(),
                context.relocations_view(),
                context.tables_view(),
                offset as int,
            ) {
                Some(m) => r matches Ok(t) && t@ == m,
                None => r matches Err(e) && table_fails_with(
                    id,
                    context.data_view(),
                    context.relocations_view(),
                    context.tables_view(),
                    offset as int,
                    e,
                ),
            },
    {
        let id = match schema_for_name(name) {
            Some(id) => id,
            None => {
                return Err(Error::UnknownTableSchema { name: name.to_owned() });
            },
        };
        match rows_rule(id) {
            RowsRule::Terminated => Self::parse_terminated(id, context, offset),
            RowsRule::Single => {
                let sl = slots(id);
                let mut de = EntryDeserializer::new(context, offset);
                let e = Entry::read(&mut de, sl.as_slice())?;
                let mut entries: Vec<Entry> = Vec::new();
                entries.push(e);
                let t = Table { schema: id, entries, terminator: None };
                assert(t@.entries =~= seq![e@]);
                Ok(t)
            },
            RowsRule::CountedByHeaderByte(k) => {
                let header = context.table_offset("dispositionDataHeader")?;
                let at = match header.checked_add(k) {
                    Some(at) => at,
                    None => {
                        return Err(
                            Error::OffsetOutOfBounds {
                                context: "table data",
                                offset: header,
                                length: context.data_len(),
                            },
                        );
                    },
                };
                let count = context.read_u8(at)?;
                Self::parse_counted(id, context, offset, count as usize)
            },
        }
    }

    /// Appends the bytes and fixups of `e` to `rt`.
    fn append_entry(rt: &mut RelocatableTable, e: &Entry, sl: &[Slot], size: usize, names_fields: bool) -> (r: Result<()>)
        ensures
            encode_sized(sl@, size as nat, e@) matches Some((eb, ef)) ==> r is Ok && final(rt).data@
                == old(rt).data@ + eb && fixups_view(final(rt).string_fixups@) == fixups_view(
                old(rt).string_fixups@,
            ) + shift_fixups(ef, old(rt).data@.len() as int),
            encode_sized(sl@, size as nat, e@) is None ==> (r matches Err(Error::Validation(m)) && m@
                == entry_write_message(sl@, size as nat, e@, names_fields)),
    {
        let mut ser = EntrySerializer::new();
        match e.write(&mut ser, sl, names_fields) {
            Ok(()) => {},
            Err(err) => return Err(err),
        }
        ser.finish(rt, size)
    }

    /// Writes the table: each entry, then the terminator, with a fixup for each
    /// pointer field that holds a string.
    ///
    /// Fails with `Validation` when a value does not fit its field.
    pub fn serialize(&self) -> (r: Result<RelocatableTable>)
        ensures
            encode_table(self@) matches Some((b, f)) ==> r matches Ok(t) && t.data@ == b
                && fixups_view(t.string_fixups@) == f,
            encode_table(self@) is None ==> (r matches Err(Error::Validation(m)) && m@
                == table_write_message(self@)),
    {
        let sl = slots(self.schema);
        let size = entry_size(self.schema);
        let names = self.schema != SchemaId::DispositionDataHeader;
        let mut rt = RelocatableTable::new();
        let ghost all = match self@.terminator {
            Some(t) => self@.entries.push(t),
            None => self@.entries,
        };
        let mut i: usize = 0;
        assert(self@.entries.take(0) =~= Seq::<EntryView>::empty());
        assert(fixups_view(rt.string_fixups@) =~= Seq::<(int, Seq<char>)>::empty());
        while i < self.entries.len()
            invariant
                sl@ == spec_slots(self.schema),
                size == spec_entry_size(self.schema),
                names == (self@.schema != SchemaId::DispositionDataHeader),
                0 <= i <= self.entries@.len(),
                all == match self@.terminator {
                    Some(t) => self@.entries.push(t),
                    None => self@.entries,
                },
                encode_entries(sl@, size as nat, self@.entries.take(i as int)) == Some(
                    (rt.data@, fixups_view(rt.string_fixups@)),
                ),
            decreases self.entries@.len() - i,
        {
            let ghost next = self@.entries.take(i + 1);
            assert(next.drop_last() =~= self@.entries.take(i as int));
            assert(next.last() == self.entries@[i as int]@);
            match Self::append_entry(&mut rt, &self.entries[i], sl.as_slice(), size, names) {
                Ok(()) => {},
                Err(e) => {
                    proof {
                        assert(all.take(i + 1) =~= next);
                        if encode_table(self@) is Some {
                            lemma_encode_entries_prefix(sl@, size as nat, all, i + 1);
                        }
                        lemma_entries_message_prefix(sl@, size as nat, all, names, i + 1);
                    }
                    return Err(e);
                },
            }
            i = i + 1;
        }
        assert(self@.entries.take(self@.entries.len() as int) =~= self@.entries);
        match &self.terminator {
            Some(t) => {
                assert(all.drop_last() =~= self@.entries);
                match Self::append_entry(&mut rt, t, sl.as_slice(), size, names) {
                    Ok(()) => {},
                    Err(e) => return Err(e),
                }
            },
            None => {},
        }
        Ok(rt)
    }

    /// The number of entries, not counting a terminator.
    pub fn entry_count(&self) -> (r: usize)
        ensures
            r == self@.entries.len(),
    {
        self.entries.len()
    }

    /// The schema of the table.
    pub fn schema_id(&self) -> (r: SchemaId)
        ensures
            r == self@.schema,
    {
        self.schema
    }

    /// The descriptors of the table's fields.
    pub fn field_descriptors(&self) -> (r: Vec<FieldDescriptor>)
        ensures
            r@ == descriptor_list(spec_slots(self@.schema)),
            r@.len() == field_names(spec_slots(self@.schema)).len(),
            forall|k: int| 0 <= k < r@.len() ==> #[trigger] r@[k].name@ == field_names(spec_slots(self@.schema))[k],
    {
        field_descriptors(self.schema)
    }

    /// The descriptor of the table's schema.
    pub fn schema(&self) -> (r: SchemaDescriptor)
        ensures
            r.id == self@.schema,
            r.description == spec_schema_description(self@.schema),
            r.fields@ == descriptor_list(spec_slots(self@.schema)),
            r.rows == spec_row_layout(self@.schema),
    {
        schema_descriptor(self.schema)
    }

    /// The value of field `field` of entry `index`, or `None` when there is no
    /// such entry or field.
    pub fn get_field(&self, index: usize, field: &str) -> (r: Option<Value>)
        ensures
            index >= self@.entries.len() ==> r is None,
            index < self@.entries.len() ==> match value_position(
                spec_slots(self@.schema),
                self@.entries[index as int],
                field@,
            ) {
                Some(k) => r matches Some(v) && v@ == self@.entries[index as int].values[k as int],
                None => r is None,
            },
    {
        if index >= self.entries.len() {
            return None;
        }
        let sl = slots(self.schema);
        self.entries[index].get(sl.as_slice(), field)
    }

    /// Sets field `field` of entry `index` to `value`.
    ///
    /// Fails with `Validation` when there is no such entry or field; the table is
    /// then unchanged.
    pub fn set_field(&mut self, index: usize, field: &str, value: Value) -> (r: Result<()>)
        ensures
            model_set_field(old(self)@, index as int, field@, value@) matches Some(m) ==> (r is Ok
                && final(self)@ == m),
            model_set_field(old(self)@, index as int, field@, value@) is None ==> (r matches Err(
                Error::Validation(m),
            ) && m@ == set_field_message(old(self)@, index as int, field@) && final(self)@ == old(self)@),
    {
        if index >= self.entries.len() {
            return Err(validation_naming("entry index ", decimal_string(index as u128).as_str(), " out of bounds"));
        }
        let sl = slots(self.schema);
        let mut e = self.entries.remove(index);
        let r = e.set(sl.as_slice(), field, value);
        self.entries.insert(index, e);
        proof {
            assert(entries_view(self.entries@) =~= entries_view(old(self).entries@).update(
                index as int,
                e@,
            ));
            if r is Err {
                assert(entries_view(self.entries@) =~= entries_view(old(self).entries@));
                assert(self@ =~= old(self)@);
            } else {
                assert(self@ =~= model_set_field(old(self)@, index as int, field@, value@).unwrap());
            }
        }
        r
    }

    /// A new table labelled `name` holding an entry for each row.
    ///
    /// Fails with `UnknownTableSchema` when the label names no schema, and with
    /// `Validation` when the schema does not take new rows or a row lacks a field.
    pub fn create(name: &str, rows: &[Row]) -> (r: Result<Table>)
        ensures
            spec_schema_for_name(name@) is None ==> (r matches Err(
                Error::UnknownTableSchema { name: n },
            ) && n@ == name@),
            spec_schema_for_name(name@) matches Some(id) ==> match append_rows(empty_table(id), rows_view(rows@)) {
                Some(m) => r matches Ok(t) && t@ == m,
                None => r matches Err(Error::Validation(msg)) && msg@ == append_rows_message(
                    empty_table(id),
                    rows_view(rows@),
                ),
            },
    {
        let id = match schema_for_name(name) {
            Some(id) => id,
            None => {
                return Err(Error::UnknownTableSchema { name: name.to_owned() });
            },
        };
        let mut table = Table { schema: id, entries: Vec::new(), terminator: new_terminator(id) };
        assert(table@ =~= empty_table(id));
        let ghost rv = rows_view(rows@);
        let mut i: usize = 0;
        assert(rv.take(0) =~= Seq::<Map<Seq<char>, ValueView>>::empty());
        while i < rows.len()
            invariant
                rv == rows_view(rows@),
                spec_schema_for_name(name@) == Some(id),
                0 <= i <= rows@.len(),
                append_rows(empty_table(id), rv.take(i as int)) == Some(table@),
            decreases rows@.len() - i,
        {
            assert(rv.take(i + 1).drop_last() =~= rv.take(i as int));
            assert(rv.take(i + 1).last() == rows@[i as int]@);
            match table.append_row(&rows[i]) {
                Ok(_) => {},
                Err(e) => {
                    proof {
                        if append_rows(empty_table(id), rv) is Some {
                            lemma_append_rows_prefix(empty_table(id), rv, i + 1);
                        }
                        lemma_append_rows_message_prefix(empty_table(id), rv, i + 1);
                    }
                    return Err(e);
                },
            }
            i = i + 1;
        }
        assert(rv.take(rv.len() as int) =~= rv);
        Ok(table)
    }

    /// Adds an entry made from `row` at the end, and returns its index.
    ///
    /// Fails with `Validation` when the schema does not take new rows or the row
    /// lacks a field; the table is then unchanged.
    pub fn append_row(&mut self, row: &Row) -> (r: Result<usize>)
        ensures
            model_append(old(self)@, row@) matches Some(m) ==> (r == Ok::<usize, Error>(
                old(self)@.entries.len() as usize,
            ) && final(self)@ == m),
            model_append(old(self)@, row@) is None ==> (r matches Err(Error::Validation(m))
                && m@ == append_message(old(self)@, row@) && final(self)@ == old(self)@),
    {
        if self.schema == SchemaId::DispositionDataHeader {
            return Err(validation("appending rows to DispositionDataHeader is not supported"));
        }
        let sl = slots(self.schema);
        let entry = match Entry::from_row(sl.as_slice(), row) {
            Ok(e) => e,
            Err(e) => return Err(e),
        };
        let index = self.entries.len();
        let ghost before = entries_view(self.entries@);
        self.entries.push(entry);
        assert(entries_view(self.entries@) =~= before.push(entry@));
        Ok(index)
    }

    /// Removes entry `index`.
    ///
    /// Fails with `Validation` when the schema does not allow removing rows or
    /// there is no such entry; the table is then unchanged.
    pub fn remove_row(&mut self, index: usize) -> (r: Result<()>)
        ensures
            old(self)@.schema != SchemaId::DispositionDataHeader && index < old(self)@.entries.len()
                ==> (r is Ok && final(self)@ == (TableModel {
                schema: old(self)@.schema,
                entries: old(self)@.entries.remove(index as int),
                terminator: old(self)@.terminator,
            })),
            old(self)@.schema == SchemaId::DispositionDataHeader || index >= old(self)@.entries.len()
                ==> (r matches Err(Error::Validation(m)) && m@ == remove_message(old(self)@, index as int)
                && final(self)@ == old(self)@),
    {
        if self.schema == SchemaId::DispositionDataHeader {
            return Err(validation("removing rows from DispositionDataHeader is not supported"));
        }
        if index >= self.entries.len() {
            return Err(validation_naming("row index ", decimal_string(index as u128).as_str(), " out of bounds"));
        }
        let ghost before = entries_view(self.entries@);
        self.entries.remove(index);
        assert(entries_view(self.entries@) =~= before.remove(index as int));
        Ok(())
    }

    fn parse_terminated(id: SchemaId, context: &ParseContext, root: usize) -> (r: Result<Table>)
        requires
            spec_rows_rule(id) == RowsRule::Terminated,
        ensures
            match decode_table(
                id,
                context.data_view(),
                context.relocations_view(),
                context.tables_view(),
                root as int,
            ) {
                Some(m) => r matches Ok(t) && t@ == m,
                None => r matches Err(e) && e == terminated_error(
                    id,
                    context.data_view(),
                    context.relocations_view(),
                    root as int,
                ),
            },
    {
        let ghost data = context.data_view();
        let ghost relocs = context.relocations_view();
        let sl = slots(id);
        let size = entry_size(id);
        let mut entries: Vec<Entry> = Vec::new();
        let mut offset = root;
        let _ = context.data_len();
        loop
            invariant
                spec_rows_rule(id) == RowsRule::Terminated,
                data == context.data_view(),
                relocs == context.relocations_view(),
                sl@ == spec_slots(id),
                size == spec_entry_size(id),
                size > 0,
                data.len() <= usize::MAX,
                decode_terminated(id, data, relocs, root as int) == prepend(
                    entries_view(entries@),
                    decode_terminated(id, data, relocs, offset as int),
                ),
                terminated_error(id, data, relocs, root as int) == terminated_error(
                    id,
                    data,
                    relocs,
                    offset as int,
                ),
            decreases data.len() - offset,
        {
            let len = context.data_len();
            if offset > len || len - offset < size {
                return Err(record_eof_error(id));
            }
            let mut de = EntryDeserializer::new(context, offset);
            let e = match Entry::read(&mut de, sl.as_slice()) {
                Ok(e) => e,
                Err(err) => {
                    assert(decode_slots(spec_slots(id), data, relocs, offset as int) is None);
                    assert(decode_terminated(id, data, relocs, offset as int) is None);
                    return Err(err);
                },
            };
            proof {
                lemma_decode_within(spec_slots(id), data, relocs, offset as int);
            }
            if is_terminator(id, &e) {
                let t = Table { schema: id, entries, terminator: Some(e) };
                assert(entries_view(entries@) + Seq::<EntryView>::empty() =~= entries_view(entries@));
                return Ok(t);
            }
            let ghost before = entries_view(entries@);
            entries.push(e);
            assert(entries_view(entries@) =~= before.push(e@));
            proof {
                let rest = decode_terminated(id, data, relocs, offset + size);
                match rest {
                    Some((xs, t)) => {
                        assert(before + (seq![e@] + xs) =~= before.push(e@) + xs);
                    },
                    None => {},
                }
            }
            offset = offset + size;
        }
    }

    fn parse_counted(id: SchemaId, context: &ParseContext, root: usize, count: usize) -> (r: Result<Table>)
        ensures
            match decode_counted(id, context.data_view(), context.relocations_view(), root as int, count as nat) {
                Some(es) => r matches Ok(t) && t@ == (TableModel {
                    schema: id,
                    entries: es,
                    terminator: None,
                }),
                None => r matches Err(e) && e == counted_error(
                    id,
                    context.data_view(),
                    context.relocations_view(),
                    root as int,
                    count as nat,
                ),
            },
    {
        let ghost data = context.data_view();
        let ghost relocs = context.relocations_view();
        let sl = slots(id);
        let size = entry_size(id);
        let mut entries: Vec<Entry> = Vec::new();
        let mut i: usize = 0;
        let _ = context.data_len();
        while i < count
            invariant
                data == context.data_view(),
                relocs == context.relocations_view(),
                sl@ == spec_slots(id),
                size == spec_entry_size(id),
                data.len() <= usize::MAX,
                0 <= i <= count,
                decode_counted(id, data, relocs, root as int, i as nat) == Some(
                    entries_view(entries@),
                ),
            decreases count - i,
        {
            let pos_opt = match i.checked_mul(size) {
                Some(p) => root.checked_add(p),
                None => None,
            };
            let pos = match pos_opt {
                Some(p) => p,
                None => {
                    proof {
                        if decode_counted(id, data, relocs, root as int, count as nat) is Some {
                            lemma_counted_prefix(id, data, relocs, root as int, count as nat, (i + 1) as nat);
                        }
                        assert(root + i * size > usize::MAX);
                        assert(decode_counted(id, data, relocs, root as int, (i + 1) as nat) is None) by {
                            if decode_slots(spec_slots(id), data, relocs, root + i * size) is Some {
                                lemma_decode_within(spec_slots(id), data, relocs, root + i * size);
                                assert(i * size <= root + i * size) by (nonlinear_arith)
                                    requires root >= 0;
                            }
                        }
                        lemma_counted_error_prefix(id, data, relocs, root as int, count as nat, i as nat);
                    }
                    return Err(
                        Error::OffsetOutOfBounds {
                            context: "table data",
                            offset: root,
                            length: context.data_len(),
                        },
                    );
                },
            };
            let mut de = EntryDeserializer::new(context, pos);
            let e = match Entry::read(&mut de, sl.as_slice()) {
                Ok(e) => e,
                Err(err) => {
                    proof {
                        if decode_counted(id, data, relocs, root as int, count as nat) is Some {
                            lemma_counted_prefix(id, data, relocs, root as int, count as nat, (i + 1) as nat);
                        }
                        assert(decode_counted(id, data, relocs, root as int, (i + 1) as nat) is None);
                        lemma_counted_error_prefix(id, data, relocs, root as int, count as nat, i as nat);
                    }
                    return Err(err);
                },
            };
            let ghost before = entries_view(entries@);
            entries.push(e);
            assert(entries_view(entries@) =~= before.push(e@));
            i = i + 1;
        }
        let t = Table { schema: id, entries, terminator: None };
        Ok(t)
    }
}

} // verus!
