//! Laws that tie the schemas to the layout of the file format: where each field
//! of an entry lies, how the rows of each kind of table end, which labels name
//! which schema, and how fields are described.
use vstd::prelude::*;
use crate::codec::{decode_field, encode_field, Codec};
use crate::entry::{decode_slots, EntryView};
use crate::field::{FieldConstraint, FieldKind, FloatKind, IntegerKind};
use crate::schema::{
    field_count, slots_width, spec_row_layout, spec_rows_rule, spec_schema_for_name,
    spec_slots, RowBoundary, RowsRule, SchemaId, Slot,
};
use crate::table::{field_names, initial_terminator, spec_describe, spec_is_terminator};
use crate::value::ValueView;

verus! {

/// The fields among the slots, in order: each with its name, its kind and the
/// byte offset at which it starts in the entry.
pub open spec fn field_layout(slots: Seq<Slot>) -> Seq<(&'static str, Codec, nat)>
    decreases slots.len(),
{
    if slots.len() == 0 {
        Seq::empty()
    } else {
        match slots.last() {
            Slot::Field { name, codec } => field_layout(slots.drop_last()).push(
                (name, codec, slots_width(slots.drop_last())),
            ),
            Slot::Pad(_) => field_layout(slots.drop_last()),
        }
    }
}

/// The fields of an entry of each schema as the file format lays them out: name,
/// kind and byte offset in the entry.
pub open spec fn documented_fields(id: SchemaId) -> Seq<(&'static str, Codec, nat)> {
    match id {
        SchemaId::AttractionRanking => seq![
            ("friendship_id", Codec::U32, 0nat),
            ("record_target", Codec::U32, 4nat),
            ("bonus_record_target", Codec::U32, 8nat),
            ("unknown_0x0c", Codec::U32, 12nat),
            ("unknown_0x10", Codec::U32, 16nat),
            ("unknown_0x14", Codec::U32, 20nat),
            ("unknown_0x18", Codec::U32, 24nat),
        ],
        SchemaId::DispositionDataHeader => seq![
            ("player_disposition_count", Codec::U8, 0nat),
            ("pokemon_disposition_count", Codec::U8, 1nat),
            ("item_disposition_count", Codec::U8, 2nat),
            ("item_kind_total_num_count", Codec::U8, 4nat),
        ],
        SchemaId::PlayerDispositionData => seq![
            ("position_x", Codec::F32, 0nat),
            ("position_y", Codec::F32, 4nat),
            ("position_z", Codec::F32, 8nat),
            ("rotation_y", Codec::F32, 12nat),
        ],
        SchemaId::PokemonDispositionData => seq![
            ("object_id", Codec::U16, 0nat),
            ("friendship_id", Codec::U32, 4nat),
            ("walking_ai_enabled", Codec::U32, 8nat),
            ("field_position_candidates", Codec::U32, 12nat),
            ("position_x", Codec::F32, 16nat),
            ("position_y", Codec::F32, 20nat),
            ("position_z", Codec::F32, 24nat),
            ("rotation_y", Codec::F32, 28nat),
            ("field_position_override", Codec::U8, 32nat),
            ("unlock_id", Codec::U32, 36nat),
            ("skill_game_type", Codec::U32, 40nat),
            ("skill_game_start_position_group", Codec::U32, 44nat),
            ("damage_disposition", Codec::U32, 48nat),
        ],
        SchemaId::ItemDispositionData => seq![
            ("object_id", Codec::U16, 0nat),
            ("object_type", Codec::U16, 2nat),
            ("item_kind", Codec::U32, 4nat),
            ("position_x", Codec::F32, 8nat),
            ("position_y", Codec::F32, 12nat),
            ("position_z", Codec::F32, 16nat),
            ("rotation_y", Codec::F32, 20nat),
            ("unknown_0x18", Codec::F32, 24nat),
            ("unknown_0x1c", Codec::F32, 28nat),
            ("unknown_0x20", Codec::F32, 32nat),
        ],
        SchemaId::ItemKindTotalNumData => seq![
            ("item_kind", Codec::U32, 0nat),
            ("amount", Codec::U32, 4nat),
        ],
        SchemaId::FlagTable => seq![
            ("flag_name", Codec::StringPointer, 0nat),
            ("bit_width", Codec::U8, 4nat),
        ],
        SchemaId::ScriptList => seq![
            ("name", Codec::StringPointer, 0nat),
            ("object_id", Codec::U32, 4nat),
            ("minimum_chapter", Codec::U32, 8nat),
            ("medium_chapter", Codec::U32, 12nat),
            ("maximum_chapter", Codec::U32, 16nat),
            ("flagname", Codec::StringPointer, 20nat),
            ("flag_value_condition", Codec::U32, 24nat),
            ("target_script", Codec::U8Wrapping, 28nat),
            ("unknown", Codec::U32, 32nat),
            ("entrypoint", Codec::StringPointer, 36nat),
            ("zone_id", Codec::U32, 40nat),
            ("area_id", Codec::U32, 44nat),
            ("position_id", Codec::U32, 48nat),
            ("pad_0x34", Codec::U32, 52nat),
            ("after_script_entrypoint", Codec::StringPointer, 56nat),
            ("animation", Codec::StringPointer, 60nat),
            ("flagname2", Codec::StringPointer, 64nat),
        ],
        SchemaId::FsbFileList => seq![
            ("script_name", Codec::StringPointer, 0nat),
        ],
        SchemaId::WanderingData => seq![
            ("pokemon_unlock_id", Codec::U32, 0nat),
            ("pokemon_friendship_id", Codec::U32, 4nat),
            ("enabled", Codec::Bool, 8nat),
        ],
    }
}

/// Reading an entry reads each field with its kind at its offset from the
/// entry's start.
proof fn lemma_decode_layout(slots: Seq<Slot>, data: Seq<u8>, relocs: Seq<u32>, pos: int)
    requires
        decode_slots(slots, data, relocs, pos) is Some,
    ensures
        decode_slots(slots, data, relocs, pos).unwrap().values.len() == field_layout(slots).len(),
        forall|k: int|
            0 <= k < field_layout(slots).len() ==> decode_field(
                #[trigger] field_layout(slots)[k].1,
                data,
                relocs,
                pos + field_layout(slots)[k].2,
            ) == Some(decode_slots(slots, data, relocs, pos).unwrap().values[k]),
    decreases slots.len(),
{
    if slots.len() > 0 {
        let d = slots.drop_last();
        lemma_decode_layout(d, data, relocs, pos);
        let e = decode_slots(d, data, relocs, pos).unwrap();
        let e2 = decode_slots(slots, data, relocs, pos).unwrap();
        let l = field_layout(d);
        let l2 = field_layout(slots);
        assert forall|k: int| 0 <= k < l2.len() implies decode_field(#[trigger] l2[k].1, data, relocs, pos + l2[k].2)
            == Some(e2.values[k]) by {
            if k < l.len() {
                assert(l2[k] == l[k]);
                assert(e2.values[k] == e.values[k]);
            }
        }
    }
}

#[verifier::spinoff_prover]
#[verifier::rlimit(100)]
proof fn lemma_layout_attraction_ranking()
    ensures
        field_layout(spec_slots(SchemaId::AttractionRanking)) == documented_fields(SchemaId::AttractionRanking),
{
    reveal_with_fuel(field_layout, 11);
    reveal_with_fuel(slots_width, 11);
    assert(field_layout(spec_slots(SchemaId::AttractionRanking)) =~= documented_fields(SchemaId::AttractionRanking));
}

#[verifier::spinoff_prover]
#[verifier::rlimit(100)]
proof fn lemma_layout_disposition_data_header()
    ensures
        field_layout(spec_slots(SchemaId::DispositionDataHeader)) == documented_fields(SchemaId::DispositionDataHeader),
{
    reveal_with_fuel(field_layout, 11);
    reveal_with_fuel(slots_width, 11);
    assert(field_layout(spec_slots(SchemaId::DispositionDataHeader)) =~= documented_fields(SchemaId::DispositionDataHeader));
}

#[verifier::spinoff_prover]
#[verifier::rlimit(100)]
proof fn lemma_layout_player_disposition_data()
    ensures
        field_layout(spec_slots(SchemaId::PlayerDispositionData)) == documented_fields(SchemaId::PlayerDispositionData),
{
    reveal_with_fuel(field_layout, 11);
    reveal_with_fuel(slots_width, 11);
    assert(field_layout(spec_slots(SchemaId::PlayerDispositionData)) =~= documented_fields(SchemaId::PlayerDispositionData));
}

#[verifier::spinoff_prover]
#[verifier::rlimit(100)]
proof fn lemma_layout_pokemon_disposition_data()
    ensures
        field_layout(spec_slots(SchemaId::PokemonDispositionData)) == documented_fields(SchemaId::PokemonDispositionData),
{
    reveal_with_fuel(field_layout, 16);
    reveal_with_fuel(slots_width, 16);
    assert(field_layout(spec_slots(SchemaId::PokemonDispositionData)) =~= documented_fields(SchemaId::PokemonDispositionData));
}

#[verifier::spinoff_prover]
#[verifier::rlimit(100)]
proof fn lemma_layout_item_disposition_data()
    ensures
        field_layout(spec_slots(SchemaId::ItemDispositionData)) == documented_fields(SchemaId::ItemDispositionData),
{
    reveal_with_fuel(field_layout, 11);
    reveal_with_fuel(slots_width, 11);
    assert(field_layout(spec_slots(SchemaId::ItemDispositionData)) =~= documented_fields(SchemaId::ItemDispositionData));
}

#[verifier::spinoff_prover]
#[verifier::rlimit(100)]
proof fn lemma_layout_item_kind_total_num_data()
    ensures
        field_layout(spec_slots(SchemaId::ItemKindTotalNumData)) == documented_fields(SchemaId::ItemKindTotalNumData),
{
    reveal_with_fuel(field_layout, 11);
    reveal_with_fuel(slots_width, 11);
    assert(field_layout(spec_slots(SchemaId::ItemKindTotalNumData)) =~= documented_fields(SchemaId::ItemKindTotalNumData));
}

#[verifier::spinoff_prover]
#[verifier::rlimit(100)]
proof fn lemma_layout_flag_table()
    ensures
        field_layout(spec_slots(SchemaId::FlagTable)) == documented_fields(SchemaId::FlagTable),
{
    reveal_with_fuel(field_layout, 11);
    reveal_with_fuel(slots_width, 11);
    assert(field_layout(spec_slots(SchemaId::FlagTable)) =~= documented_fields(SchemaId::FlagTable));
}

#[verifier::spinoff_prover]
#[verifier::rlimit(100)]
proof fn lemma_layout_script_list()
    ensures
        field_layout(spec_slots(SchemaId::ScriptList)) == documented_fields(SchemaId::ScriptList),
{
    reveal_with_fuel(field_layout, 19);
    reveal_with_fuel(slots_width, 19);
    assert(field_layout(spec_slots(SchemaId::ScriptList)) =~= documented_fields(SchemaId::ScriptList));
}

#[verifier::spinoff_prover]
#[verifier::rlimit(100)]
proof fn lemma_layout_fsb_file_list()
    ensures
        field_layout(spec_slots(SchemaId::FsbFileList)) == documented_fields(SchemaId::FsbFileList),
{
    reveal_with_fuel(field_layout, 11);
    reveal_with_fuel(slots_width, 11);
    assert(field_layout(spec_slots(SchemaId::FsbFileList)) =~= documented_fields(SchemaId::FsbFileList));
}

#[verifier::spinoff_prover]
#[verifier::rlimit(100)]
proof fn lemma_layout_wandering_data()
    ensures
        field_layout(spec_slots(SchemaId::WanderingData)) == documented_fields(SchemaId::WanderingData),
{
    reveal_with_fuel(field_layout, 11);
    reveal_with_fuel(slots_width, 11);
    assert(field_layout(spec_slots(SchemaId::WanderingData)) =~= documented_fields(SchemaId::WanderingData));
}

/// The fields of each schema lie where the file format puts them.
proof fn lemma_documented_layout(id: SchemaId)
    ensures
        field_layout(spec_slots(id)) == documented_fields(id),
{
    match id {
        SchemaId::AttractionRanking => lemma_layout_attraction_ranking(),
        SchemaId::DispositionDataHeader => lemma_layout_disposition_data_header(),
        SchemaId::PlayerDispositionData => lemma_layout_player_disposition_data(),
        SchemaId::PokemonDispositionData => lemma_layout_pokemon_disposition_data(),
        SchemaId::ItemDispositionData => lemma_layout_item_disposition_data(),
        SchemaId::ItemKindTotalNumData => lemma_layout_item_kind_total_num_data(),
        SchemaId::FlagTable => lemma_layout_flag_table(),
        SchemaId::ScriptList => lemma_layout_script_list(),
        SchemaId::FsbFileList => lemma_layout_fsb_file_list(),
        SchemaId::WanderingData => lemma_layout_wandering_data(),
    }
}

/// The names of the fields are those of their layout, in order.
proof fn lemma_layout_names(slots: Seq<Slot>)
    ensures
        field_names(slots) == Seq::new(field_layout(slots).len(), |k: int| field_layout(slots)[k].0@),
    decreases slots.len(),
{
    if slots.len() > 0 {
        lemma_layout_names(slots.drop_last());
        assert(field_names(slots) =~= Seq::new(field_layout(slots).len(), |k: int| field_layout(slots)[k].0@));
    }
}

/// Reading an entry of schema `id` at `pos` reads each field that the file
/// format lays out, under its name, with its kind, at its byte offset from
/// `pos`.
pub proof fn lemma_entry_layout(id: SchemaId, data: Seq<u8>, relocs: Seq<u32>, pos: int)
    requires
        decode_slots(spec_slots(id), data, relocs, pos) is Some,
    ensures
        field_names(spec_slots(id)) == Seq::new(documented_fields(id).len(), |k: int| documented_fields(id)[k].0@),
        decode_slots(spec_slots(id), data, relocs, pos).unwrap().values.len() == documented_fields(id).len(),
        forall|k: int|
            0 <= k < documented_fields(id).len() ==> decode_field(
                #[trigger] documented_fields(id)[k].1,
                data,
                relocs,
                pos + documented_fields(id)[k].2,
            ) == Some(decode_slots(spec_slots(id), data, relocs, pos).unwrap().values[k]),
{
    lemma_documented_layout(id);
    lemma_layout_names(spec_slots(id));
    lemma_decode_layout(spec_slots(id), data, relocs, pos);
}

/// Reading `count` entries gives that many.
proof fn lemma_counted_len(id: SchemaId, data: Seq<u8>, relocs: Seq<u32>, root: int, count: nat)
    requires
        crate::table::decode_counted(id, data, relocs, root, count) is Some,
    ensures
        crate::table::decode_counted(id, data, relocs, root, count).unwrap().len() == count,
    decreases count,
{
    if count > 0 {
        lemma_counted_len(id, data, relocs, root, (count - 1) as nat);
    }
}

/// A table whose rows the disposition header counts has as many entries as the
/// header's field for it says: the field that its row layout names, read from
/// the header table where the file lists it.
pub proof fn lemma_counted_rows(
    id: SchemaId,
    data: Seq<u8>,
    relocs: Seq<u32>,
    tables: Seq<(Seq<char>, usize)>,
    root: int,
)
    requires
        spec_rows_rule(id) is CountedByHeaderByte,
        crate::table::decode_table(id, data, relocs, tables, root) is Some,
    ensures
        spec_row_layout(id).boundary matches RowBoundary::CountedBy { schema, field } && schema
            == SchemaId::DispositionDataHeader && ({
            let h = crate::parse_context::first_offset(tables, "dispositionDataHeader"@).unwrap() as int;
            let m = crate::table::decode_table(id, data, relocs, tables, root).unwrap();
            exists|j: int|
                0 <= j < documented_fields(SchemaId::DispositionDataHeader).len()
                    && #[trigger] documented_fields(SchemaId::DispositionDataHeader)[j].0 == field
                    && decode_field(
                    documented_fields(SchemaId::DispositionDataHeader)[j].1,
                    data,
                    relocs,
                    h + documented_fields(SchemaId::DispositionDataHeader)[j].2,
                ) == Some(ValueView::Integer(m.entries.len() as u32))
        }),
{
    let h = crate::parse_context::first_offset(tables, "dispositionDataHeader"@).unwrap() as int;
    let m = crate::table::decode_table(id, data, relocs, tables, root).unwrap();
    let doc = documented_fields(SchemaId::DispositionDataHeader);
    let k = spec_rows_rule(id)->CountedByHeaderByte_0;
    lemma_counted_len(id, data, relocs, root, data[h + k] as nat);
    let j: int = match id {
        SchemaId::PlayerDispositionData => 0,
        SchemaId::PokemonDispositionData => 1,
        SchemaId::ItemDispositionData => 2,
        _ => 3,
    };
    let field = spec_row_layout(id).boundary->CountedBy_field;
    assert(doc[j].2 == k);
    assert(doc[j].1 == Codec::U8);
    assert(doc[j].0 == field);
    assert(h + k < data.len());
    assert(m.entries == crate::table::decode_counted(id, data, relocs, root, data[h + k] as nat).unwrap());
    assert(decode_field(doc[j].1, data, relocs, h + doc[j].2) == Some(ValueView::Integer(data[h + k] as u32)));
}

/// The values by which the first entry of a terminated table's last record is
/// known: for each, its position among the fields, the field's name, and the
/// value that field holds in a terminator.
pub open spec fn terminator_fields(id: SchemaId) -> Seq<(int, &'static str, ValueView)> {
    match id {
        SchemaId::AttractionRanking => seq![(0, "friendship_id", ValueView::Integer(0xc9))],
        SchemaId::ScriptList => seq![
            (0, "name", ValueView::String(None)),
            (1, "object_id", ValueView::Integer(0)),
            (2, "minimum_chapter", ValueView::Integer(0)),
            (3, "medium_chapter", ValueView::Integer(0)),
            (4, "maximum_chapter", ValueView::Integer(0)),
        ],
        SchemaId::WanderingData => seq![
            (0, "pokemon_unlock_id", ValueView::Integer(0xFFFF_FFFF)),
            (1, "pokemon_friendship_id", ValueView::Integer(0xFFFF_FFFF)),
            (2, "enabled", ValueView::Boolean(false)),
        ],
        SchemaId::FsbFileList => seq![(0, "script_name", ValueView::String(None))],
        SchemaId::FlagTable => seq![(0, "flag_name", ValueView::String(None))],
        _ => Seq::empty(),
    }
}

/// An entry of a terminated table is its terminator exactly when each of the
/// fields that mark a terminator holds its marking value (for AttractionRanking,
/// when its first field, friendship_id, is 0xc9); no entry of another kind of
/// table is a terminator. The terminator that a new table gets is recognised as
/// one.
pub proof fn lemma_terminator_rule(id: SchemaId, e: EntryView)
    requires
        e.values.len() == documented_fields(id).len(),
    ensures
        forall|i: int|
            0 <= i < terminator_fields(id).len() ==> 0 <= (#[trigger] terminator_fields(id)[i]).0 < documented_fields(
                id,
            ).len() && documented_fields(id)[terminator_fields(id)[i].0].0 == terminator_fields(id)[i].1,
        spec_rows_rule(id) == RowsRule::Terminated ==> terminator_fields(id).len() > 0,
        spec_is_terminator(id, e) <==> (spec_rows_rule(id) == RowsRule::Terminated && forall|i: int|
            0 <= i < terminator_fields(id).len() ==> e.values[(#[trigger] terminator_fields(id)[i]).0]
                == terminator_fields(id)[i].2),
        spec_rows_rule(id) == RowsRule::Terminated ==> spec_is_terminator(id, initial_terminator(id).unwrap()),
{
    let t = terminator_fields(id);
    if spec_is_terminator(id, e) {
        assert forall|i: int| 0 <= i < t.len() implies e.values[(#[trigger] t[i]).0] == t[i].2 by {}
    }
    if spec_rows_rule(id) == RowsRule::Terminated && forall|i: int|
        0 <= i < t.len() ==> e.values[(#[trigger] t[i]).0] == t[i].2 {
        assert forall|i: int| 0 <= i < t.len() implies e.values[(#[trigger] t[i]).0] == t[i].2 by {}
        match id {
            SchemaId::ScriptList => {
                assert(e.values[t[0].0] == t[0].2);
                assert(e.values[t[1].0] == t[1].2);
                assert(e.values[t[2].0] == t[2].2);
                assert(e.values[t[3].0] == t[3].2);
                assert(e.values[t[4].0] == t[4].2);
            },
            SchemaId::WanderingData => {
                assert(e.values[t[0].0] == t[0].2);
                assert(e.values[t[1].0] == t[1].2);
                assert(e.values[t[2].0] == t[2].2);
            },
            _ => {
                if t.len() > 0 {
                    assert(e.values[t[0].0] == t[0].2);
                }
            },
        }
    }
    lemma_initial_terminator_recognised(id);
}

/// The terminator that a new table of a terminated schema gets is recognised as
/// its terminator.
proof fn lemma_initial_terminator_recognised(id: SchemaId)
    ensures
        spec_rows_rule(id) == RowsRule::Terminated ==> spec_is_terminator(id, initial_terminator(id).unwrap()),
{
    match id {
        SchemaId::AttractionRanking => lemma_initial_attraction(),
        SchemaId::ScriptList => lemma_initial_script_list(),
        SchemaId::WanderingData => lemma_initial_wandering(),
        SchemaId::FsbFileList => lemma_initial_fsb(),
        SchemaId::FlagTable => lemma_initial_flag(),
        _ => {},
    }
}


#[verifier::spinoff_prover]
#[verifier::rlimit(100)]
proof fn lemma_initial_attraction()
    ensures
        spec_is_terminator(SchemaId::AttractionRanking, initial_terminator(SchemaId::AttractionRanking).unwrap()),
{
    reveal_with_fuel(crate::table::initial_entry, 8);
    reveal_with_fuel(field_count, 8);
}

#[verifier::spinoff_prover]
#[verifier::rlimit(100)]
proof fn lemma_initial_script_list()
    ensures
        spec_is_terminator(SchemaId::ScriptList, initial_terminator(SchemaId::ScriptList).unwrap()),
{
    reveal_with_fuel(crate::table::initial_entry, 19);
    reveal_with_fuel(field_count, 19);
}

#[verifier::spinoff_prover]
#[verifier::rlimit(100)]
proof fn lemma_initial_wandering()
    ensures
        spec_is_terminator(SchemaId::WanderingData, initial_terminator(SchemaId::WanderingData).unwrap()),
{
    reveal_with_fuel(crate::table::initial_entry, 5);
    reveal_with_fuel(field_count, 5);
}

#[verifier::spinoff_prover]
#[verifier::rlimit(100)]
proof fn lemma_initial_fsb()
    ensures
        spec_is_terminator(SchemaId::FsbFileList, initial_terminator(SchemaId::FsbFileList).unwrap()),
{
    reveal_with_fuel(crate::table::initial_entry, 2);
    reveal_with_fuel(field_count, 2);
}

#[verifier::spinoff_prover]
#[verifier::rlimit(100)]
proof fn lemma_initial_flag()
    ensures
        spec_is_terminator(SchemaId::FlagTable, initial_terminator(SchemaId::FlagTable).unwrap()),
{
    reveal_with_fuel(crate::table::initial_entry, 4);
    reveal_with_fuel(field_count, 4);
}

/// The labels that name a table schema, each with the schema it names.
pub open spec fn registered_labels() -> Seq<(&'static str, SchemaId)> {
    seq![
        ("AttractionRanking", SchemaId::AttractionRanking),
        ("dispositionDataHeader", SchemaId::DispositionDataHeader),
        ("playerDispositionData", SchemaId::PlayerDispositionData),
        ("pokemonDispositionData", SchemaId::PokemonDispositionData),
        ("itemDispositionData", SchemaId::ItemDispositionData),
        ("itemKindTotalNumData", SchemaId::ItemKindTotalNumData),
        ("FlagTable", SchemaId::FlagTable),
        ("BackFromAttractionScriptList", SchemaId::ScriptList),
        ("ReplaceScriptList", SchemaId::ScriptList),
        ("CheckObjectScriptList", SchemaId::ScriptList),
        ("EnterZoneScriptList", SchemaId::ScriptList),
        ("HitDashScriptList", SchemaId::ScriptList),
        ("HitThunderboltScriptList", SchemaId::ScriptList),
        ("TimeOutScriptList", SchemaId::ScriptList),
        ("TouchAreaScriptList", SchemaId::ScriptList),
        ("FsbFileListData", SchemaId::FsbFileList),
        ("WanderingDataTable", SchemaId::WanderingData),
    ]
}

/// Each registered label names its schema.
pub proof fn lemma_registered_labels()
    ensures
        forall|i: int|
            0 <= i < registered_labels().len() ==> spec_schema_for_name((#[trigger] registered_labels()[i]).0@)
                == Some(registered_labels()[i].1),
{
    reveal_strlit("AttractionRanking");
    reveal_strlit("dispositionDataHeader");
    reveal_strlit("playerDispositionData");
    reveal_strlit("pokemonDispositionData");
    reveal_strlit("itemDispositionData");
    reveal_strlit("itemKindTotalNumData");
    reveal_strlit("FlagTable");
    reveal_strlit("BackFromAttractionScriptList");
    reveal_strlit("ReplaceScriptList");
    reveal_strlit("CheckObjectScriptList");
    reveal_strlit("EnterZoneScriptList");
    reveal_strlit("HitDashScriptList");
    reveal_strlit("HitThunderboltScriptList");
    reveal_strlit("TimeOutScriptList");
    reveal_strlit("TouchAreaScriptList");
    reveal_strlit("FsbFileListData");
    reveal_strlit("WanderingDataTable");
    assert forall|i: int| 0 <= i < registered_labels().len() implies spec_schema_for_name(
        (#[trigger] registered_labels()[i]).0@,
    ) == Some(registered_labels()[i].1) by {
        lemma_registered_label(i);
    }
}

/// Only the registered labels name a schema.
pub proof fn lemma_only_registered_labels(name: Seq<char>)
    ensures
        spec_schema_for_name(name) is Some ==> exists|i: int|
            0 <= i < registered_labels().len() && (#[trigger] registered_labels()[i]).0@ == name,
{
    if spec_schema_for_name(name) is Some {
        let r = registered_labels();
        if name == r[0].0@ { assert(r[0].0@ == name); }
        else if name == r[1].0@ { assert(r[1].0@ == name); }
        else if name == r[2].0@ { assert(r[2].0@ == name); }
        else if name == r[3].0@ { assert(r[3].0@ == name); }
        else if name == r[4].0@ { assert(r[4].0@ == name); }
        else if name == r[5].0@ { assert(r[5].0@ == name); }
        else if name == r[6].0@ { assert(r[6].0@ == name); }
        else if name == r[7].0@ { assert(r[7].0@ == name); }
        else if name == r[8].0@ { assert(r[8].0@ == name); }
        else if name == r[9].0@ { assert(r[9].0@ == name); }
        else if name == r[10].0@ { assert(r[10].0@ == name); }
        else if name == r[11].0@ { assert(r[11].0@ == name); }
        else if name == r[12].0@ { assert(r[12].0@ == name); }
        else if name == r[13].0@ { assert(r[13].0@ == name); }
        else if name == r[14].0@ { assert(r[14].0@ == name); }
        else if name == r[15].0@ { assert(r[15].0@ == name); }
        else { assert(r[16].0@ == name); }
    }
}

#[verifier::rlimit(100)]
proof fn lemma_registered_label(i: int)
    requires
        0 <= i < registered_labels().len(),
    ensures
        spec_schema_for_name(registered_labels()[i].0@) == Some(registered_labels()[i].1),
{
    reveal_strlit("AttractionRanking");
    reveal_strlit("dispositionDataHeader");
    reveal_strlit("playerDispositionData");
    reveal_strlit("pokemonDispositionData");
    reveal_strlit("itemDispositionData");
    reveal_strlit("itemKindTotalNumData");
    reveal_strlit("FlagTable");
    reveal_strlit("BackFromAttractionScriptList");
    reveal_strlit("ReplaceScriptList");
    reveal_strlit("CheckObjectScriptList");
    reveal_strlit("EnterZoneScriptList");
    reveal_strlit("HitDashScriptList");
    reveal_strlit("HitThunderboltScriptList");
    reveal_strlit("TimeOutScriptList");
    reveal_strlit("TouchAreaScriptList");
    reveal_strlit("FsbFileListData");
    reveal_strlit("WanderingDataTable");
    if i == 0 {
        assert(spec_schema_for_name("AttractionRanking"@) == Some(SchemaId::AttractionRanking));
    }
    if i == 1 {
        assert("dispositionDataHeader"@.len() != "AttractionRanking"@.len());
        assert(spec_schema_for_name("dispositionDataHeader"@) == Some(SchemaId::DispositionDataHeader));
    }
    if i == 2 {
        assert("playerDispositionData"@.len() != "AttractionRanking"@.len());
        assert("playerDispositionData"@[0] != "dispositionDataHeader"@[0]);
        assert(spec_schema_for_name("playerDispositionData"@) == Some(SchemaId::PlayerDispositionData));
    }
    if i == 3 {
        assert("pokemonDispositionData"@.len() != "AttractionRanking"@.len());
        assert("pokemonDispositionData"@.len() != "dispositionDataHeader"@.len());
        assert("pokemonDispositionData"@.len() != "playerDispositionData"@.len());
        assert(spec_schema_for_name("pokemonDispositionData"@) == Some(SchemaId::PokemonDispositionData));
    }
    if i == 4 {
        assert("itemDispositionData"@.len() != "AttractionRanking"@.len());
        assert("itemDispositionData"@.len() != "dispositionDataHeader"@.len());
        assert("itemDispositionData"@.len() != "playerDispositionData"@.len());
        assert("itemDispositionData"@.len() != "pokemonDispositionData"@.len());
        assert(spec_schema_for_name("itemDispositionData"@) == Some(SchemaId::ItemDispositionData));
    }
    if i == 5 {
        assert("itemKindTotalNumData"@.len() != "AttractionRanking"@.len());
        assert("itemKindTotalNumData"@.len() != "dispositionDataHeader"@.len());
        assert("itemKindTotalNumData"@.len() != "playerDispositionData"@.len());
        assert("itemKindTotalNumData"@.len() != "pokemonDispositionData"@.len());
        assert("itemKindTotalNumData"@.len() != "itemDispositionData"@.len());
        assert(spec_schema_for_name("itemKindTotalNumData"@) == Some(SchemaId::ItemKindTotalNumData));
    }
    if i == 6 {
        assert("FlagTable"@.len() != "AttractionRanking"@.len());
        assert("FlagTable"@.len() != "dispositionDataHeader"@.len());
        assert("FlagTable"@.len() != "playerDispositionData"@.len());
        assert("FlagTable"@.len() != "pokemonDispositionData"@.len());
        assert("FlagTable"@.len() != "itemDispositionData"@.len());
        assert("FlagTable"@.len() != "itemKindTotalNumData"@.len());
        assert(spec_schema_for_name("FlagTable"@) == Some(SchemaId::FlagTable));
    }
    if i == 7 {
        assert("BackFromAttractionScriptList"@.len() != "AttractionRanking"@.len());
        assert("BackFromAttractionScriptList"@.len() != "dispositionDataHeader"@.len());
        assert("BackFromAttractionScriptList"@.len() != "playerDispositionData"@.len());
        assert("BackFromAttractionScriptList"@.len() != "pokemonDispositionData"@.len());
        assert("BackFromAttractionScriptList"@.len() != "itemDispositionData"@.len());
        assert("BackFromAttractionScriptList"@.len() != "itemKindTotalNumData"@.len());
        assert("BackFromAttractionScriptList"@.len() != "FlagTable"@.len());
        assert(spec_schema_for_name("BackFromAttractionScriptList"@) == Some(SchemaId::ScriptList));
    }
    if i == 8 {
        assert("ReplaceScriptList"@[0] != "AttractionRanking"@[0]);
        assert("ReplaceScriptList"@.len() != "dispositionDataHeader"@.len());
        assert("ReplaceScriptList"@.len() != "playerDispositionData"@.len());
        assert("ReplaceScriptList"@.len() != "pokemonDispositionData"@.len());
        assert("ReplaceScriptList"@.len() != "itemDispositionData"@.len());
        assert("ReplaceScriptList"@.len() != "itemKindTotalNumData"@.len());
        assert("ReplaceScriptList"@.len() != "FlagTable"@.len());
        assert("ReplaceScriptList"@.len() != "BackFromAttractionScriptList"@.len());
        assert(spec_schema_for_name("ReplaceScriptList"@) == Some(SchemaId::ScriptList));
    }
    if i == 9 {
        assert("CheckObjectScriptList"@.len() != "AttractionRanking"@.len());
        assert("CheckObjectScriptList"@[0] != "dispositionDataHeader"@[0]);
        assert("CheckObjectScriptList"@[0] != "playerDispositionData"@[0]);
        assert("CheckObjectScriptList"@.len() != "pokemonDispositionData"@.len());
        assert("CheckObjectScriptList"@.len() != "itemDispositionData"@.len());
        assert("CheckObjectScriptList"@.len() != "itemKindTotalNumData"@.len());
        assert("CheckObjectScriptList"@.len() != "FlagTable"@.len());
        assert("CheckObjectScriptList"@.len() != "BackFromAttractionScriptList"@.len());
        assert("CheckObjectScriptList"@.len() != "ReplaceScriptList"@.len());
        assert(spec_schema_for_name("CheckObjectScriptList"@) == Some(SchemaId::ScriptList));
    }
    if i == 10 {
        assert("EnterZoneScriptList"@.len() != "AttractionRanking"@.len());
        assert("EnterZoneScriptList"@.len() != "dispositionDataHeader"@.len());
        assert("EnterZoneScriptList"@.len() != "playerDispositionData"@.len());
        assert("EnterZoneScriptList"@.len() != "pokemonDispositionData"@.len());
        assert("EnterZoneScriptList"@[0] != "itemDispositionData"@[0]);
        assert("EnterZoneScriptList"@.len() != "itemKindTotalNumData"@.len());
        assert("EnterZoneScriptList"@.len() != "FlagTable"@.len());
        assert("EnterZoneScriptList"@.len() != "BackFromAttractionScriptList"@.len());
        assert("EnterZoneScriptList"@.len() != "ReplaceScriptList"@.len());
        assert("EnterZoneScriptList"@.len() != "CheckObjectScriptList"@.len());
        assert(spec_schema_for_name("EnterZoneScriptList"@) == Some(SchemaId::ScriptList));
    }
    if i == 11 {
        assert("HitDashScriptList"@[0] != "AttractionRanking"@[0]);
        assert("HitDashScriptList"@.len() != "dispositionDataHeader"@.len());
        assert("HitDashScriptList"@.len() != "playerDispositionData"@.len());
        assert("HitDashScriptList"@.len() != "pokemonDispositionData"@.len());
        assert("HitDashScriptList"@.len() != "itemDispositionData"@.len());
        assert("HitDashScriptList"@.len() != "itemKindTotalNumData"@.len());
        assert("HitDashScriptList"@.len() != "FlagTable"@.len());
        assert("HitDashScriptList"@.len() != "BackFromAttractionScriptList"@.len());
        assert("HitDashScriptList"@[0] != "ReplaceScriptList"@[0]);
        assert("HitDashScriptList"@.len() != "CheckObjectScriptList"@.len());
        assert("HitDashScriptList"@.len() != "EnterZoneScriptList"@.len());
        assert(spec_schema_for_name("HitDashScriptList"@) == Some(SchemaId::ScriptList));
    }
    if i == 12 {
        assert("HitThunderboltScriptList"@.len() != "AttractionRanking"@.len());
        assert("HitThunderboltScriptList"@.len() != "dispositionDataHeader"@.len());
        assert("HitThunderboltScriptList"@.len() != "playerDispositionData"@.len());
        assert("HitThunderboltScriptList"@.len() != "pokemonDispositionData"@.len());
        assert("HitThunderboltScriptList"@.len() != "itemDispositionData"@.len());
        assert("HitThunderboltScriptList"@.len() != "itemKindTotalNumData"@.len());
        assert("HitThunderboltScriptList"@.len() != "FlagTable"@.len());
        assert("HitThunderboltScriptList"@.len() != "BackFromAttractionScriptList"@.len());
        assert("HitThunderboltScriptList"@.len() != "ReplaceScriptList"@.len());
        assert("HitThunderboltScriptList"@.len() != "CheckObjectScriptList"@.len());
        assert("HitThunderboltScriptList"@.len() != "EnterZoneScriptList"@.len());
        assert("HitThunderboltScriptList"@.len() != "HitDashScriptList"@.len());
        assert(spec_schema_for_name("HitThunderboltScriptList"@) == Some(SchemaId::ScriptList));
    }
    if i == 13 {
        assert("TimeOutScriptList"@[0] != "AttractionRanking"@[0]);
        assert("TimeOutScriptList"@.len() != "dispositionDataHeader"@.len());
        assert("TimeOutScriptList"@.len() != "playerDispositionData"@.len());
        assert("TimeOutScriptList"@.len() != "pokemonDispositionData"@.len());
        assert("TimeOutScriptList"@.len() != "itemDispositionData"@.len());
        assert("TimeOutScriptList"@.len() != "itemKindTotalNumData"@.len());
        assert("TimeOutScriptList"@.len() != "FlagTable"@.len());
        assert("TimeOutScriptList"@.len() != "BackFromAttractionScriptList"@.len());
        assert("TimeOutScriptList"@[0] != "ReplaceScriptList"@[0]);
        assert("TimeOutScriptList"@.len() != "CheckObjectScriptList"@.len());
        assert("TimeOutScriptList"@.len() != "EnterZoneScriptList"@.len());
        assert("TimeOutScriptList"@[0] != "HitDashScriptList"@[0]);
        assert("TimeOutScriptList"@.len() != "HitThunderboltScriptList"@.len());
        assert(spec_schema_for_name("TimeOutScriptList"@) == Some(SchemaId::ScriptList));
    }
    if i == 14 {
        assert("TouchAreaScriptList"@.len() != "AttractionRanking"@.len());
        assert("TouchAreaScriptList"@.len() != "dispositionDataHeader"@.len());
        assert("TouchAreaScriptList"@.len() != "playerDispositionData"@.len());
        assert("TouchAreaScriptList"@.len() != "pokemonDispositionData"@.len());
        assert("TouchAreaScriptList"@[0] != "itemDispositionData"@[0]);
        assert("TouchAreaScriptList"@.len() != "itemKindTotalNumData"@.len());
        assert("TouchAreaScriptList"@.len() != "FlagTable"@.len());
        assert("TouchAreaScriptList"@.len() != "BackFromAttractionScriptList"@.len());
        assert("TouchAreaScriptList"@.len() != "ReplaceScriptList"@.len());
        assert("TouchAreaScriptList"@.len() != "CheckObjectScriptList"@.len());
        assert("TouchAreaScriptList"@[0] != "EnterZoneScriptList"@[0]);
        assert("TouchAreaScriptList"@.len() != "HitDashScriptList"@.len());
        assert("TouchAreaScriptList"@.len() != "HitThunderboltScriptList"@.len());
        assert("TouchAreaScriptList"@.len() != "TimeOutScriptList"@.len());
        assert(spec_schema_for_name("TouchAreaScriptList"@) == Some(SchemaId::ScriptList));
    }
    if i == 15 {
        assert("FsbFileListData"@.len() != "AttractionRanking"@.len());
        assert("FsbFileListData"@.len() != "dispositionDataHeader"@.len());
        assert("FsbFileListData"@.len() != "playerDispositionData"@.len());
        assert("FsbFileListData"@.len() != "pokemonDispositionData"@.len());
        assert("FsbFileListData"@.len() != "itemDispositionData"@.len());
        assert("FsbFileListData"@.len() != "itemKindTotalNumData"@.len());
        assert("FsbFileListData"@.len() != "FlagTable"@.len());
        assert("FsbFileListData"@.len() != "BackFromAttractionScriptList"@.len());
        assert("FsbFileListData"@.len() != "ReplaceScriptList"@.len());
        assert("FsbFileListData"@.len() != "CheckObjectScriptList"@.len());
        assert("FsbFileListData"@.len() != "EnterZoneScriptList"@.len());
        assert("FsbFileListData"@.len() != "HitDashScriptList"@.len());
        assert("FsbFileListData"@.len() != "HitThunderboltScriptList"@.len());
        assert("FsbFileListData"@.len() != "TimeOutScriptList"@.len());
        assert("FsbFileListData"@.len() != "TouchAreaScriptList"@.len());
        assert(spec_schema_for_name("FsbFileListData"@) == Some(SchemaId::FsbFileList));
    }
    if i == 16 {
        assert("WanderingDataTable"@.len() != "AttractionRanking"@.len());
        assert("WanderingDataTable"@.len() != "dispositionDataHeader"@.len());
        assert("WanderingDataTable"@.len() != "playerDispositionData"@.len());
        assert("WanderingDataTable"@.len() != "pokemonDispositionData"@.len());
        assert("WanderingDataTable"@.len() != "itemDispositionData"@.len());
        assert("WanderingDataTable"@.len() != "itemKindTotalNumData"@.len());
        assert("WanderingDataTable"@.len() != "FlagTable"@.len());
        assert("WanderingDataTable"@.len() != "BackFromAttractionScriptList"@.len());
        assert("WanderingDataTable"@.len() != "ReplaceScriptList"@.len());
        assert("WanderingDataTable"@.len() != "CheckObjectScriptList"@.len());
        assert("WanderingDataTable"@.len() != "EnterZoneScriptList"@.len());
        assert("WanderingDataTable"@.len() != "HitDashScriptList"@.len());
        assert("WanderingDataTable"@.len() != "HitThunderboltScriptList"@.len());
        assert("WanderingDataTable"@.len() != "TimeOutScriptList"@.len());
        assert("WanderingDataTable"@.len() != "TouchAreaScriptList"@.len());
        assert("WanderingDataTable"@.len() != "FsbFileListData"@.len());
        assert(spec_schema_for_name("WanderingDataTable"@) == Some(SchemaId::WanderingData));
    }
}

/// The number of bytes an integer of the given kind takes.
pub open spec fn integer_kind_width(k: IntegerKind) -> nat {
    match k {
        IntegerKind::U8 => 1,
        IntegerKind::U16 => 2,
        IntegerKind::U32 => 4,
    }
}

/// A field's descriptor agrees with how its bytes are read and written: an
/// integer field is described with the width its bytes take, a range constraint
/// admits exactly the integers that writing the field accepts, and the other
/// kinds follow the kind of value the field holds.
pub proof fn lemma_describe_agrees(name: &'static str, codec: Codec)
    ensures
        spec_describe(name, codec).name == name,
        (spec_describe(name, codec).kind is Integer) <==> (codec == Codec::U8 || codec == Codec::U8Wrapping
            || codec == Codec::U16 || codec == Codec::U32),
        spec_describe(name, codec).kind matches FieldKind::Integer(k) ==> integer_kind_width(k) == codec.spec_width(),
        (spec_describe(name, codec).kind == FieldKind::Float(FloatKind::F32)) <==> codec == Codec::F32,
        (spec_describe(name, codec).kind == FieldKind::Boolean) <==> codec == Codec::Bool,
        (spec_describe(name, codec).kind == FieldKind::String) <==> codec == Codec::StringPointer,
        spec_describe(name, codec).constraint matches FieldConstraint::IntegerRange { min, max } ==> forall|n: u32|
            #[trigger] encode_field(codec, ValueView::Integer(n)) is Some <==> (min <= n && n <= max),
        (codec == Codec::U8 || codec == Codec::U16) ==> spec_describe(name, codec).constraint is IntegerRange,
        codec == Codec::U8Wrapping ==> spec_describe(name, codec).constraint == (FieldConstraint::TableIndex {
            table: "FsbFileListData",
        }),
{
}

} // verus!
