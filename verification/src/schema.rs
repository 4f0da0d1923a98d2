//! The table schemas: how each kind of table lays out its entries and where its
//! rows end.
use vstd::prelude::*;
use crate::codec::Codec;
use crate::field::{FieldConstraint, FieldDescriptor, FieldKind, FloatKind, IntegerKind};

verus! {

/// The kinds of table that RLB files hold.
#[derive(Debug, Clone, Copy, PartialEq, Eq, Structural)]
pub enum SchemaId {
    AttractionRanking,
    DispositionDataHeader,
    PlayerDispositionData,
    PokemonDispositionData,
    ItemDispositionData,
    ItemKindTotalNumData,
    FlagTable,
    ScriptList,
    FsbFileList,
    WanderingData,
}

/// Where the rows of a table end.
#[derive(Debug, Clone, Copy)]
pub enum RowBoundary {
    /// A fixed number of rows.
    Fixed { rows: usize },
    /// Rows up to a terminator entry, which is kept.
    Terminated,
    /// As many rows as a field of another table says.
    CountedBy { schema: SchemaId, field: &'static str },
}

/// How the rows of a table are laid out.
#[derive(Debug, Clone, Copy)]
pub struct RowLayout {
    pub boundary: RowBoundary,
    pub max_rows: Option<usize>,
}

/// A table schema: its fields and how its rows are laid out.
#[derive(Debug, Clone)]
pub struct SchemaDescriptor {
    pub id: SchemaId,
    pub description: &'static str,
    pub fields: Vec<FieldDescriptor>,
    pub rows: RowLayout,
}

/// One part of an entry: a named field, or padding bytes kept as they are.
#[derive(Debug, Clone, Copy)]
pub enum Slot {
    Field { name: &'static str, codec: Codec },
    Pad(usize),
}

/// The number of bytes a slot takes.
pub open spec fn slot_width(s: Slot) -> nat {
    match s {
        Slot::Field { codec, .. } => codec.spec_width(),
        Slot::Pad(n) => n as nat,
    }
}

/// The number of bytes the slots take.
pub open spec fn slots_width(slots: Seq<Slot>) -> nat
    decreases slots.len(),
{
    if slots.len() == 0 {
        0
    } else {
        slots_width(slots.drop_last()) + slot_width(slots.last())
    }
}

/// The number of named fields among the slots.
pub open spec fn field_count(slots: Seq<Slot>) -> nat
    decreases slots.len(),
{
    if slots.len() == 0 {
        0
    } else {
        field_count(slots.drop_last()) + if slots.last() is Field { 1nat } else { 0nat }
    }
}

/// The number of padding slots.
pub open spec fn pad_count(slots: Seq<Slot>) -> nat
    decreases slots.len(),
{
    if slots.len() == 0 {
        0
    } else {
        pad_count(slots.drop_last()) + if slots.last() is Pad { 1nat } else { 0nat }
    }
}

/// The slots of an entry of the given schema, in file order.
pub open spec fn spec_slots(id: SchemaId) -> Seq<Slot> {
    match id {
        SchemaId::AttractionRanking => seq![
            Slot::Field { name: "friendship_id", codec: Codec::U32 },
            Slot::Field { name: "record_target", codec: Codec::U32 },
            Slot::Field { name: "bonus_record_target", codec: Codec::U32 },
            Slot::Field { name: "unknown_0x0c", codec: Codec::U32 },
            Slot::Field { name: "unknown_0x10", codec: Codec::U32 },
            Slot::Field { name: "unknown_0x14", codec: Codec::U32 },
            Slot::Field { name: "unknown_0x18", codec: Codec::U32 },
        ],
        SchemaId::DispositionDataHeader => seq![
            Slot::Field { name: "player_disposition_count", codec: Codec::U8 },
            Slot::Field { name: "pokemon_disposition_count", codec: Codec::U8 },
            Slot::Field { name: "item_disposition_count", codec: Codec::U8 },
            Slot::Pad(1),
            Slot::Field { name: "item_kind_total_num_count", codec: Codec::U8 },
            Slot::Pad(3),
        ],
        SchemaId::PlayerDispositionData => seq![
            Slot::Field { name: "position_x", codec: Codec::F32 },
            Slot::Field { name: "position_y", codec: Codec::F32 },
            Slot::Field { name: "position_z", codec: Codec::F32 },
            Slot::Field { name: "rotation_y", codec: Codec::F32 },
        ],
        SchemaId::PokemonDispositionData => seq![
            Slot::Field { name: "object_id", codec: Codec::U16 },
            Slot::Pad(2),
            Slot::Field { name: "friendship_id", codec: Codec::U32 },
            Slot::Field { name: "walking_ai_enabled", codec: Codec::U32 },
            Slot::Field { name: "field_position_candidates", codec: Codec::U32 },
            Slot::Field { name: "position_x", codec: Codec::F32 },
            Slot::Field { name: "position_y", codec: Codec::F32 },
            Slot::Field { name: "position_z", codec: Codec::F32 },
            Slot::Field { name: "rotation_y", codec: Codec::F32 },
            Slot::Field { name: "field_position_override", codec: Codec::U8 },
            Slot::Pad(3),
            Slot::Field { name: "unlock_id", codec: Codec::U32 },
            Slot::Field { name: "skill_game_type", codec: Codec::U32 },
            Slot::Field { name: "skill_game_start_position_group", codec: Codec::U32 },
            Slot::Field { name: "damage_disposition", codec: Codec::U32 },
        ],
        SchemaId::ItemDispositionData => seq![
            Slot::Field { name: "object_id", codec: Codec::U16 },
            Slot::Field { name: "object_type", codec: Codec::U16 },
            Slot::Field { name: "item_kind", codec: Codec::U32 },
            Slot::Field { name: "position_x", codec: Codec::F32 },
            Slot::Field { name: "position_y", codec: Codec::F32 },
            Slot::Field { name: "position_z", codec: Codec::F32 },
            Slot::Field { name: "rotation_y", codec: Codec::F32 },
            Slot::Field { name: "unknown_0x18", codec: Codec::F32 },
            Slot::Field { name: "unknown_0x1c", codec: Codec::F32 },
            Slot::Field { name: "unknown_0x20", codec: Codec::F32 },
        ],
        SchemaId::ItemKindTotalNumData => seq![
            Slot::Field { name: "item_kind", codec: Codec::U32 },
            Slot::Field { name: "amount", codec: Codec::U32 },
        ],
        SchemaId::FlagTable => seq![
            Slot::Field { name: "flag_name", codec: Codec::StringPointer },
            Slot::Field { name: "bit_width", codec: Codec::U8 },
            Slot::Pad(3),
        ],
        SchemaId::ScriptList => seq![
            Slot::Field { name: "name", codec: Codec::StringPointer },
            Slot::Field { name: "object_id", codec: Codec::U32 },
            Slot::Field { name: "minimum_chapter", codec: Codec::U32 },
            Slot::Field { name: "medium_chapter", codec: Codec::U32 },
            Slot::Field { name: "maximum_chapter", codec: Codec::U32 },
            Slot::Field { name: "flagname", codec: Codec::StringPointer },
            Slot::Field { name: "flag_value_condition", codec: Codec::U32 },
            Slot::Field { name: "target_script", codec: Codec::U8Wrapping },
            Slot::Pad(3),
            Slot::Field { name: "unknown", codec: Codec::U32 },
            Slot::Field { name: "entrypoint", codec: Codec::StringPointer },
            Slot::Field { name: "zone_id", codec: Codec::U32 },
            Slot::Field { name: "area_id", codec: Codec::U32 },
            Slot::Field { name: "position_id", codec: Codec::U32 },
            Slot::Field { name: "pad_0x34", codec: Codec::U32 },
            Slot::Field { name: "after_script_entrypoint", codec: Codec::StringPointer },
            Slot::Field { name: "animation", codec: Codec::StringPointer },
            Slot::Field { name: "flagname2", codec: Codec::StringPointer },
        ],
        SchemaId::FsbFileList => seq![
            Slot::Field { name: "script_name", codec: Codec::StringPointer },
        ],
        SchemaId::WanderingData => seq![
            Slot::Field { name: "pokemon_unlock_id", codec: Codec::U32 },
            Slot::Field { name: "pokemon_friendship_id", codec: Codec::U32 },
            Slot::Field { name: "enabled", codec: Codec::Bool },
            Slot::Pad(3),
        ],
    }
}

/// The slots of an entry of the given schema, in file order.
pub fn slots(id: SchemaId) -> (r: Vec<Slot>)
    ensures
        r@ == spec_slots(id),
{
    match id {
        SchemaId::AttractionRanking => vec![
            Slot::Field { name: "friendship_id", codec: Codec::U32 },
            Slot::Field { name: "record_target", codec: Codec::U32 },
            Slot::Field { name: "bonus_record_target", codec: Codec::U32 },
            Slot::Field { name: "unknown_0x0c", codec: Codec::U32 },
            Slot::Field { name: "unknown_0x10", codec: Codec::U32 },
            Slot::Field { name: "unknown_0x14", codec: Codec::U32 },
            Slot::Field { name: "unknown_0x18", codec: Codec::U32 },
        ],
        SchemaId::DispositionDataHeader => vec![
            Slot::Field { name: "player_disposition_count", codec: Codec::U8 },
            Slot::Field { name: "pokemon_disposition_count", codec: Codec::U8 },
            Slot::Field { name: "item_disposition_count", codec: Codec::U8 },
            Slot::Pad(1),
            Slot::Field { name: "item_kind_total_num_count", codec: Codec::U8 },
            Slot::Pad(3),
        ],
        SchemaId::PlayerDispositionData => vec![
            Slot::Field { name: "position_x", codec: Codec::F32 },
            Slot::Field { name: "position_y", codec: Codec::F32 },
            Slot::Field { name: "position_z", codec: Codec::F32 },
            Slot::Field { name: "rotation_y", codec: Codec::F32 },
        ],
        SchemaId::PokemonDispositionData => vec![
            Slot::Field { name: "object_id", codec: Codec::U16 },
            Slot::Pad(2),
            Slot::Field { name: "friendship_id", codec: Codec::U32 },
            Slot::Field { name: "walking_ai_enabled", codec: Codec::U32 },
            Slot::Field { name: "field_position_candidates", codec: Codec::U32 },
            Slot::Field { name: "position_x", codec: Codec::F32 },
            Slot::Field { name: "position_y", codec: Codec::F32 },
            Slot::Field { name: "position_z", codec: Codec::F32 },
            Slot::Field { name: "rotation_y", codec: Codec::F32 },
            Slot::Field { name: "field_position_override", codec: Codec::U8 },
            Slot::Pad(3),
            Slot::Field { name: "unlock_id", codec: Codec::U32 },
            Slot::Field { name: "skill_game_type", codec: Codec::U32 },
            Slot::Field { name: "skill_game_start_position_group", codec: Codec::U32 },
            Slot::Field { name: "damage_disposition", codec: Codec::U32 },
        ],
        SchemaId::ItemDispositionData => vec![
            Slot::Field { name: "object_id", codec: Codec::U16 },
            Slot::Field { name: "object_type", codec: Codec::U16 },
            Slot::Field { name: "item_kind", codec: Codec::U32 },
            Slot::Field { name: "position_x", codec: Codec::F32 },
            Slot::Field { name: "position_y", codec: Codec::F32 },
            Slot::Field { name: "position_z", codec: Codec::F32 },
            Slot::Field { name: "rotation_y", codec: Codec::F32 },
            Slot::Field { name: "unknown_0x18", codec: Codec::F32 },
            Slot::Field { name: "unknown_0x1c", codec: Codec::F32 },
            Slot::Field { name: "unknown_0x20", codec: Codec::F32 },
        ],
        SchemaId::ItemKindTotalNumData => vec![
            Slot::Field { name: "item_kind", codec: Codec::U32 },
            Slot::Field { name: "amount", codec: Codec::U32 },
        ],
        SchemaId::FlagTable => vec![
            Slot::Field { name: "flag_name", codec: Codec::StringPointer },
            Slot::Field { name: "bit_width", codec: Codec::U8 },
            Slot::Pad(3),
        ],
        SchemaId::ScriptList => vec![
            Slot::Field { name: "name", codec: Codec::StringPointer },
            Slot::Field { name: "object_id", codec: Codec::U32 },
            Slot::Field { name: "minimum_chapter", codec: Codec::U32 },
            Slot::Field { name: "medium_chapter", codec: Codec::U32 },
            Slot::Field { name: "maximum_chapter", codec: Codec::U32 },
            Slot::Field { name: "flagname", codec: Codec::StringPointer },
            Slot::Field { name: "flag_value_condition", codec: Codec::U32 },
            Slot::Field { name: "target_script", codec: Codec::U8Wrapping },
            Slot::Pad(3),
            Slot::Field { name: "unknown", codec: Codec::U32 },
            Slot::Field { name: "entrypoint", codec: Codec::StringPointer },
            Slot::Field { name: "zone_id", codec: Codec::U32 },
            Slot::Field { name: "area_id", codec: Codec::U32 },
            Slot::Field { name: "position_id", codec: Codec::U32 },
            Slot::Field { name: "pad_0x34", codec: Codec::U32 },
            Slot::Field { name: "after_script_entrypoint", codec: Codec::StringPointer },
            Slot::Field { name: "animation", codec: Codec::StringPointer },
            Slot::Field { name: "flagname2", codec: Codec::StringPointer },
        ],
        SchemaId::FsbFileList => vec![
            Slot::Field { name: "script_name", codec: Codec::StringPointer },
        ],
        SchemaId::WanderingData => vec![
            Slot::Field { name: "pokemon_unlock_id", codec: Codec::U32 },
            Slot::Field { name: "pokemon_friendship_id", codec: Codec::U32 },
            Slot::Field { name: "enabled", codec: Codec::Bool },
            Slot::Pad(3),
        ],
    }
}

/// The size of an entry of the given schema.
pub open spec fn spec_entry_size(id: SchemaId) -> nat {
    slots_width(spec_slots(id))
}

/// The size of an entry of the given schema.
pub fn entry_size(id: SchemaId) -> (r: usize)
    ensures
        r == spec_entry_size(id),
        r > 0,
{
    match id {
        SchemaId::AttractionRanking => {
            assert(slots_width(spec_slots(SchemaId::AttractionRanking)) == 28) by {
                reveal_with_fuel(slots_width, 20);
            }
            28
        },
        SchemaId::DispositionDataHeader => {
            assert(slots_width(spec_slots(SchemaId::DispositionDataHeader)) == 8) by {
                reveal_with_fuel(slots_width, 20);
            }
            8
        },
        SchemaId::PlayerDispositionData => {
            assert(slots_width(spec_slots(SchemaId::PlayerDispositionData)) == 16) by {
                reveal_with_fuel(slots_width, 20);
            }
            16
        },
        SchemaId::PokemonDispositionData => {
            assert(slots_width(spec_slots(SchemaId::PokemonDispositionData)) == 52) by {
                reveal_with_fuel(slots_width, 20);
            }
            52
        },
        SchemaId::ItemDispositionData => {
            assert(slots_width(spec_slots(SchemaId::ItemDispositionData)) == 36) by {
                reveal_with_fuel(slots_width, 20);
            }
            36
        },
        SchemaId::ItemKindTotalNumData => {
            assert(slots_width(spec_slots(SchemaId::ItemKindTotalNumData)) == 8) by {
                reveal_with_fuel(slots_width, 20);
            }
            8
        },
        SchemaId::FlagTable => {
            assert(slots_width(spec_slots(SchemaId::FlagTable)) == 8) by {
                reveal_with_fuel(slots_width, 20);
            }
            8
        },
        SchemaId::ScriptList => {
            assert(slots_width(spec_slots(SchemaId::ScriptList)) == 68) by {
                reveal_with_fuel(slots_width, 20);
            }
            68
        },
        SchemaId::FsbFileList => {
            assert(slots_width(spec_slots(SchemaId::FsbFileList)) == 4) by {
                reveal_with_fuel(slots_width, 20);
            }
            4
        },
        SchemaId::WanderingData => {
            assert(slots_width(spec_slots(SchemaId::WanderingData)) == 12) by {
                reveal_with_fuel(slots_width, 20);
            }
            12
        },
    }
}

/// The schema that a table label names, if any.
pub open spec fn spec_schema_for_name(name: Seq<char>) -> Option<SchemaId> {
    if name == "AttractionRanking"@ {
        Some(SchemaId::AttractionRanking)
    } else if name == "dispositionDataHeader"@ {
        Some(SchemaId::DispositionDataHeader)
    } else if name == "playerDispositionData"@ {
        Some(SchemaId::PlayerDispositionData)
    } else if name == "pokemonDispositionData"@ {
        Some(SchemaId::PokemonDispositionData)
    } else if name == "itemDispositionData"@ {
        Some(SchemaId::ItemDispositionData)
    } else if name == "itemKindTotalNumData"@ {
        Some(SchemaId::ItemKindTotalNumData)
    } else if name == "FlagTable"@ {
        Some(SchemaId::FlagTable)
    } else if name == "BackFromAttractionScriptList"@ {
        Some(SchemaId::ScriptList)
    } else if name == "ReplaceScriptList"@ {
        Some(SchemaId::ScriptList)
    } else if name == "CheckObjectScriptList"@ {
        Some(SchemaId::ScriptList)
    } else if name == "EnterZoneScriptList"@ {
        Some(SchemaId::ScriptList)
    } else if name == "HitDashScriptList"@ {
        Some(SchemaId::ScriptList)
    } else if name == "HitThunderboltScriptList"@ {
        Some(SchemaId::ScriptList)
    } else if name == "TimeOutScriptList"@ {
        Some(SchemaId::ScriptList)
    } else if name == "TouchAreaScriptList"@ {
        Some(SchemaId::ScriptList)
    } else if name == "FsbFileListData"@ {
        Some(SchemaId::FsbFileList)
    } else if name == "WanderingDataTable"@ {
        Some(SchemaId::WanderingData)
    } else {
        None
    }
}

/// Whether two strings are equal.
pub fn str_eq(a: &str, b: &str) -> (r: bool)
    ensures
        r == (a@ == b@),
{
    let x: String = a.to_owned();
    let y: String = b.to_owned();
    x == y
}

/// The schema that a table label names, if any.
pub fn schema_for_name(name: &str) -> (r: Option<SchemaId>)
    ensures
        r == spec_schema_for_name(name@),
{
    if str_eq(name, "AttractionRanking") {
        Some(SchemaId::AttractionRanking)
    } else if str_eq(name, "dispositionDataHeader") {
        Some(SchemaId::DispositionDataHeader)
    } else if str_eq(name, "playerDispositionData") {
        Some(SchemaId::PlayerDispositionData)
    } else if str_eq(name, "pokemonDispositionData") {
        Some(SchemaId::PokemonDispositionData)
    } else if str_eq(name, "itemDispositionData") {
        Some(SchemaId::ItemDispositionData)
    } else if str_eq(name, "itemKindTotalNumData") {
        Some(SchemaId::ItemKindTotalNumData)
    } else if str_eq(name, "FlagTable") {
        Some(SchemaId::FlagTable)
    } else if str_eq(name, "BackFromAttractionScriptList") {
        Some(SchemaId::ScriptList)
    } else if str_eq(name, "ReplaceScriptList") {
        Some(SchemaId::ScriptList)
    } else if str_eq(name, "CheckObjectScriptList") {
        Some(SchemaId::ScriptList)
    } else if str_eq(name, "EnterZoneScriptList") {
        Some(SchemaId::ScriptList)
    } else if str_eq(name, "HitDashScriptList") {
        Some(SchemaId::ScriptList)
    } else if str_eq(name, "HitThunderboltScriptList") {
        Some(SchemaId::ScriptList)
    } else if str_eq(name, "TimeOutScriptList") {
        Some(SchemaId::ScriptList)
    } else if str_eq(name, "TouchAreaScriptList") {
        Some(SchemaId::ScriptList)
    } else if str_eq(name, "FsbFileListData") {
        Some(SchemaId::FsbFileList)
    } else if str_eq(name, "WanderingDataTable") {
        Some(SchemaId::WanderingData)
    } else {
        None
    }
}

/// How the rows of a table of a schema are found when parsing.
#[derive(Debug, Clone, Copy, PartialEq, Eq, Structural)]
pub enum RowsRule {
    /// Entries up to the first terminator entry.
    Terminated,
    /// Exactly one entry.
    Single,
    /// As many entries as the byte at this offset of the `dispositionDataHeader` table says.
    CountedByHeaderByte(usize),
}

/// How the rows of a table of the given schema are found when parsing.
pub open spec fn spec_rows_rule(id: SchemaId) -> RowsRule {
    match id {
        SchemaId::AttractionRanking => RowsRule::Terminated,
        SchemaId::DispositionDataHeader => RowsRule::Single,
        SchemaId::PlayerDispositionData => RowsRule::CountedByHeaderByte(0),
        SchemaId::PokemonDispositionData => RowsRule::CountedByHeaderByte(1),
        SchemaId::ItemDispositionData => RowsRule::CountedByHeaderByte(2),
        SchemaId::ItemKindTotalNumData => RowsRule::CountedByHeaderByte(4),
        SchemaId::FlagTable => RowsRule::Terminated,
        SchemaId::ScriptList => RowsRule::Terminated,
        SchemaId::FsbFileList => RowsRule::Terminated,
        SchemaId::WanderingData => RowsRule::Terminated,
    }
}

/// How the rows of a table of the given schema are found when parsing.
pub fn rows_rule(id: SchemaId) -> (r: RowsRule)
    ensures
        r == spec_rows_rule(id),
{
    match id {
        SchemaId::AttractionRanking => RowsRule::Terminated,
        SchemaId::DispositionDataHeader => RowsRule::Single,
        SchemaId::PlayerDispositionData => RowsRule::CountedByHeaderByte(0),
        SchemaId::PokemonDispositionData => RowsRule::CountedByHeaderByte(1),
        SchemaId::ItemDispositionData => RowsRule::CountedByHeaderByte(2),
        SchemaId::ItemKindTotalNumData => RowsRule::CountedByHeaderByte(4),
        SchemaId::FlagTable => RowsRule::Terminated,
        SchemaId::ScriptList => RowsRule::Terminated,
        SchemaId::FsbFileList => RowsRule::Terminated,
        SchemaId::WanderingData => RowsRule::Terminated,
    }
}

/// The row layout that the schema descriptor announces.
pub open spec fn spec_row_layout(id: SchemaId) -> RowLayout {
    RowLayout {
        boundary: match id {
        SchemaId::AttractionRanking => RowBoundary::Terminated,
        SchemaId::DispositionDataHeader => RowBoundary::Fixed { rows: 1 },
        SchemaId::PlayerDispositionData => RowBoundary::CountedBy { schema: SchemaId::DispositionDataHeader, field: "player_disposition_count" },
        SchemaId::PokemonDispositionData => RowBoundary::CountedBy { schema: SchemaId::DispositionDataHeader, field: "pokemon_disposition_count" },
        SchemaId::ItemDispositionData => RowBoundary::CountedBy { schema: SchemaId::DispositionDataHeader, field: "item_disposition_count" },
        SchemaId::ItemKindTotalNumData => RowBoundary::CountedBy { schema: SchemaId::DispositionDataHeader, field: "item_kind_total_num_count" },
        SchemaId::FlagTable => RowBoundary::Terminated,
        SchemaId::ScriptList => RowBoundary::Terminated,
        SchemaId::FsbFileList => RowBoundary::Terminated,
        SchemaId::WanderingData => RowBoundary::Terminated,
    },
        max_rows: None,
    }
}

/// The row layout that the schema descriptor announces.
pub fn row_layout(id: SchemaId) -> (r: RowLayout)
    ensures
        r == spec_row_layout(id),
        spec_rows_rule(id) == RowsRule::Terminated ==> r.boundary is Terminated,
        spec_rows_rule(id) == RowsRule::Single ==> (r.boundary matches RowBoundary::Fixed { rows } && rows == 1),
        spec_rows_rule(id) is CountedByHeaderByte ==> (r.boundary matches RowBoundary::CountedBy { schema, .. } && schema == SchemaId::DispositionDataHeader),
{
    let boundary = match id {
        SchemaId::AttractionRanking => RowBoundary::Terminated,
        SchemaId::DispositionDataHeader => RowBoundary::Fixed { rows: 1 },
        SchemaId::PlayerDispositionData => RowBoundary::CountedBy { schema: SchemaId::DispositionDataHeader, field: "player_disposition_count" },
        SchemaId::PokemonDispositionData => RowBoundary::CountedBy { schema: SchemaId::DispositionDataHeader, field: "pokemon_disposition_count" },
        SchemaId::ItemDispositionData => RowBoundary::CountedBy { schema: SchemaId::DispositionDataHeader, field: "item_disposition_count" },
        SchemaId::ItemKindTotalNumData => RowBoundary::CountedBy { schema: SchemaId::DispositionDataHeader, field: "item_kind_total_num_count" },
        SchemaId::FlagTable => RowBoundary::Terminated,
        SchemaId::ScriptList => RowBoundary::Terminated,
        SchemaId::FsbFileList => RowBoundary::Terminated,
        SchemaId::WanderingData => RowBoundary::Terminated,
    };
    RowLayout { boundary, max_rows: None }
}

/// The description of the schema.
pub open spec fn spec_schema_description(id: SchemaId) -> &'static str {
    match id {
        SchemaId::AttractionRanking => "",
        SchemaId::DispositionDataHeader => "Counts for the disposition data tables",
        SchemaId::PlayerDispositionData => "Player disposition data",
        SchemaId::PokemonDispositionData => "Pokemon disposition data",
        SchemaId::ItemDispositionData => "Item disposition data",
        SchemaId::ItemKindTotalNumData => "",
        SchemaId::FlagTable => "flags and their bit widths",
        SchemaId::ScriptList => "script wiring",
        SchemaId::FsbFileList => "Script file names referenced by script-list tables",
        SchemaId::WanderingData => "",
    }
}

/// The description of the schema.
pub fn schema_description(id: SchemaId) -> (r: &'static str)
    ensures
        r == spec_schema_description(id),
{
    match id {
        SchemaId::AttractionRanking => "",
        SchemaId::DispositionDataHeader => "Counts for the disposition data tables",
        SchemaId::PlayerDispositionData => "Player disposition data",
        SchemaId::PokemonDispositionData => "Pokemon disposition data",
        SchemaId::ItemDispositionData => "Item disposition data",
        SchemaId::ItemKindTotalNumData => "",
        SchemaId::FlagTable => "flags and their bit widths",
        SchemaId::ScriptList => "script wiring",
        SchemaId::FsbFileList => "Script file names referenced by script-list tables",
        SchemaId::WanderingData => "",
    }
}

} // verus!
