//! Reading back what was written: entries, tables and whole files decode to the
//! values they were encoded from.
use vstd::prelude::*;
use crate::be::{
    be_u16_at, be_u32_at, lemma_be_u16_bytes, lemma_be_u32_bytes, lemma_u16_be_roundtrip,
    lemma_u32_be_roundtrip, u16_be, u32_be,
};
use crate::codec::{decode_field, encode_field, shift_fixups, Codec};
use crate::entry::{decode_slots, encode_slots, lemma_decode_within, EntryView};
use crate::table::{
    decode_counted, decode_table, decode_terminated, encode_entries, encode_sized, encode_table,
    prepend, spec_is_terminator, TableModel,
};
use crate::schema::{spec_entry_size, spec_rows_rule, spec_schema_for_name, spec_slots, RowsRule, SchemaId};
use crate::parse_context::first_offset;
use crate::collection::{
    encode_all, fixup_strings, patch, patch_fixups, place_tables, serialize_tables, spec_intern,
    intern_all, empty_pool,
};
use crate::sjis::{ascii_bytes, is_ascii_text, shift_jis_decoded, shift_jis_encoded};
use crate::string_pool::StringPoolView;
use crate::util::{c_string_at, lemma_c_string_prefix};
use crate::raw_file::TableRecord;
use crate::raw_file::RawFileView;
use crate::rlb_file::{
    all_pending, container_of, file_of_raw, lemma_parse_order_perm, lemma_parse_order_sorted,
    lemma_strict_order_unique, parts_file_size,
    parts_lengths_fit, pending_of, raw_parts, read_order, read_table, read_tables, records_of,
    roots_of, slot_index, RLBFileView,
};
use crate::parse_context::pointed_string;
use crate::schema::{field_count, pad_count, slot_width, slots_width, Slot};
use crate::value::ValueView;

verus! {

/// Each fixup lies within `len` bytes and ends before the next one starts.
pub open spec fn spaced(f: Seq<(int, Seq<char>)>, len: int) -> bool {
    &&& forall|j: int| 0 <= j < f.len() ==> 0 <= #[trigger] f[j].0 && f[j].0 + 4 <= len
    &&& forall|j: int, k: int| 0 <= j < k < f.len() ==> #[trigger] f[j].0 + 4 <= #[trigger] f[k].0
}

/// Position `x` lies within the four bytes of one of the fixups.
pub open spec fn covered(f: Seq<(int, Seq<char>)>, x: int) -> bool {
    exists|j: int| 0 <= j < f.len() && #[trigger] f[j].0 <= x < f[j].0 + 4
}

/// The bytes `b` with fixups `f` stand at `pos` of `data`: each byte that no fixup
/// covers is there as written, each fixup's four bytes hold the offset of its
/// string, which reads back from there, and its position is a relocation site;
/// no other position of the region is one.
pub open spec fn placed(
    data: Seq<u8>,
    relocs: Seq<u32>,
    pos: int,
    b: Seq<u8>,
    f: Seq<(int, Seq<char>)>,
    offsets: Map<Seq<char>, usize>,
) -> bool {
    &&& 0 <= pos
    &&& pos + b.len() <= data.len()
    &&& pos + b.len() <= u32::MAX
    &&& forall|x: int| 0 <= x < b.len() && !covered(f, x) ==> data[pos + x] == #[trigger] b[x]
    &&& forall|j: int|
        0 <= j < f.len() ==> {
            &&& offsets.contains_key(#[trigger] f[j].1)
            &&& offsets[f[j].1] <= u32::MAX
            &&& data.subrange(pos + f[j].0, pos + f[j].0 + 4) == u32_be(offsets[f[j].1] as u32)
            &&& relocs.contains((pos + f[j].0) as u32)
            &&& pointed_string(data, offsets[f[j].1] as u32) == Some(f[j].1)
        }
    &&& forall|q: int|
        pos <= q < pos + b.len() && #[trigger] relocs.contains(q as u32) ==> exists|j: int|
            0 <= j < f.len() && q == pos + #[trigger] f[j].0
}

/// A value that reads back as itself from the bytes its field kind writes: a
/// wrapping byte must already fit in a byte.
pub open spec fn value_keeps(codec: Codec, v: ValueView) -> bool {
    codec == Codec::U8Wrapping ==> (v matches ValueView::Integer(n) && n <= 255)
}

/// The entry has a value of the right kind for each field among `slots` and
/// padding of the right size for each padding slot.
pub open spec fn sized(slots: Seq<Slot>, e: EntryView) -> bool
    decreases slots.len(),
{
    if slots.len() == 0 {
        true
    } else {
        &&& sized(slots.drop_last(), e)
        &&& match slots.last() {
            Slot::Field { codec, .. } => {
                let k = field_count(slots.drop_last()) as int;
                k < e.values.len() && value_keeps(codec, e.values[k])
            },
            Slot::Pad(n) => {
                let k = pad_count(slots.drop_last()) as int;
                k < e.pads.len() && e.pads[k].len() == n
            },
        }
    }
}

/// The part of `e` that `slots` cover.
pub open spec fn prefix_of(slots: Seq<Slot>, e: EntryView) -> EntryView {
    EntryView {
        values: e.values.take(field_count(slots) as int),
        pads: e.pads.take(pad_count(slots) as int),
    }
}

/// The bytes of an encoded entry are as many as its slots are wide, and its
/// fixups are spaced within them.
pub proof fn lemma_encode_slots_shape(slots: Seq<Slot>, e: EntryView)
    requires
        sized(slots, e),
        encode_slots(slots, e) is Some,
    ensures
        encode_slots(slots, e).unwrap().0.len() == slots_width(slots),
        spaced(encode_slots(slots, e).unwrap().1, slots_width(slots) as int),
    decreases slots.len(),
{
    if slots.len() > 0 {
        let s = slots.drop_last();
        lemma_encode_slots_shape(s, e);
        let (b, f) = encode_slots(s, e).unwrap();
        match slots.last() {
            Slot::Field { codec, .. } => {
                let k = field_count(s) as int;
                let (fb, t) = encode_field(codec, e.values[k]).unwrap();
                lemma_encode_field_width(codec, e.values[k]);
                let (b2, f2) = encode_slots(slots, e).unwrap();
                assert(b2 == b + fb);
                match t {
                    None => {},
                    Some(x) => {
                        assert(f2 == f.push((b.len() as int, x)));
                        assert forall|j: int, l: int| 0 <= j < l < f2.len() implies #[trigger] f2[j].0 + 4
                            <= #[trigger] f2[l].0 by {
                            if l < f.len() {
                                assert(f2[j] == f[j] && f2[l] == f[l]);
                            } else {
                                assert(f2[j] == f[j]);
                            }
                        }
                        assert forall|j: int| 0 <= j < f2.len() implies 0 <= #[trigger] f2[j].0 && f2[j].0
                            + 4 <= slots_width(slots) by {
                            if j < f.len() {
                                assert(f2[j] == f[j]);
                            }
                        }
                    },
                }
            },
            Slot::Pad(n) => {},
        }
    }
}

/// A field's bytes are as many as its kind is wide; only pointer fields name a
/// string.
pub proof fn lemma_encode_field_width(codec: Codec, v: ValueView)
    requires
        encode_field(codec, v) is Some,
    ensures
        encode_field(codec, v).unwrap().0.len() == codec.spec_width(),
        codec != Codec::StringPointer ==> encode_field(codec, v).unwrap().1 is None,
        codec == Codec::StringPointer ==> encode_field(codec, v).unwrap().1 == (match v {
            ValueView::String(s) => s,
            _ => None,
        }),
{
    match v {
        ValueView::Integer(n) => {
            if codec == Codec::U16 {
                lemma_u16_be_roundtrip(n as u16);
            }
            if codec == Codec::U32 {
                lemma_u32_be_roundtrip(n);
            }
        },
        ValueView::Float(bits) => {
            lemma_u32_be_roundtrip(bits);
        },
        ValueView::String(_) => {
            lemma_u32_be_roundtrip(0);
        },
        ValueView::Boolean(_) => {},
    }
}

/// A field whose written bytes stand at `p` (for a pointer: whose relocation
/// site and string stand as written) reads back as its value.
proof fn lemma_decode_field_back(
    codec: Codec,
    v: ValueView,
    data: Seq<u8>,
    relocs: Seq<u32>,
    p: int,
    offsets: Map<Seq<char>, usize>,
)
    requires
        encode_field(codec, v) is Some,
        value_keeps(codec, v),
        0 <= p,
        p + codec.spec_width() <= data.len(),
        p + codec.spec_width() <= u32::MAX,
        codec != Codec::StringPointer ==> data.subrange(p, p + codec.spec_width()) == encode_field(
            codec,
            v,
        ).unwrap().0,
        codec == Codec::StringPointer ==> match encode_field(codec, v).unwrap().1 {
            None => !relocs.contains(p as u32),
            Some(t) => {
                &&& relocs.contains(p as u32)
                &&& offsets.contains_key(t)
                &&& offsets[t] <= u32::MAX
                &&& data.subrange(p, p + 4) == u32_be(offsets[t] as u32)
                &&& pointed_string(data, offsets[t] as u32) == Some(t)
            },
        },
    ensures
        decode_field(codec, data, relocs, p) == Some(v),
{
    lemma_encode_field_width(codec, v);
    let w = data.subrange(p, p + codec.spec_width());
    match codec {
        Codec::U8 | Codec::U8Wrapping => {
            assert(data[p] == w[0]);
        },
        Codec::U16 => {
            let n = v->Integer_0;
            lemma_u16_be_roundtrip(n as u16);
            assert(be_u16_at(data, p) == be_u16_at(w, 0));
        },
        Codec::U32 | Codec::F32 => {
            match v {
                ValueView::Integer(n) => lemma_u32_be_roundtrip(n),
                ValueView::Float(n) => lemma_u32_be_roundtrip(n),
                _ => {},
            }
            assert(be_u32_at(data, p) == be_u32_at(w, 0));
        },
        Codec::Bool => {
            assert(data[p] == w[0]);
        },
        Codec::StringPointer => {
            match encode_field(codec, v).unwrap().1 {
                None => {},
                Some(t) => {
                    let o = offsets[t] as u32;
                    lemma_u32_be_roundtrip(o);
                    assert(be_u32_at(data, p) == be_u32_at(data.subrange(p, p + 4), 0));
                },
            }
        },
    }
}

/// Placing bytes with more fixups after them places the shorter bytes too.
proof fn lemma_placed_prefix(
    data: Seq<u8>,
    relocs: Seq<u32>,
    pos: int,
    b: Seq<u8>,
    f: Seq<(int, Seq<char>)>,
    b2: Seq<u8>,
    f2: Seq<(int, Seq<char>)>,
    offsets: Map<Seq<char>, usize>,
)
    requires
        placed(data, relocs, pos, b2, f2, offsets),
        b.len() <= b2.len(),
        forall|x: int| 0 <= x < b.len() ==> #[trigger] b2[x] == b[x],
        f.len() <= f2.len(),
        forall|j: int| 0 <= j < f.len() ==> #[trigger] f2[j] == f[j],
        forall|j: int| f.len() <= j < f2.len() ==> #[trigger] f2[j].0 >= b.len(),
        spaced(f, b.len() as int),
    ensures
        placed(data, relocs, pos, b, f, offsets),
{
    assert forall|x: int| 0 <= x < b.len() && !covered(f, x) implies data[pos + x] == #[trigger] b[x] by {
        if covered(f2, x) {
            let j = choose|j: int| 0 <= j < f2.len() && #[trigger] f2[j].0 <= x < f2[j].0 + 4;
            if j < f.len() {
                assert(f2[j] == f[j]);
                assert(covered(f, x));
            }
        }
        assert(b2[x] == b[x]);
    }
    assert forall|j: int| 0 <= j < f.len() implies {
        &&& offsets.contains_key(#[trigger] f[j].1)
        &&& offsets[f[j].1] <= u32::MAX
        &&& data.subrange(pos + f[j].0, pos + f[j].0 + 4) == u32_be(offsets[f[j].1] as u32)
        &&& relocs.contains((pos + f[j].0) as u32)
        &&& pointed_string(data, offsets[f[j].1] as u32) == Some(f[j].1)
    } by {
        assert(f2[j] == f[j]);
    }
    assert forall|q: int| pos <= q < pos + b.len() && #[trigger] relocs.contains(q as u32) implies exists|
        j: int,
    | 0 <= j < f.len() && q == pos + #[trigger] f[j].0 by {
        let j = choose|j: int| 0 <= j < f2.len() && q == pos + #[trigger] f2[j].0;
        if j >= f.len() {
            assert(f2[j].0 >= b.len());
        }
        assert(f2[j] == f[j]);
    }
}

/// An entry whose encoding is placed at `pos` reads back from there: the fields
/// that `slots` cover have their values, the padding its bytes.
pub proof fn lemma_decode_encoded_entry(
    slots: Seq<Slot>,
    e: EntryView,
    data: Seq<u8>,
    relocs: Seq<u32>,
    pos: int,
    offsets: Map<Seq<char>, usize>,
)
    requires
        sized(slots, e),
        encode_slots(slots, e) is Some,
        placed(data, relocs, pos, encode_slots(slots, e).unwrap().0, encode_slots(slots, e).unwrap().1, offsets),
    ensures
        decode_slots(slots, data, relocs, pos) == Some(prefix_of(slots, e)),
    decreases slots.len(),
{
    if slots.len() == 0 {
        assert(prefix_of(slots, e) =~= EntryView { values: Seq::empty(), pads: Seq::empty() });
    } else {
        let s = slots.drop_last();
        lemma_encode_slots_shape(s, e);
        lemma_encode_slots_shape(slots, e);
        let (b, f) = encode_slots(s, e).unwrap();
        let (b2, f2) = encode_slots(slots, e).unwrap();
        let p = pos + b.len();
        match slots.last() {
            Slot::Field { codec, .. } => {
                let k = field_count(s) as int;
                let v = e.values[k];
                let (fb, t) = encode_field(codec, v).unwrap();
                lemma_encode_field_width(codec, v);
                assert(b2 == b + fb);
                assert forall|j: int| f.len() <= j < f2.len() implies #[trigger] f2[j].0 >= b.len() by {}
                lemma_placed_prefix(data, relocs, pos, b, f, b2, f2, offsets);
                lemma_decode_encoded_entry(s, e, data, relocs, pos, offsets);
                if codec != Codec::StringPointer {
                    assert(f2 == f);
                    assert forall|x: int| 0 <= x < fb.len() implies data.subrange(p, p + codec.spec_width())[x]
                        == #[trigger] fb[x] by {
                        if covered(f2, b.len() + x) {
                            let j = choose|j: int|
                                0 <= j < f2.len() && #[trigger] f2[j].0 <= b.len() + x < f2[j].0 + 4;
                            assert(f[j].0 + 4 <= b.len());
                        }
                        assert(b2[b.len() + x] == fb[x]);
                    }
                    assert(data.subrange(p, p + codec.spec_width()) =~= fb);
                } else {
                    match t {
                        None => {
                            assert(f2 == f);
                            if relocs.contains(p as u32) {
                                let j = choose|j: int| 0 <= j < f2.len() && p == pos + #[trigger] f2[j].0;
                                assert(f[j].0 + 4 <= b.len());
                            }
                        },
                        Some(x) => {
                            assert(f2 == f.push((b.len() as int, x)));
                            let j = f.len() as int;
                            assert(f2[j] == (b.len() as int, x));
                            assert(offsets.contains_key(f2[j].1));
                            assert(relocs.contains((pos + f2[j].0) as u32));
                            assert(data.subrange(pos + f2[j].0, pos + f2[j].0 + 4) == u32_be(offsets[f2[j].1] as u32));
                            assert(pointed_string(data, offsets[f2[j].1] as u32) == Some(f2[j].1));
                            assert(encode_field(codec, v).unwrap().1 == Some(x));
                        },
                    }
                }
                lemma_decode_field_back(codec, v, data, relocs, p, offsets);
                assert(field_count(slots) == k + 1);
                assert(pad_count(slots) == pad_count(s));
                assert(prefix_of(slots, e).values =~= prefix_of(s, e).values.push(v));
                assert(prefix_of(slots, e).pads =~= prefix_of(s, e).pads);
            },
            Slot::Pad(n) => {
                let k = pad_count(s) as int;
                assert(b2 == b + e.pads[k]);
                assert(f2 == f);
                lemma_placed_prefix(data, relocs, pos, b, f, b2, f2, offsets);
                lemma_decode_encoded_entry(s, e, data, relocs, pos, offsets);
                assert forall|x: int| 0 <= x < n implies data.subrange(p, p + n)[x] == #[trigger] e.pads[k][x] by {
                    if covered(f2, b.len() + x) {
                        let j = choose|j: int|
                            0 <= j < f2.len() && #[trigger] f2[j].0 <= b.len() + x < f2[j].0 + 4;
                        assert(f[j].0 + 4 <= b.len());
                    }
                    assert(b2[b.len() + x] == e.pads[k][x]);
                }
                assert(data.subrange(p, p + n) =~= e.pads[k]);
                assert(field_count(slots) == field_count(s));
                assert(pad_count(slots) == k + 1);
                assert(prefix_of(slots, e).values =~= prefix_of(s, e).values);
                assert(prefix_of(slots, e).pads =~= prefix_of(s, e).pads.push(e.pads[k]));
            },
        }
    }
}

/// Fixups spaced within two byte strings stay spaced within the two together.
proof fn lemma_spaced_concat(f: Seq<(int, Seq<char>)>, g: Seq<(int, Seq<char>)>, lb: int, lc: int)
    requires
        spaced(f, lb),
        spaced(g, lc),
        0 <= lb,
        0 <= lc,
    ensures
        spaced(f + shift_fixups(g, lb), lb + lc),
{
    let h = f + shift_fixups(g, lb);
    assert forall|j: int| 0 <= j < h.len() implies 0 <= #[trigger] h[j].0 && h[j].0 + 4 <= lb + lc by {
        if j >= f.len() {
            assert(h[j].0 == g[j - f.len()].0 + lb);
        } else {
            assert(h[j] == f[j]);
        }
    }
    assert forall|j: int, k: int| 0 <= j < k < h.len() implies #[trigger] h[j].0 + 4 <= #[trigger] h[k].0 by {
        if k < f.len() {
        } else if j < f.len() {
            assert(h[k].0 == g[k - f.len()].0 + lb);
        } else {
            assert(h[j].0 == g[j - f.len()].0 + lb);
            assert(h[k].0 == g[k - f.len()].0 + lb);
        }
    }
}

/// Placing two byte strings one after the other places the second after the first.
proof fn lemma_placed_suffix(
    data: Seq<u8>,
    relocs: Seq<u32>,
    pos: int,
    b: Seq<u8>,
    f: Seq<(int, Seq<char>)>,
    c: Seq<u8>,
    g: Seq<(int, Seq<char>)>,
    offsets: Map<Seq<char>, usize>,
)
    requires
        placed(data, relocs, pos, b + c, f + shift_fixups(g, b.len() as int), offsets),
        spaced(f, b.len() as int),
        spaced(g, c.len() as int),
    ensures
        placed(data, relocs, pos + b.len(), c, g, offsets),
{
    let h = f + shift_fixups(g, b.len() as int);
    let bc = b + c;
    let p2 = pos + b.len();
    assert forall|x: int| 0 <= x < c.len() && !covered(g, x) implies data[p2 + x] == #[trigger] c[x] by {
        if covered(h, b.len() + x) {
            let j = choose|j: int| 0 <= j < h.len() && #[trigger] h[j].0 <= b.len() + x < h[j].0 + 4;
            if j < f.len() {
                assert(h[j] == f[j]);
            } else {
                assert(h[j].0 == g[j - f.len()].0 + b.len());
                assert(g[j - f.len()].0 <= x < g[j - f.len()].0 + 4);
                assert(covered(g, x));
            }
        }
        assert(bc[b.len() + x] == c[x]);
    }
    assert forall|j: int| 0 <= j < g.len() implies {
        &&& offsets.contains_key(#[trigger] g[j].1)
        &&& offsets[g[j].1] <= u32::MAX
        &&& data.subrange(p2 + g[j].0, p2 + g[j].0 + 4) == u32_be(offsets[g[j].1] as u32)
        &&& relocs.contains((p2 + g[j].0) as u32)
        &&& pointed_string(data, offsets[g[j].1] as u32) == Some(g[j].1)
    } by {
        let i = f.len() + j;
        assert(h[i].1 == g[j].1);
        assert(h[i].0 == g[j].0 + b.len());
        assert(offsets.contains_key(h[i].1));
    }
    assert forall|q: int| p2 <= q < p2 + c.len() && #[trigger] relocs.contains(q as u32) implies exists|
        j: int,
    | 0 <= j < g.len() && q == p2 + #[trigger] g[j].0 by {
        let j = choose|j: int| 0 <= j < h.len() && q == pos + #[trigger] h[j].0;
        if j < f.len() {
            assert(h[j] == f[j]);
        } else {
            assert(h[j].0 == g[j - f.len()].0 + b.len());
            assert(q == p2 + g[j - f.len()].0);
        }
    }
}

/// The entry has exactly the values and padding its slots call for, each fit to
/// read back as itself.
pub open spec fn well_shaped(slots: Seq<Slot>, e: EntryView) -> bool {
    &&& sized(slots, e)
    &&& e.values.len() == field_count(slots)
    &&& e.pads.len() == pad_count(slots)
}

/// The encoded entries take `size` bytes each, and their fixups are spaced.
proof fn lemma_encode_entries_shape(slots: Seq<Slot>, size: nat, es: Seq<EntryView>)
    requires
        encode_entries(slots, size, es) is Some,
        forall|j: int| 0 <= j < es.len() ==> sized(slots, #[trigger] es[j]),
    ensures
        encode_entries(slots, size, es).unwrap().0.len() == es.len() * size,
        spaced(encode_entries(slots, size, es).unwrap().1, (es.len() * size) as int),
        forall|j: int| 0 <= j < es.len() ==> encode_sized(slots, size, #[trigger] es[j]) is Some,
    decreases es.len(),
{
    if es.len() > 0 {
        let d = es.drop_last();
        assert forall|j: int| 0 <= j < d.len() implies sized(slots, #[trigger] d[j]) by {
            assert(d[j] == es[j]);
        }
        lemma_encode_entries_shape(slots, size, d);
        let (b, f) = encode_entries(slots, size, d).unwrap();
        let (c, g) = encode_sized(slots, size, es.last()).unwrap();
        lemma_encode_slots_shape(slots, es.last());
        lemma_spaced_concat(f, g, b.len() as int, c.len() as int);
        assert((es.len() - 1) * size + size == es.len() * size) by (nonlinear_arith);
        assert forall|j: int| 0 <= j < es.len() implies encode_sized(slots, size, #[trigger] es[j]) is Some by {
            if j < d.len() {
                assert(d[j] == es[j]);
            }
        }
    }
}

/// Entry `j` of encoded entries placed at `pos` is placed at `pos + j * size`.
proof fn lemma_entry_placed(
    slots: Seq<Slot>,
    size: nat,
    es: Seq<EntryView>,
    data: Seq<u8>,
    relocs: Seq<u32>,
    pos: int,
    offsets: Map<Seq<char>, usize>,
    j: int,
)
    requires
        0 <= j < es.len(),
        encode_entries(slots, size, es) is Some,
        forall|k: int| 0 <= k < es.len() ==> sized(slots, #[trigger] es[k]),
        placed(
            data,
            relocs,
            pos,
            encode_entries(slots, size, es).unwrap().0,
            encode_entries(slots, size, es).unwrap().1,
            offsets,
        ),
    ensures
        encode_sized(slots, size, es[j]) is Some,
        placed(
            data,
            relocs,
            pos + j * size,
            encode_sized(slots, size, es[j]).unwrap().0,
            encode_sized(slots, size, es[j]).unwrap().1,
            offsets,
        ),
    decreases es.len(),
{
    let d = es.drop_last();
    assert forall|k: int| 0 <= k < d.len() implies sized(slots, #[trigger] d[k]) by {
        assert(d[k] == es[k]);
    }
    lemma_encode_entries_shape(slots, size, d);
    lemma_encode_entries_shape(slots, size, es);
    let (b, f) = encode_entries(slots, size, d).unwrap();
    let (c, g) = encode_sized(slots, size, es.last()).unwrap();
    lemma_encode_slots_shape(slots, es.last());
    let (bc, h) = encode_entries(slots, size, es).unwrap();
    assert(bc == b + c);
    assert(h == f + shift_fixups(g, b.len() as int));
    if j == es.len() - 1 {
        lemma_placed_suffix(data, relocs, pos, b, f, c, g, offsets);
    } else {
        assert forall|k: int| f.len() <= k < h.len() implies #[trigger] h[k].0 >= b.len() by {
            assert(h[k].0 == g[k - f.len()].0 + b.len());
        }
        lemma_placed_prefix(data, relocs, pos, b, f, bc, h, offsets);
        lemma_entry_placed(slots, size, d, data, relocs, pos, offsets, j);
        assert(d[j] == es[j]);
    }
}

/// A terminated table whose entries and terminator are placed at `pos` reads back
/// from there, from its entry `j` on.
proof fn lemma_decode_terminated_from(
    id: SchemaId,
    es: Seq<EntryView>,
    t: EntryView,
    data: Seq<u8>,
    relocs: Seq<u32>,
    pos: int,
    offsets: Map<Seq<char>, usize>,
    j: int,
)
    requires
        0 <= j <= es.len(),
        spec_entry_size(id) > 0,
        encode_entries(spec_slots(id), spec_entry_size(id), es.push(t)) is Some,
        forall|k: int| 0 <= k < es.len() ==> well_shaped(spec_slots(id), #[trigger] es[k]),
        forall|k: int| 0 <= k < es.len() ==> !spec_is_terminator(id, #[trigger] es[k]),
        well_shaped(spec_slots(id), t),
        spec_is_terminator(id, t),
        placed(
            data,
            relocs,
            pos,
            encode_entries(spec_slots(id), spec_entry_size(id), es.push(t)).unwrap().0,
            encode_entries(spec_slots(id), spec_entry_size(id), es.push(t)).unwrap().1,
            offsets,
        ),
    ensures
        decode_terminated(id, data, relocs, pos + j * spec_entry_size(id)) == Some((es.skip(j), t)),
    decreases es.len() - j,
{
    let slots = spec_slots(id);
    let size = spec_entry_size(id);
    let all = es.push(t);
    assert forall|k: int| 0 <= k < all.len() implies sized(slots, #[trigger] all[k]) by {
        if k < es.len() {
            assert(all[k] == es[k]);
        }
    }
    lemma_entry_placed(slots, size, all, data, relocs, pos, offsets, j);
    let p = pos + j * size;
    let e = all[j];
    lemma_encode_slots_shape(slots, e);
    assert(j * size >= 0) by (nonlinear_arith)
        requires
            j >= 0,
    ;
    lemma_decode_encoded_entry(slots, e, data, relocs, p, offsets);
    assert(prefix_of(slots, e) =~= e);
    if j == es.len() {
        assert(e == t);
        assert(es.skip(j) =~= Seq::<EntryView>::empty());
    } else {
        assert(e == es[j]);
        lemma_decode_terminated_from(id, es, t, data, relocs, pos, offsets, j + 1);
        assert(p + size == pos + (j + 1) * size) by (nonlinear_arith)
            requires
                p == pos + j * size,
        ;
        assert(seq![e] + es.skip(j + 1) =~= es.skip(j));
    }
}

/// Entries placed one after the other at `root` read back as that many entries.
proof fn lemma_decode_counted_back(
    id: SchemaId,
    es: Seq<EntryView>,
    data: Seq<u8>,
    relocs: Seq<u32>,
    root: int,
    offsets: Map<Seq<char>, usize>,
    n: nat,
)
    requires
        n <= es.len(),
        encode_entries(spec_slots(id), spec_entry_size(id), es) is Some,
        forall|k: int| 0 <= k < es.len() ==> well_shaped(spec_slots(id), #[trigger] es[k]),
        placed(
            data,
            relocs,
            root,
            encode_entries(spec_slots(id), spec_entry_size(id), es).unwrap().0,
            encode_entries(spec_slots(id), spec_entry_size(id), es).unwrap().1,
            offsets,
        ),
    ensures
        decode_counted(id, data, relocs, root, n) == Some(es.take(n as int)),
    decreases n,
{
    if n == 0 {
        assert(es.take(0) =~= Seq::<EntryView>::empty());
    } else {
        let slots = spec_slots(id);
        let size = spec_entry_size(id);
        lemma_decode_counted_back(id, es, data, relocs, root, offsets, (n - 1) as nat);
        let j = n - 1;
        assert forall|k: int| 0 <= k < es.len() implies sized(slots, #[trigger] es[k]) by {}
        lemma_entry_placed(slots, size, es, data, relocs, root, offsets, j);
        lemma_decode_encoded_entry(slots, es[j], data, relocs, root + j * size, offsets);
        assert(prefix_of(slots, es[j]) =~= es[j]);
        assert(es.take(n as int) =~= es.take(j).push(es[j]));
    }
}

/// Every entry of every schema takes some bytes.
pub proof fn lemma_entry_size_positive(id: SchemaId)
    ensures
        spec_entry_size(id) > 0,
{
    let s = spec_slots(id);
    assert(slots_width(s) == slots_width(s.drop_last()) + slot_width(s.last()));
}

/// The table can be read back from its own bytes: each entry has the shape of its
/// schema; a terminated table ends with a terminator that is its only entry the
/// schema recognises as one; a single-entry table has one entry; a counted table
/// has no terminator.
pub open spec fn table_keeps(m: TableModel) -> bool {
    &&& forall|k: int| 0 <= k < m.entries.len() ==> well_shaped(spec_slots(m.schema), #[trigger] m.entries[k])
    &&& match spec_rows_rule(m.schema) {
        RowsRule::Terminated => {
            &&& m.terminator matches Some(t)
            &&& well_shaped(spec_slots(m.schema), t)
            &&& spec_is_terminator(m.schema, t)
            &&& forall|k: int| 0 <= k < m.entries.len() ==> !spec_is_terminator(m.schema, #[trigger] m.entries[k])
        },
        RowsRule::Single => m.entries.len() == 1 && m.terminator is None,
        RowsRule::CountedByHeaderByte(_) => m.terminator is None,
    }
}

/// A table whose encoding is placed at `pos` reads back as itself; a counted table
/// needs the count byte of the header table to hold its number of entries.
pub proof fn lemma_decode_table_back(
    m: TableModel,
    data: Seq<u8>,
    relocs: Seq<u32>,
    tables: Seq<(Seq<char>, usize)>,
    pos: int,
    offsets: Map<Seq<char>, usize>,
)
    requires
        table_keeps(m),
        encode_table(m) is Some,
        placed(data, relocs, pos, encode_table(m).unwrap().0, encode_table(m).unwrap().1, offsets),
        spec_rows_rule(m.schema) matches RowsRule::CountedByHeaderByte(k) ==> (first_offset(
            tables,
            "dispositionDataHeader"@,
        ) matches Some(h) && h + k < data.len() && data[h + k] == m.entries.len()),
    ensures
        decode_table(m.schema, data, relocs, tables, pos) == Some(m),
{
    let id = m.schema;
    let slots = spec_slots(id);
    let size = spec_entry_size(id);
    lemma_entry_size_positive(id);
    match spec_rows_rule(id) {
        RowsRule::Terminated => {
            let t = m.terminator.unwrap();
            lemma_decode_terminated_from(id, m.entries, t, data, relocs, pos, offsets, 0);
            assert(m.entries.skip(0) =~= m.entries);
        },
        RowsRule::Single => {
            let e = m.entries[0];
            assert(m.entries =~= seq![e]);
            lemma_entry_placed(slots, size, m.entries, data, relocs, pos, offsets, 0);
            lemma_decode_encoded_entry(slots, e, data, relocs, pos, offsets);
            assert(prefix_of(slots, e) =~= e);
        },
        RowsRule::CountedByHeaderByte(k) => {
            lemma_decode_counted_back(id, m.entries, data, relocs, pos, offsets, m.entries.len());
            assert(m.entries.take(m.entries.len() as int) =~= m.entries);
        },
    }
}

/// The bytes `b` with each fixup's four bytes set to the offset of its string:
/// uncovered bytes stay, and the relocation sites are the fixups' positions from
/// `base`.
pub proof fn lemma_patch_fixups_pointwise(
    pool: StringPoolView,
    base: int,
    b: Seq<u8>,
    f: Seq<(int, Seq<char>)>,
)
    requires
        spaced(f, b.len() as int),
        patch_fixups(pool, base, b, f) is Some,
    ensures
        ({
            let (pb, rs) = patch_fixups(pool, base, b, f).unwrap();
            &&& pb.len() == b.len()
            &&& forall|x: int| 0 <= x < b.len() && !covered(f, x) ==> #[trigger] pb[x] == b[x]
            &&& rs.len() == f.len()
            &&& forall|j: int|
                0 <= j < f.len() ==> {
                    &&& pool.offsets.contains_key(#[trigger] f[j].1)
                    &&& pool.offsets[f[j].1] <= u32::MAX
                    &&& pb.subrange(f[j].0, f[j].0 + 4) == u32_be(pool.offsets[f[j].1] as u32)
                    &&& base + f[j].0 <= u32::MAX
                    &&& rs[j] == (base + f[j].0) as u32
                }
        }),
    decreases f.len(),
{
    if f.len() > 0 {
        let d = f.drop_last();
        assert(spaced(d, b.len() as int)) by {
            assert forall|j: int| 0 <= j < d.len() implies 0 <= #[trigger] d[j].0 && d[j].0 + 4 <= b.len() by {
                assert(d[j] == f[j]);
            }
            assert forall|j: int, k: int| 0 <= j < k < d.len() implies #[trigger] d[j].0 + 4 <= #[trigger] d[k].0 by {
                assert(d[j] == f[j] && d[k] == f[k]);
            }
        }
        lemma_patch_fixups_pointwise(pool, base, b, d);
        let (pb0, rs0) = patch_fixups(pool, base, b, d).unwrap();
        let (pb, rs) = patch_fixups(pool, base, b, f).unwrap();
        let o = f.last().0;
        let t = f.last().1;
        let w = u32_be(pool.offsets[t] as u32);
        lemma_u32_be_roundtrip(pool.offsets[t] as u32);
        assert(pb == patch(pb0, o, w));
        assert(rs == rs0.push((base + o) as u32));
        let n = f.len() - 1;
        assert forall|x: int| 0 <= x < b.len() && !covered(f, x) implies #[trigger] pb[x] == b[x] by {
            if covered(d, x) {
                let j = choose|j: int| 0 <= j < d.len() && #[trigger] d[j].0 <= x < d[j].0 + 4;
                assert(d[j] == f[j]);
                assert(covered(f, x));
            }
            if o <= x < o + 4 {
                assert(f[n].0 <= x < f[n].0 + 4);
                assert(covered(f, x));
            }
            if x < o {
                assert(pb[x] == pb0[x]);
            } else {
                assert(pb[x] == pb0[x]);
            }
        }
        assert forall|j: int| 0 <= j < f.len() implies {
            &&& pool.offsets.contains_key(#[trigger] f[j].1)
            &&& pool.offsets[f[j].1] <= u32::MAX
            &&& pb.subrange(f[j].0, f[j].0 + 4) == u32_be(pool.offsets[f[j].1] as u32)
            &&& base + f[j].0 <= u32::MAX
            &&& rs[j] == (base + f[j].0) as u32
        } by {
            if j < n {
                assert(d[j] == f[j]);
                assert(f[j].0 + 4 <= f[n].0);
                assert(pb.subrange(f[j].0, f[j].0 + 4) =~= pb0.subrange(f[j].0, f[j].0 + 4));
                assert(rs[j] == rs0[j]);
            } else {
                assert(pb.subrange(o, o + 4) =~= w);
            }
        }
    }
}

/// The string `t` reads back from its encoding: it encodes, without a NUL byte,
/// to bytes that decode to it, and as ASCII text to its own codes.
pub open spec fn text_round_trips(t: Seq<char>) -> bool {
    &&& shift_jis_encoded(t) is Some
    &&& !shift_jis_encoded(t).unwrap().contains(0u8)
    &&& shift_jis_decoded(shift_jis_encoded(t).unwrap()) == Some(t)
    &&& is_ascii_text(t) ==> shift_jis_encoded(t).unwrap() == ascii_bytes(t)
}

/// Interning keeps a well-formed pool well formed, keeps the offsets and bytes it
/// had, and stores the new string.
pub proof fn lemma_spec_intern(p: StringPoolView, s: Seq<char>)
    requires
        p.wf(),
        spec_intern(p, s) is Some,
        text_round_trips(s),
        spec_intern(p, s).unwrap().data.len() <= usize::MAX,
    ensures
        spec_intern(p, s).unwrap().wf(),
        spec_intern(p, s).unwrap().offsets.contains_key(s),
        spec_intern(p, s).unwrap().data.take(p.data.len() as int) == p.data,
        p.data.len() <= spec_intern(p, s).unwrap().data.len(),
        forall|t: Seq<char>| #[trigger] p.offsets.contains_key(t) ==> spec_intern(p, s).unwrap().offsets.contains_key(t)
            && spec_intern(p, s).unwrap().offsets[t] == p.offsets[t],
{
    let q = spec_intern(p, s).unwrap();
    if !p.offsets.contains_key(s) {
        let b = shift_jis_encoded(s).unwrap();
        assert forall|t: Seq<char>| #[trigger] q.offsets.contains_key(t) implies q.stores(t) by {
            if t == s {
                assert(q.data.subrange(p.data.len() as int, (p.data.len() + b.len()) as int) =~= b);
            } else {
                assert(p.stores(t));
                let bt = shift_jis_encoded(t).unwrap();
                let off = p.offsets[t] as int;
                assert(q.data.subrange(off, off + bt.len()) =~= p.data.subrange(off, off + bt.len()));
                assert(q.data[off + bt.len()] == p.data[off + bt.len()]);
            }
        }
    }
    assert(q.data.take(p.data.len() as int) =~= p.data);
}

/// Interning strings into the empty pool gives a well-formed pool holding each.
pub proof fn lemma_intern_all(strs: Seq<Seq<char>>)
    requires
        intern_all(empty_pool(), strs) is Some,
        intern_all(empty_pool(), strs).unwrap().data.len() <= usize::MAX,
        forall|i: int| 0 <= i < strs.len() ==> text_round_trips(#[trigger] strs[i]),
    ensures
        intern_all(empty_pool(), strs).unwrap().wf(),
        forall|i: int| 0 <= i < strs.len() ==> intern_all(empty_pool(), strs).unwrap().offsets.contains_key(
            #[trigger] strs[i],
        ),
    decreases strs.len(),
{
    if strs.len() > 0 {
        let d = strs.drop_last();
        assert forall|i: int| 0 <= i < d.len() implies text_round_trips(#[trigger] d[i]) by {
            assert(d[i] == strs[i]);
        }
        let p = intern_all(empty_pool(), d).unwrap();
        assert(p.data.len() <= spec_intern(p, strs.last()).unwrap().data.len());
        lemma_intern_all(d);
        lemma_spec_intern(p, strs.last());
        assert forall|i: int| 0 <= i < strs.len() implies intern_all(empty_pool(), strs).unwrap().offsets.contains_key(
            #[trigger] strs[i],
        ) by {
            if i < d.len() {
                assert(d[i] == strs[i]);
                assert(p.offsets.contains_key(d[i]));
            }
        }
    } else {
        assert(empty_pool().wf());
    }
}

/// A stored string that round-trips reads back from its offset in any bytes that
/// begin with the pool.
pub proof fn lemma_pool_reads_back(pool: StringPoolView, t: Seq<char>, data: Seq<u8>)
    requires
        pool.wf(),
        pool.offsets.contains_key(t),
        text_round_trips(t),
        pool.offsets[t] <= u32::MAX,
        pool.data.len() <= data.len(),
        data.take(pool.data.len() as int) == pool.data,
    ensures
        pointed_string(data, pool.offsets[t] as u32) == Some(t),
{
    assert(pool.stores(t));
    let b = shift_jis_encoded(t).unwrap();
    let off = pool.offsets[t] as int;
    let tail = data.subrange(off, data.len() as int);
    assert forall|k: int| 0 <= k < b.len() implies tail[k] != 0 by {
        assert(tail[k] == data[off + k]);
        assert(data[off + k] == pool.data[off + k]);
        assert(pool.data[off + k] == pool.data.subrange(off, off + b.len())[k]);
        assert(b[k] != 0u8) by {
            if b[k] == 0u8 {
                assert(b.contains(0u8));
            }
        }
    }
    assert(tail[b.len() as int] == pool.data[off + b.len()]);
    lemma_c_string_prefix(tail, b.len() as int);
    assert(tail.subrange(0, b.len() as int) =~= pool.data.subrange(off, off + b.len()));
}

/// The data blob of laid-out tables: the pool, then each table patched.
pub proof fn lemma_place_layout(pool: StringPoolView, encs: Seq<(Seq<u8>, Seq<(int, Seq<char>)>)>)
    requires
        place_tables(pool, encs) is Some,
        place_tables(pool, encs).unwrap().0.len() <= usize::MAX,
        forall|i: int| 0 <= i < encs.len() ==> spaced(#[trigger] encs[i].1, encs[i].0.len() as int),
    ensures
        ({
            let (d, rl, offs) = place_tables(pool, encs).unwrap();
            &&& offs.len() == encs.len()
            &&& pool.data.len() <= d.len()
            &&& d.take(pool.data.len() as int) == pool.data
            &&& forall|i: int|
                0 <= i < encs.len() ==> {
                    &&& pool.data.len() <= #[trigger] offs[i]
                    &&& offs[i] + encs[i].0.len() <= d.len()
                    &&& patch_fixups(pool, offs[i] as int, encs[i].0, encs[i].1) is Some
                    &&& d.subrange(offs[i] as int, offs[i] + encs[i].0.len()) == patch_fixups(
                        pool,
                        offs[i] as int,
                        encs[i].0,
                        encs[i].1,
                    ).unwrap().0
                }
            &&& forall|i: int, k: int| 0 <= i < k < encs.len() ==> #[trigger] offs[i] + encs[i].0.len() <= #[trigger] offs[k]
        }),
    decreases encs.len(),
{
    if encs.len() == 0 {
        assert(pool.data.take(pool.data.len() as int) =~= pool.data);
    } else {
        let e = encs.drop_last();
        let (d0, rl0, offs0) = place_tables(pool, e).unwrap();
        let (d, rl, offs) = place_tables(pool, encs).unwrap();
        let n = e.len() as int;
        let (b, f) = encs.last();
        assert(spaced(f, b.len() as int));
        lemma_patch_fixups_pointwise(pool, d0.len() as int, b, f);
        let (pb, rs) = patch_fixups(pool, d0.len() as int, b, f).unwrap();
        assert(d == d0 + pb);
        assert(offs == offs0.push(d0.len() as usize));
        assert forall|i: int| 0 <= i < e.len() implies spaced(#[trigger] e[i].1, e[i].0.len() as int) by {
            assert(e[i] == encs[i]);
        }
        lemma_place_layout(pool, e);
        assert(d.take(pool.data.len() as int) =~= d0.take(pool.data.len() as int));
        assert forall|i: int| 0 <= i < encs.len() implies {
            &&& pool.data.len() <= #[trigger] offs[i]
            &&& offs[i] + encs[i].0.len() <= d.len()
            &&& patch_fixups(pool, offs[i] as int, encs[i].0, encs[i].1) is Some
            &&& d.subrange(offs[i] as int, offs[i] + encs[i].0.len()) == patch_fixups(
                pool,
                offs[i] as int,
                encs[i].0,
                encs[i].1,
            ).unwrap().0
        } by {
            if i < n {
                assert(e[i] == encs[i]);
                assert(offs[i] == offs0[i]);
                assert(d.subrange(offs[i] as int, offs[i] + encs[i].0.len()) =~= d0.subrange(
                    offs[i] as int,
                    offs[i] + encs[i].0.len(),
                ));
            } else {
                assert(offs[i] == d0.len());
                assert(d.subrange(d0.len() as int, (d0.len() + b.len()) as int) =~= pb);
            }
        }
        assert forall|i: int, k: int| 0 <= i < k < encs.len() implies #[trigger] offs[i] + encs[i].0.len() <= #[trigger] offs[k] by {
            assert(e[i] == encs[i]);
            if k < n {
                assert(e[k] == encs[k]);
            }
        }
    }
}

/// The relocation sites of laid-out tables are the positions of their fixups.
#[verifier::rlimit(30)]
pub proof fn lemma_place_relocs(pool: StringPoolView, encs: Seq<(Seq<u8>, Seq<(int, Seq<char>)>)>)
    requires
        place_tables(pool, encs) is Some,
        place_tables(pool, encs).unwrap().0.len() <= usize::MAX,
        forall|i: int| 0 <= i < encs.len() ==> spaced(#[trigger] encs[i].1, encs[i].0.len() as int),
    ensures
        ({
            let (d, rl, offs) = place_tables(pool, encs).unwrap();
            &&& offs.len() == encs.len()
            &&& forall|x: u32| #[trigger] rl.contains(x) ==> exists|i: int, j: int|
                0 <= i < encs.len() && 0 <= j < encs[i].1.len() && x == (offs[i] + #[trigger] encs[i].1[j].0) as u32
            &&& forall|i: int, j: int|
                0 <= i < encs.len() && 0 <= j < encs[i].1.len() ==> rl.contains((offs[i] + #[trigger] encs[i].1[j].0) as u32)
        }),
    decreases encs.len(),
{
    if encs.len() > 0 {
        let e = encs.drop_last();
        let (d0, rl0, offs0) = place_tables(pool, e).unwrap();
        let (d, rl, offs) = place_tables(pool, encs).unwrap();
        let n = e.len() as int;
        let (b, f) = encs.last();
        assert(spaced(f, b.len() as int));
        lemma_patch_fixups_pointwise(pool, d0.len() as int, b, f);
        let (pb, rs) = patch_fixups(pool, d0.len() as int, b, f).unwrap();
        assert(d == d0 + pb);
        assert(rl == rl0 + rs);
        assert(offs == offs0.push(d0.len() as usize));
        assert forall|i: int| 0 <= i < e.len() implies spaced(#[trigger] e[i].1, e[i].0.len() as int) by {
            assert(e[i] == encs[i]);
        }
        lemma_place_relocs(pool, e);
        assert forall|x: u32| #[trigger] rl.contains(x) implies exists|i: int, j: int|
            0 <= i < encs.len() && 0 <= j < encs[i].1.len() && x == (offs[i] + #[trigger] encs[i].1[j].0) as u32 by {
            let m = choose|m: int| 0 <= m < rl.len() && rl[m] == x;
            if m < rl0.len() {
                assert(rl0[m] == x);
                assert(rl0.contains(x));
                let (i, j) = choose|i: int, j: int|
                    0 <= i < e.len() && 0 <= j < e[i].1.len() && x == (offs0[i] + #[trigger] e[i].1[j].0) as u32;
                assert(e[i] == encs[i]);
                assert(offs[i] == offs0[i]);
                assert(x == (offs[i] + encs[i].1[j].0) as u32);
            } else {
                let j = m - rl0.len();
                assert(rs[j] == x);
                assert(pool.offsets.contains_key(f[j].1));
                assert(offs[n] == d0.len());
                assert(encs[n].1[j] == f[j]);
                assert(x == (offs[n] + encs[n].1[j].0) as u32);
            }
        }
        assert forall|i: int, j: int|
            0 <= i < encs.len() && 0 <= j < encs[i].1.len() implies rl.contains((offs[i] + #[trigger] encs[i].1[j].0) as u32) by {
            if i < n {
                assert(e[i] == encs[i]);
                assert(offs[i] == offs0[i]);
                assert(rl0.contains((offs0[i] + e[i].1[j].0) as u32));
                let m = choose|m: int| 0 <= m < rl0.len() && rl0[m] == (offs0[i] + e[i].1[j].0) as u32;
                assert(rl[m] == rl0[m]);
            } else {
                assert(offs[n] == d0.len());
                assert(encs[n].1[j] == f[j]);
                assert(pool.offsets.contains_key(f[j].1));
                assert(rl[rl0.len() + j] == rs[j]);
            }
        }
    }
}

/// Each laid-out table is placed at its offset in the data blob.
#[verifier::rlimit(80)]
#[verifier::spinoff_prover]
pub proof fn lemma_table_placed(pool: StringPoolView, encs: Seq<(Seq<u8>, Seq<(int, Seq<char>)>)>, i: int)
    requires
        0 <= i < encs.len(),
        place_tables(pool, encs) is Some,
        place_tables(pool, encs).unwrap().0.len() <= u32::MAX,
        forall|k: int| 0 <= k < encs.len() ==> spaced(#[trigger] encs[k].1, encs[k].0.len() as int),
        pool.wf(),
        forall|k: int, j: int|
            0 <= k < encs.len() && 0 <= j < encs[k].1.len() ==> text_round_trips(#[trigger] encs[k].1[j].1),
    ensures
        placed(
            place_tables(pool, encs).unwrap().0,
            place_tables(pool, encs).unwrap().1,
            place_tables(pool, encs).unwrap().2[i] as int,
            encs[i].0,
            encs[i].1,
            pool.offsets,
        ),
{
    let (d, rl, offs) = place_tables(pool, encs).unwrap();
    lemma_place_layout(pool, encs);
    lemma_place_relocs(pool, encs);
    let (b, f) = encs[i];
    let base = offs[i] as int;
    assert(spaced(f, b.len() as int));
    lemma_patch_fixups_pointwise(pool, base, b, f);
    let (pb, rs) = patch_fixups(pool, base, b, f).unwrap();
    assert(d.subrange(base, base + b.len()) == pb);
    assert forall|x: int| 0 <= x < b.len() && !covered(f, x) implies d[base + x] == #[trigger] b[x] by {
        assert(d[base + x] == d.subrange(base, base + b.len())[x]);
        assert(pb[x] == b[x]);
    }
    assert forall|j: int| 0 <= j < f.len() implies {
        &&& pool.offsets.contains_key(#[trigger] f[j].1)
        &&& pool.offsets[f[j].1] <= u32::MAX
        &&& d.subrange(base + f[j].0, base + f[j].0 + 4) == u32_be(pool.offsets[f[j].1] as u32)
        &&& rl.contains((base + f[j].0) as u32)
        &&& pointed_string(d, pool.offsets[f[j].1] as u32) == Some(f[j].1)
    } by {
        assert(pool.offsets.contains_key(f[j].1));
        assert(d.subrange(base + f[j].0, base + f[j].0 + 4) =~= pb.subrange(f[j].0, f[j].0 + 4));
        assert(encs[i].1[j] == f[j]);
        assert(rl.contains((offs[i] + encs[i].1[j].0) as u32));
        assert(text_round_trips(encs[i].1[j].1));
        lemma_pool_reads_back(pool, f[j].1, d);
    }
    assert forall|q: int| base <= q < base + b.len() && #[trigger] rl.contains(q as u32) implies exists|j: int|
        0 <= j < f.len() && q == base + #[trigger] f[j].0 by {
        let (k, j) = choose|k: int, j: int|
            0 <= k < encs.len() && 0 <= j < encs[k].1.len() && q as u32 == (offs[k] + #[trigger] encs[k].1[j].0) as u32;
        assert(spaced(encs[k].1, encs[k].0.len() as int));
        assert(0 <= encs[k].1[j].0 && encs[k].1[j].0 + 4 <= encs[k].0.len());
        assert(offs[k] + encs[k].0.len() <= d.len());
        assert(q == offs[k] + encs[k].1[j].0);
        if k < i {
            assert(offs[k] + encs[k].0.len() <= offs[i]);
        } else if k > i {
            assert(offs[i] + encs[i].0.len() <= offs[k]);
        } else {
            assert(f[j] == encs[i].1[j]);
        }
    }
}

/// Every string value of the entry round-trips.
pub open spec fn entry_strings_round_trip(e: EntryView) -> bool {
    forall|k: int|
        0 <= k < e.values.len() ==> (#[trigger] e.values[k] matches ValueView::String(Some(t)) ==> text_round_trips(t))
}

/// Every string value of the table round-trips.
pub open spec fn table_strings_round_trip(m: TableModel) -> bool {
    &&& forall|k: int| 0 <= k < m.entries.len() ==> entry_strings_round_trip(#[trigger] m.entries[k])
    &&& m.terminator matches Some(t) ==> entry_strings_round_trip(t)
}

proof fn lemma_encode_slots_strings(slots: Seq<Slot>, e: EntryView)
    requires
        encode_slots(slots, e) is Some,
        entry_strings_round_trip(e),
    ensures
        forall|j: int|
            0 <= j < encode_slots(slots, e).unwrap().1.len() ==> text_round_trips(
                #[trigger] encode_slots(slots, e).unwrap().1[j].1,
            ),
    decreases slots.len(),
{
    if slots.len() > 0 {
        let s = slots.drop_last();
        lemma_encode_slots_strings(s, e);
        let f = encode_slots(s, e).unwrap().1;
        let f2 = encode_slots(slots, e).unwrap().1;
        match slots.last() {
            Slot::Field { codec, .. } => {
                let k = field_count(s) as int;
                lemma_encode_field_width(codec, e.values[k]);
                assert forall|j: int| 0 <= j < f2.len() implies text_round_trips(#[trigger] f2[j].1) by {
                    if j < f.len() {
                        assert(f2[j] == f[j]);
                    } else {
                        assert(e.values[k] matches ValueView::String(Some(t)) && f2[j].1 == t);
                    }
                }
            },
            Slot::Pad(_) => {},
        }
    }
}

proof fn lemma_encode_entries_strings(slots: Seq<Slot>, size: nat, es: Seq<EntryView>)
    requires
        encode_entries(slots, size, es) is Some,
        forall|k: int| 0 <= k < es.len() ==> entry_strings_round_trip(#[trigger] es[k]),
    ensures
        forall|j: int|
            0 <= j < encode_entries(slots, size, es).unwrap().1.len() ==> text_round_trips(
                #[trigger] encode_entries(slots, size, es).unwrap().1[j].1,
            ),
    decreases es.len(),
{
    if es.len() > 0 {
        let d = es.drop_last();
        assert forall|k: int| 0 <= k < d.len() implies entry_strings_round_trip(#[trigger] d[k]) by {
            assert(d[k] == es[k]);
        }
        lemma_encode_entries_strings(slots, size, d);
        lemma_encode_slots_strings(slots, es.last());
        let f = encode_entries(slots, size, d).unwrap().1;
        let g = encode_sized(slots, size, es.last()).unwrap().1;
        let h = encode_entries(slots, size, es).unwrap().1;
        let bl = encode_entries(slots, size, d).unwrap().0.len() as int;
        assert(h == f + shift_fixups(g, bl));
        assert forall|j: int| 0 <= j < h.len() implies text_round_trips(#[trigger] h[j].1) by {
            if j < f.len() {
                assert(h[j] == f[j]);
            } else {
                assert(h[j].1 == g[j - f.len()].1);
            }
        }
    }
}

/// The entries of a table, with its terminator last.
pub open spec fn all_entries(m: TableModel) -> Seq<EntryView> {
    match m.terminator {
        Some(t) => m.entries.push(t),
        None => m.entries,
    }
}

/// The encoding of a table that reads back has spaced fixups whose strings round-trip.
proof fn lemma_encode_table_fixups(m: TableModel)
    requires
        table_keeps(m),
        table_strings_round_trip(m),
        encode_table(m) is Some,
    ensures
        spaced(encode_table(m).unwrap().1, encode_table(m).unwrap().0.len() as int),
        forall|j: int|
            0 <= j < encode_table(m).unwrap().1.len() ==> text_round_trips(#[trigger] encode_table(m).unwrap().1[j].1),
{
    let slots = spec_slots(m.schema);
    let size = spec_entry_size(m.schema);
    let all = all_entries(m);
    assert(encode_table(m) == encode_entries(slots, size, all));
    assert forall|k: int| 0 <= k < all.len() implies sized(slots, #[trigger] all[k]) && entry_strings_round_trip(all[k]) by {
        if k < m.entries.len() {
            assert(all[k] == m.entries[k]);
            assert(well_shaped(slots, m.entries[k]));
        }
    }
    lemma_encode_entries_shape(slots, size, all);
    lemma_encode_entries_strings(slots, size, all);
}

proof fn lemma_encode_all_index(ts: Seq<TableModel>)
    requires
        encode_all(ts) is Some,
    ensures
        encode_all(ts).unwrap().len() == ts.len(),
        forall|i: int| 0 <= i < ts.len() ==> encode_table(#[trigger] ts[i]) == Some(encode_all(ts).unwrap()[i]),
    decreases ts.len(),
{
    if ts.len() > 0 {
        let d = ts.drop_last();
        lemma_encode_all_index(d);
        assert forall|i: int| 0 <= i < ts.len() implies encode_table(#[trigger] ts[i]) == Some(encode_all(ts).unwrap()[i]) by {
            if i < d.len() {
                assert(d[i] == ts[i]);
            }
        }
    }
}

proof fn lemma_fixup_strings_member(encs: Seq<(Seq<u8>, Seq<(int, Seq<char>)>)>, n: int)
    requires
        0 <= n < fixup_strings(encs).len(),
    ensures
        exists|i: int, j: int|
            0 <= i < encs.len() && 0 <= j < encs[i].1.len() && fixup_strings(encs)[n] == #[trigger] encs[i].1[j].1,
    decreases encs.len(),
{
    let d = encs.drop_last();
    let pre = fixup_strings(d);
    if n < pre.len() {
        assert(fixup_strings(encs)[n] == pre[n]);
        lemma_fixup_strings_member(d, n);
        let (i, j) = choose|i: int, j: int| 0 <= i < d.len() && 0 <= j < d[i].1.len() && pre[n] == #[trigger] d[i].1[j].1;
        assert(d[i] == encs[i]);
    } else {
        let i = encs.len() - 1;
        let j = n - pre.len();
        assert(fixup_strings(encs)[n] == encs.last().1[j].1);
        assert(encs[i].1[j].1 == encs.last().1[j].1);
    }
}

/// The string pool that writing the tables builds.
pub open spec fn tables_pool(ts: Seq<TableModel>) -> StringPoolView {
    intern_all(empty_pool(), fixup_strings(encode_all(ts).unwrap())).unwrap()
}

/// Each written table stands at its offset of the written data blob.
pub proof fn lemma_written_table_placed(ts: Seq<TableModel>, i: int)
    requires
        0 <= i < ts.len(),
        serialize_tables(ts) is Some,
        serialize_tables(ts).unwrap().0.len() <= u32::MAX,
        forall|k: int| 0 <= k < ts.len() ==> table_keeps(#[trigger] ts[k]),
        forall|k: int| 0 <= k < ts.len() ==> table_strings_round_trip(#[trigger] ts[k]),
    ensures
        encode_table(ts[i]) is Some,
        serialize_tables(ts).unwrap().1.len() == ts.len(),
        tables_pool(ts).data.len() <= serialize_tables(ts).unwrap().0.len(),
        serialize_tables(ts).unwrap().0.take(tables_pool(ts).data.len() as int) == tables_pool(ts).data,
        placed(
            serialize_tables(ts).unwrap().0,
            serialize_tables(ts).unwrap().2,
            serialize_tables(ts).unwrap().1[i] as int,
            encode_table(ts[i]).unwrap().0,
            encode_table(ts[i]).unwrap().1,
            tables_pool(ts).offsets,
        ),
{
    let encs = encode_all(ts).unwrap();
    lemma_encode_all_index(ts);
    let strs = fixup_strings(encs);
    let pool = tables_pool(ts);
    assert forall|k: int| 0 <= k < encs.len() implies spaced(#[trigger] encs[k].1, encs[k].0.len() as int) by {
        assert(encode_table(ts[k]) == Some(encs[k]));
        lemma_encode_table_fixups(ts[k]);
    }
    assert forall|k: int, j: int| 0 <= k < encs.len() && 0 <= j < encs[k].1.len() implies text_round_trips(
        #[trigger] encs[k].1[j].1,
    ) by {
        assert(encode_table(ts[k]) == Some(encs[k]));
        lemma_encode_table_fixups(ts[k]);
    }
    assert forall|n: int| 0 <= n < strs.len() implies text_round_trips(#[trigger] strs[n]) by {
        lemma_fixup_strings_member(encs, n);
    }
    lemma_place_layout(pool, encs);
    lemma_intern_all(strs);
    lemma_table_placed(pool, encs, i);
}

/// The records of slots whose labels round-trip: each holds the offset of its
/// table and the offset of its label in the grown label pool, which stays well
/// formed and keeps what it had.
proof fn lemma_records_of(slots: Seq<(int, Seq<char>)>, offs: Seq<usize>, p0: StringPoolView)
    requires
        records_of(slots, offs, p0) is Some,
        p0.wf(),
        records_of(slots, offs, p0).unwrap().1.data.len() <= usize::MAX,
        forall|i: int| 0 <= i < slots.len() ==> text_round_trips(#[trigger] slots[i].1),
    ensures
        ({
            let (rs, q) = records_of(slots, offs, p0).unwrap();
            &&& q.wf()
            &&& rs.len() == slots.len()
            &&& p0.data.len() <= q.data.len()
            &&& q.data.take(p0.data.len() as int) == p0.data
            &&& forall|t: Seq<char>| #[trigger] p0.offsets.contains_key(t) ==> q.offsets.contains_key(t)
                && q.offsets[t] == p0.offsets[t]
            &&& forall|i: int|
                0 <= i < slots.len() ==> {
                    &&& 0 <= #[trigger] slots[i].0 < offs.len()
                    &&& offs[slots[i].0] <= u32::MAX
                    &&& rs[i].address == offs[slots[i].0] as u32
                    &&& q.offsets.contains_key(slots[i].1)
                    &&& q.offsets[slots[i].1] <= u32::MAX
                    &&& rs[i].label_offset == q.offsets[slots[i].1] as u32
                }
        }),
    decreases slots.len(),
{
    if slots.len() == 0 {
        assert(p0.data.take(p0.data.len() as int) =~= p0.data);
    } else {
        let d = slots.drop_last();
        let (rs0, q0) = records_of(d, offs, p0).unwrap();
        let (rs, q) = records_of(slots, offs, p0).unwrap();
        let label = slots.last().1;
        assert(q == spec_intern(q0, label).unwrap());
        assert(q0.data.len() <= q.data.len());
        assert forall|i: int| 0 <= i < d.len() implies text_round_trips(#[trigger] d[i].1) by {
            assert(d[i] == slots[i]);
        }
        lemma_records_of(d, offs, p0);
        lemma_spec_intern(q0, label);
        assert(q.data.take(p0.data.len() as int) =~= q0.data.take(p0.data.len() as int));
        assert forall|i: int| 0 <= i < slots.len() implies {
            &&& 0 <= #[trigger] slots[i].0 < offs.len()
            &&& offs[slots[i].0] <= u32::MAX
            &&& rs[i].address == offs[slots[i].0] as u32
            &&& q.offsets.contains_key(slots[i].1)
            &&& q.offsets[slots[i].1] <= u32::MAX
            &&& rs[i].label_offset == q.offsets[slots[i].1] as u32
        } by {
            if i < d.len() {
                assert(d[i] == slots[i]);
                assert(rs[i] == rs0[i]);
                assert(0 <= d[i].0 < offs.len());
                assert(q0.offsets.contains_key(d[i].1));
            }
        }
    }
}

/// The label and start that records hold, read back with a label pool that
/// stores each label.
proof fn lemma_pending_of_records(
    records: Seq<TableRecord>,
    labels: Seq<u8>,
    want: Seq<(Seq<char>, usize)>,
)
    requires
        records.len() == want.len(),
        forall|i: int|
            0 <= i < records.len() ==> pointed_string(labels, #[trigger] records[i].label_offset) == Some(want[i].0)
                && records[i].address as usize == want[i].1,
    ensures
        pending_of(records, labels) == Some(want),
    decreases records.len(),
{
    if records.len() == 0 {
        assert(want =~= Seq::<(Seq<char>, usize)>::empty());
    } else {
        let n = records.len() - 1;
        assert forall|i: int| 0 <= i < n implies pointed_string(labels, #[trigger] records.drop_last()[i].label_offset)
            == Some(want.drop_last()[i].0) && records.drop_last()[i].address as usize == want.drop_last()[i].1 by {
            assert(records.drop_last()[i] == records[i]);
        }
        lemma_pending_of_records(records.drop_last(), labels, want.drop_last());
        assert(records[n] == records.last());
        assert(want.drop_last().push(want.last()) =~= want);
    }
}

/// Interning labels only ever grows the label pool.
proof fn lemma_records_of_grows(slots: Seq<(int, Seq<char>)>, offs: Seq<usize>, p0: StringPoolView)
    requires
        records_of(slots, offs, p0) is Some,
    ensures
        p0.data.len() <= records_of(slots, offs, p0).unwrap().1.data.len(),
    decreases slots.len(),
{
    if slots.len() > 0 {
        lemma_records_of_grows(slots.drop_last(), offs, p0);
    }
}

/// Two lists with the same labels find their first entry for a label at the same index.
proof fn lemma_first_offset_same_labels(
    a: Seq<(Seq<char>, usize)>,
    b: Seq<(Seq<char>, usize)>,
    name: Seq<char>,
)
    requires
        a.len() == b.len(),
        forall|i: int| 0 <= i < a.len() ==> (#[trigger] a[i]).0 == b[i].0,
    ensures
        (first_offset(a, name) is None) == (first_offset(b, name) is None),
        first_offset(a, name) is Some ==> exists|i: int|
            0 <= i < a.len() && a[i].0 == name && first_offset(a, name) == Some(#[trigger] a[i].1)
                && first_offset(b, name) == Some(b[i].1),
    decreases a.len(),
{
    if a.len() > 0 {
        if a[0].0 != name {
            assert forall|i: int| 0 <= i < a.drop_first().len() implies (#[trigger] a.drop_first()[i]).0
                == b.drop_first()[i].0 by {
                assert(a.drop_first()[i] == a[i + 1]);
                assert(b.drop_first()[i] == b[i + 1]);
            }
            lemma_first_offset_same_labels(a.drop_first(), b.drop_first(), name);
            if first_offset(a, name) is Some {
                let i = choose|i: int|
                    0 <= i < a.drop_first().len() && a.drop_first()[i].0 == name && first_offset(
                        a.drop_first(),
                        name,
                    ) == Some(#[trigger] a.drop_first()[i].1) && first_offset(b.drop_first(), name) == Some(
                        b.drop_first()[i].1,
                    );
                assert(a.drop_first()[i] == a[i + 1]);
                assert(b.drop_first()[i] == b[i + 1]);
            }
        } else {
            assert(a[0].0 == b[0].0);
        }
    }
}

/// No slot of the disposition header is a pointer, so its encoding has no fixups.
proof fn lemma_header_no_fixups(e: EntryView, slots: Seq<Slot>)
    requires
        encode_slots(slots, e) is Some,
        forall|i: int| 0 <= i < slots.len() ==> !(#[trigger] slots[i] matches Slot::Field { codec, .. } && codec
            == Codec::StringPointer),
    ensures
        encode_slots(slots, e).unwrap().1.len() == 0,
    decreases slots.len(),
{
    if slots.len() > 0 {
        let s = slots.drop_last();
        assert forall|i: int| 0 <= i < s.len() implies !(#[trigger] s[i] matches Slot::Field { codec, .. } && codec
            == Codec::StringPointer) by {
            assert(s[i] == slots[i]);
        }
        lemma_header_no_fixups(e, s);
        assert(slots[slots.len() - 1] == slots.last());
        match slots.last() {
            Slot::Field { codec, .. } => {
                lemma_encode_field_width(codec, e.values[field_count(s) as int]);
            },
            Slot::Pad(_) => {},
        }
    }
}

proof fn lemma_header_entries_no_fixups(es: Seq<EntryView>)
    requires
        encode_entries(spec_slots(SchemaId::DispositionDataHeader), spec_entry_size(SchemaId::DispositionDataHeader), es) is Some,
    ensures
        encode_entries(spec_slots(SchemaId::DispositionDataHeader), spec_entry_size(SchemaId::DispositionDataHeader), es).unwrap().1.len() == 0,
    decreases es.len(),
{
    let slots = spec_slots(SchemaId::DispositionDataHeader);
    if es.len() > 0 {
        lemma_header_entries_no_fixups(es.drop_last());
        assert forall|i: int| 0 <= i < slots.len() implies !(#[trigger] slots[i] matches Slot::Field { codec, .. } && codec
            == Codec::StringPointer) by {}
        lemma_header_no_fixups(es.last(), slots);
    }
}

/// Reading the tables in an order that lists valid indices reads each as expected.
proof fn lemma_read_tables_all(
    all: Seq<(Seq<char>, usize)>,
    order: Seq<int>,
    data: Seq<u8>,
    relocs: Seq<u32>,
    want: Seq<TableModel>,
)
    requires
        want.len() == all.len(),
        forall|k: int| 0 <= k < order.len() ==> 0 <= #[trigger] order[k] < all.len(),
        forall|s: int| 0 <= s < all.len() ==> read_table(all, s, data, relocs) == Some(#[trigger] want[s]),
    ensures
        read_tables(all, order, data, relocs) == Some(Seq::new(order.len(), |k: int| want[order[k]])),
    decreases order.len(),
{
    if order.len() == 0 {
        assert(Seq::new(0, |k: int| want[order[k]]) =~= Seq::<TableModel>::empty());
    } else {
        let d = order.drop_last();
        assert forall|k: int| 0 <= k < d.len() implies 0 <= #[trigger] d[k] < all.len() by {
            assert(d[k] == order[k]);
        }
        lemma_read_tables_all(all, d, data, relocs, want);
        assert(order[order.len() - 1] == order.last());
        assert(Seq::new(d.len(), |k: int| want[d[k]]).push(want[order.last()]) =~= Seq::new(
            order.len(),
            |k: int| want[order[k]],
        ));
    }
}

/// The slots of both tables of contents, those of the table of contents first.
pub open spec fn all_slots(f: RLBFileView) -> Seq<(int, Seq<char>)> {
    f.toc + f.other_toc
}

/// The position of the first slot labelled `name`, if any.
pub open spec fn first_labelled(slots: Seq<(int, Seq<char>)>, name: Seq<char>) -> Option<int>
    decreases slots.len(),
{
    if slots.len() == 0 {
        None
    } else if slots[0].1 == name {
        Some(0)
    } else {
        match first_labelled(slots.drop_first(), name) {
            Some(i) => Some(i + 1),
            None => None,
        }
    }
}

/// The first slot labelled as the disposition header lists a disposition header
/// table whose bytes hold `n` at position `c`.
pub open spec fn header_counts(f: RLBFileView, c: usize, n: nat) -> bool {
    match first_labelled(all_slots(f), "dispositionDataHeader"@) {
        None => false,
        Some(i) => {
            let h = all_slots(f)[i].0;
            &&& f.tables[h].schema == SchemaId::DispositionDataHeader
            &&& encode_table(f.tables[h]) is Some
            &&& c < encode_table(f.tables[h]).unwrap().0.len()
            &&& encode_table(f.tables[h]).unwrap().0[c as int] == n
        },
    }
}

/// The slot's label names the schema of its table and round-trips, and when the
/// table is counted by the header, the header holds its number of entries.
pub open spec fn slot_keeps(f: RLBFileView, s: (int, Seq<char>)) -> bool {
    &&& spec_schema_for_name(s.1) == Some(f.tables[s.0].schema)
    &&& text_round_trips(s.1)
    &&& (spec_rows_rule(f.tables[s.0].schema) matches RowsRule::CountedByHeaderByte(c) ==> header_counts(
        f,
        c,
        f.tables[s.0].entries.len(),
    ))
}

/// The file reads back from what writing it gives: its slots name its tables,
/// each table reads back from its own bytes with its string values, and each slot
/// keeps its table.
pub open spec fn file_keeps(f: RLBFileView) -> bool {
    &&& f.wf()
    &&& forall|k: int| 0 <= k < f.tables.len() ==> table_keeps(#[trigger] f.tables[k])
    &&& forall|k: int| 0 <= k < f.tables.len() ==> table_strings_round_trip(#[trigger] f.tables[k])
    &&& forall|i: int| 0 <= i < all_slots(f).len() ==> slot_keeps(f, #[trigger] all_slots(f)[i])
}

/// Slot by slot, `g` lists the same tables under the same labels as `f`.
pub open spec fn same_contents(f: RLBFileView, g: RLBFileView) -> bool {
    &&& g.toc.len() == f.toc.len()
    &&& g.other_toc.len() == f.other_toc.len()
    &&& g.wf()
    &&& forall|i: int|
        0 <= i < f.toc.len() ==> (#[trigger] g.toc[i]).1 == f.toc[i].1 && g.tables[g.toc[i].0]
            == f.tables[f.toc[i].0]
    &&& forall|i: int|
        0 <= i < f.other_toc.len() ==> (#[trigger] g.other_toc[i]).1 == f.other_toc[i].1
            && g.tables[g.other_toc[i].0] == f.tables[f.other_toc[i].0]
}

proof fn lemma_first_labelled(slots: Seq<(int, Seq<char>)>, all: Seq<(Seq<char>, usize)>, name: Seq<char>)
    requires
        slots.len() == all.len(),
        forall|i: int| 0 <= i < slots.len() ==> (#[trigger] all[i]).0 == slots[i].1,
    ensures
        first_offset(all, name) == match first_labelled(slots, name) {
            Some(i) => Some(all[i].1),
            None => None,
        },
        first_labelled(slots, name) matches Some(i) ==> 0 <= i < slots.len() && slots[i].1 == name,
    decreases slots.len(),
{
    if slots.len() > 0 {
        assert(all[0].0 == slots[0].1);
        if slots[0].1 != name {
            assert forall|i: int| 0 <= i < slots.drop_first().len() implies (#[trigger] all.drop_first()[i]).0
                == slots.drop_first()[i].1 by {
                assert(all.drop_first()[i] == all[i + 1]);
            }
            lemma_first_labelled(slots.drop_first(), all.drop_first(), name);
            match first_labelled(slots.drop_first(), name) {
                Some(i) => {
                    assert(all.drop_first()[i] == all[i + 1]);
                },
                None => {},
            }
        }
    }
}

/// What writing a file gives reads back with the same tables under the same
/// labels: for every slot of either table of contents, the table it lists after
/// writing and reading equals the table it listed before, and its label is the
/// same.
pub proof fn lemma_write_then_read(f: RLBFileView)
    requires
        file_keeps(f),
        raw_parts(f) is Some,
        parts_lengths_fit(raw_parts(f).unwrap()),
        parts_file_size(raw_parts(f).unwrap()) <= u32::MAX,
    ensures
        file_of_raw(container_of(raw_parts(f).unwrap())) is Some,
        same_contents(f, file_of_raw(container_of(raw_parts(f).unwrap())).unwrap()),
        file_of_raw(container_of(raw_parts(f).unwrap())).unwrap().tables == Seq::new(
            all_slots(f).len(),
            |k: int| f.tables[all_slots(f)[read_order(written_slots(f))[k]].0],
        ),
        forall|i: int|
            0 <= i < f.toc.len() ==> #[trigger] file_of_raw(container_of(raw_parts(f).unwrap())).unwrap().toc[i].0
                == slot_index(read_order(written_slots(f)), i),
        forall|i: int|
            0 <= i < f.other_toc.len() ==> #[trigger] file_of_raw(container_of(raw_parts(f).unwrap())).unwrap().other_toc[i].0
                == slot_index(read_order(written_slots(f)), f.toc.len() + i),
{
    let p = raw_parts(f).unwrap();
    let v = container_of(p);
    let ts = f.tables;
    let (d, offs, rl) = serialize_tables(ts).unwrap();
    let (rs, q1) = records_of(f.toc, offs, empty_pool()).unwrap();
    let (os, q2) = records_of(f.other_toc, offs, q1).unwrap();
    let sl = all_slots(f);
    let nt = f.toc.len();
    let no = f.other_toc.len();
    assert(p == (d, rl, rs, os, q2.data));
    assert(sl.len() == nt + no);
    assert forall|i: int| 0 <= i < nt implies text_round_trips(#[trigger] f.toc[i].1) && slot_keeps(f, f.toc[i]) by {
        assert(sl[i] == f.toc[i]);
    }
    assert forall|i: int| 0 <= i < no implies text_round_trips(#[trigger] f.other_toc[i].1) && slot_keeps(
        f,
        f.other_toc[i],
    ) by {
        assert(sl[nt + i] == f.other_toc[i]);
    }
    lemma_records_of_grows(f.other_toc, offs, q1);
    assert(empty_pool().wf());
    lemma_records_of(f.toc, offs, empty_pool());
    lemma_records_of(f.other_toc, offs, q1);
    let t2 = Seq::new(nt, |i: int| (f.toc[i].1, offs[f.toc[i].0]));
    let o2 = Seq::new(no, |i: int| (f.other_toc[i].1, offs[f.other_toc[i].0]));
    assert(q2.data.take(q2.data.len() as int) =~= q2.data);
    assert forall|i: int| 0 <= i < nt implies pointed_string(q2.data, #[trigger] rs[i].label_offset) == Some(t2[i].0)
        && rs[i].address as usize == t2[i].1 by {
        let label = f.toc[i].1;
        assert(q1.offsets.contains_key(label));
        lemma_pool_reads_back(q2, label, q2.data);
    }
    lemma_pending_of_records(rs, q2.data, t2);
    assert forall|i: int| 0 <= i < no implies pointed_string(q2.data, #[trigger] os[i].label_offset) == Some(o2[i].0)
        && os[i].address as usize == o2[i].1 by {
        let label = f.other_toc[i].1;
        lemma_pool_reads_back(q2, label, q2.data);
    }
    lemma_pending_of_records(os, q2.data, o2);
    let all = all_pending(t2, o2);
    let order = read_order(all);
    lemma_parse_order_perm(roots_of(all), all.len());
    assert forall|s: int| 0 <= s < all.len() implies (#[trigger] all[s]) == (sl[s].1, offs[sl[s].0]) by {
        if s < nt {
            assert(sl[s] == f.toc[s]);
        } else {
            assert(sl[s] == f.other_toc[s - nt]);
        }
    }
    assert(all =~= Seq::new(sl.len(), |i: int| (sl[i].1, offs[sl[i].0])));
    let want = Seq::new(all.len(), |s: int| ts[sl[s].0]);
    assert forall|s: int| 0 <= s < all.len() implies read_table(all, s, d, rl) == Some(#[trigger] want[s]) by {
        assert(all[s] == (sl[s].1, offs[sl[s].0]));
        lemma_table_reads_back(f, s);
    }
    lemma_read_tables_all(all, order, d, rl, want);
    let g = file_of_raw(v).unwrap();
    assert forall|i: int| 0 <= i < all.len() implies 0 <= #[trigger] slot_index(order, i) < all.len()
        && order[slot_index(order, i)] == i by {
        assert(order.contains(i));
    }
    assert forall|i: int| 0 <= i < nt implies (#[trigger] g.toc[i]).1 == f.toc[i].1 && g.tables[g.toc[i].0]
        == f.tables[f.toc[i].0] by {
        assert(0 <= slot_index(order, i) < all.len());
        assert(sl[i] == f.toc[i]);
    }
    assert forall|i: int| 0 <= i < no implies (#[trigger] g.other_toc[i]).1 == f.other_toc[i].1
        && g.tables[g.other_toc[i].0] == f.tables[f.other_toc[i].0] by {
        assert(0 <= slot_index(order, nt + i) < all.len());
        assert(sl[nt + i] == f.other_toc[i]);
    }
    assert forall|i: int| 0 <= i < g.toc.len() implies 0 <= #[trigger] g.toc[i].0 < g.tables.len() by {
        assert(0 <= slot_index(order, i) < all.len());
    }
    assert forall|i: int| 0 <= i < g.other_toc.len() implies 0 <= #[trigger] g.other_toc[i].0 < g.tables.len() by {
        assert(0 <= slot_index(order, nt + i) < all.len());
    }
    assert(all == written_slots(f));
    assert(g.tables =~= Seq::new(sl.len(), |k: int| f.tables[sl[order[k]].0]));
}

/// Each slot's label and where its table starts in the written data blob.
pub open spec fn written_slots(f: RLBFileView) -> Seq<(Seq<char>, usize)> {
    Seq::new(
        all_slots(f).len(),
        |i: int| (all_slots(f)[i].1, serialize_tables(f.tables).unwrap().1[all_slots(f)[i].0]),
    )
}

/// The table that slot `s` lists reads back from its offset in the written data.
proof fn lemma_table_reads_back(f: RLBFileView, s: int)
    requires
        file_keeps(f),
        raw_parts(f) is Some,
        parts_lengths_fit(raw_parts(f).unwrap()),
        parts_file_size(raw_parts(f).unwrap()) <= u32::MAX,
        0 <= s < all_slots(f).len(),
    ensures
        ({
            let (d, offs, rl) = serialize_tables(f.tables).unwrap();
            let sl = all_slots(f);
            let all = Seq::new(sl.len(), |i: int| (sl[i].1, offs[sl[i].0]));
            read_table(all, s, d, rl) == Some(f.tables[sl[s].0])
        }),
{
    let ts = f.tables;
    let (d, offs, rl) = serialize_tables(ts).unwrap();
    let sl = all_slots(f);
    let all = Seq::new(sl.len(), |i: int| (sl[i].1, offs[sl[i].0]));
    let nt = f.toc.len();
    assert forall|i: int| 0 <= i < sl.len() implies 0 <= #[trigger] sl[i].0 < ts.len() by {
        if i < nt {
            assert(sl[i] == f.toc[i]);
        } else {
            assert(sl[i] == f.other_toc[i - nt]);
        }
    }
    let id = sl[s].0;
    let m = ts[id];
    assert(slot_keeps(f, sl[s]));
    assert(d == raw_parts(f).unwrap().0);
    lemma_written_table_placed(ts, id);
    let pool = tables_pool(ts);
    if let RowsRule::CountedByHeaderByte(c) = spec_rows_rule(m.schema) {
        assert(header_counts(f, c, m.entries.len()));
        let name = "dispositionDataHeader"@;
        let i = first_labelled(sl, name).unwrap();
        lemma_first_labelled(sl, all, name);
        let h = sl[i].0;
        lemma_written_table_placed(ts, h);
        let (hb, hf) = encode_table(ts[h]).unwrap();
        assert(encode_table(ts[h]) == encode_entries(
            spec_slots(SchemaId::DispositionDataHeader),
            spec_entry_size(SchemaId::DispositionDataHeader),
            all_entries(ts[h]),
        ));
        lemma_header_entries_no_fixups(all_entries(ts[h]));
        assert(!covered(hf, c as int));
        assert(d[offs[h] + c] == hb[c as int]);
    }
    lemma_decode_table_back(m, d, rl, all, offs[id] as int, pool.offsets);
}

/// `e` begins with the values and padding of `p`.
pub open spec fn extends(e: EntryView, p: EntryView) -> bool {
    &&& p.values.len() <= e.values.len()
    &&& p.pads.len() <= e.pads.len()
    &&& e.values.take(p.values.len() as int) == p.values
    &&& e.pads.take(p.pads.len() as int) == p.pads
}

proof fn lemma_decode_counts(slots: Seq<Slot>, data: Seq<u8>, relocs: Seq<u32>, pos: int)
    requires
        decode_slots(slots, data, relocs, pos) is Some,
    ensures
        decode_slots(slots, data, relocs, pos).unwrap().values.len() == field_count(slots),
        decode_slots(slots, data, relocs, pos).unwrap().pads.len() == pad_count(slots),
    decreases slots.len(),
{
    if slots.len() > 0 {
        lemma_decode_counts(slots.drop_last(), data, relocs, pos);
    }
}

/// A decoded entry, and any entry that begins with it, is sized for its slots.
proof fn lemma_decode_sized(slots: Seq<Slot>, data: Seq<u8>, relocs: Seq<u32>, pos: int, e2: EntryView)
    requires
        decode_slots(slots, data, relocs, pos) is Some,
        extends(e2, decode_slots(slots, data, relocs, pos).unwrap()),
    ensures
        sized(slots, e2),
    decreases slots.len(),
{
    if slots.len() > 0 {
        let s = slots.drop_last();
        let e = decode_slots(slots, data, relocs, pos).unwrap();
        let e0 = decode_slots(s, data, relocs, pos).unwrap();
        lemma_decode_counts(s, data, relocs, pos);
        let p = pos + slots_width(s);
        match slots.last() {
            Slot::Field { codec, .. } => {
                assert(e.values == e0.values.push(decode_field(codec, data, relocs, p).unwrap()));
                assert(e2.values.take(e0.values.len() as int) =~= e0.values) by {
                    assert(e2.values.take(e0.values.len() as int) =~= e2.values.take(e.values.len() as int).take(
                        e0.values.len() as int,
                    ));
                }
                assert(e2.values[e0.values.len() as int] == e.values[e0.values.len() as int]) by {
                    assert(e2.values.take(e.values.len() as int)[e0.values.len() as int] == e2.values[e0.values.len() as int]);
                }
            },
            Slot::Pad(n) => {
                assert(e.pads == e0.pads.push(data.subrange(p, p + n)));
                assert(e2.pads.take(e0.pads.len() as int) =~= e0.pads) by {
                    assert(e2.pads.take(e0.pads.len() as int) =~= e2.pads.take(e.pads.len() as int).take(
                        e0.pads.len() as int,
                    ));
                }
                assert(e2.pads[e0.pads.len() as int] == e.pads[e0.pads.len() as int]) by {
                    assert(e2.pads.take(e.pads.len() as int)[e0.pads.len() as int] == e2.pads[e0.pads.len() as int]);
                }
            },
        }
        lemma_decode_sized(s, data, relocs, pos, e2);
    }
}

/// A decoded entry has the shape of its slots.
pub proof fn lemma_decoded_well_shaped(slots: Seq<Slot>, data: Seq<u8>, relocs: Seq<u32>, pos: int)
    requires
        decode_slots(slots, data, relocs, pos) is Some,
    ensures
        well_shaped(slots, decode_slots(slots, data, relocs, pos).unwrap()),
{
    let e = decode_slots(slots, data, relocs, pos).unwrap();
    lemma_decode_counts(slots, data, relocs, pos);
    assert(e.values.take(e.values.len() as int) =~= e.values);
    assert(e.pads.take(e.pads.len() as int) =~= e.pads);
    lemma_decode_sized(slots, data, relocs, pos, e);
}

/// Re-encoding an entry read with slots that hold no pointer gives back the bytes
/// it was read from.
proof fn lemma_reencode_plain(slots: Seq<Slot>, data: Seq<u8>, relocs: Seq<u32>, pos: int, e2: EntryView)
    requires
        forall|i: int| 0 <= i < slots.len() ==> !(#[trigger] slots[i] matches Slot::Field { codec, .. } && codec
            == Codec::StringPointer),
        decode_slots(slots, data, relocs, pos) is Some,
        extends(e2, decode_slots(slots, data, relocs, pos).unwrap()),
        0 <= pos <= data.len(),
    ensures
        encode_slots(slots, e2) == Some((data.subrange(pos, pos + slots_width(slots)), Seq::<(int, Seq<char>)>::empty())),
    decreases slots.len(),
{
    if slots.len() == 0 {
        assert(data.subrange(pos, pos) =~= Seq::<u8>::empty());
    } else {
        let s = slots.drop_last();
        assert forall|i: int| 0 <= i < s.len() implies !(#[trigger] s[i] matches Slot::Field { codec, .. } && codec
            == Codec::StringPointer) by {
            assert(s[i] == slots[i]);
        }
        let e = decode_slots(slots, data, relocs, pos).unwrap();
        let e0 = decode_slots(s, data, relocs, pos).unwrap();
        lemma_decode_counts(s, data, relocs, pos);
        let p = pos + slots_width(s);
        assert(slots[slots.len() - 1] == slots.last());
        match slots.last() {
            Slot::Field { codec, .. } => {
                let v = decode_field(codec, data, relocs, p).unwrap();
                assert(e.values == e0.values.push(v));
                assert(e2.values.take(e0.values.len() as int) =~= e0.values) by {
                    assert(e2.values.take(e0.values.len() as int) =~= e2.values.take(e.values.len() as int).take(
                        e0.values.len() as int,
                    ));
                }
                assert(e2.values[e0.values.len() as int] == v) by {
                    assert(e2.values.take(e.values.len() as int)[e0.values.len() as int] == e2.values[e0.values.len() as int]);
                }
                assert(e2.pads.take(e0.pads.len() as int) =~= e0.pads);
                lemma_reencode_plain(s, data, relocs, pos, e2);
                let w = codec.spec_width();
                match codec {
                    Codec::U16 => {
                        lemma_be_u16_bytes(data[p], data[p + 1]);
                    },
                    Codec::U32 | Codec::F32 => {
                        lemma_be_u32_bytes(data[p], data[p + 1], data[p + 2], data[p + 3]);
                    },
                    _ => {},
                }
                assert(encode_field(codec, v).unwrap().0 =~= data.subrange(p, p + w));
                assert(data.subrange(pos, p) + data.subrange(p, p + w) =~= data.subrange(pos, pos + slots_width(slots)));
            },
            Slot::Pad(n) => {
                assert(e.pads == e0.pads.push(data.subrange(p, p + n)));
                assert(e2.pads.take(e0.pads.len() as int) =~= e0.pads) by {
                    assert(e2.pads.take(e0.pads.len() as int) =~= e2.pads.take(e.pads.len() as int).take(
                        e0.pads.len() as int,
                    ));
                }
                assert(e2.pads[e0.pads.len() as int] == data.subrange(p, p + n)) by {
                    assert(e2.pads.take(e.pads.len() as int)[e0.pads.len() as int] == e2.pads[e0.pads.len() as int]);
                }
                assert(e2.values.take(e0.values.len() as int) =~= e0.values);
                lemma_reencode_plain(s, data, relocs, pos, e2);
                assert(data.subrange(pos, p) + data.subrange(p, p + n) =~= data.subrange(pos, pos + slots_width(slots)));
            },
        }
    }
}

proof fn lemma_decode_terminated_keeps(id: SchemaId, data: Seq<u8>, relocs: Seq<u32>, pos: int)
    requires
        decode_terminated(id, data, relocs, pos) is Some,
    ensures
        ({
            let (es, t) = decode_terminated(id, data, relocs, pos).unwrap();
            &&& forall|k: int| 0 <= k < es.len() ==> well_shaped(spec_slots(id), #[trigger] es[k])
            &&& forall|k: int| 0 <= k < es.len() ==> !spec_is_terminator(id, #[trigger] es[k])
            &&& well_shaped(spec_slots(id), t)
            &&& spec_is_terminator(id, t)
        }),
    decreases data.len() - pos,
{
    let size = spec_entry_size(id);
    lemma_decoded_well_shaped(spec_slots(id), data, relocs, pos);
    let e = decode_slots(spec_slots(id), data, relocs, pos).unwrap();
    if !spec_is_terminator(id, e) {
        lemma_decode_terminated_keeps(id, data, relocs, pos + size);
        let (xs, t) = decode_terminated(id, data, relocs, pos + size).unwrap();
        let (es, t2) = decode_terminated(id, data, relocs, pos).unwrap();
        assert(es == seq![e] + xs);
        assert forall|k: int| 0 <= k < es.len() implies well_shaped(spec_slots(id), #[trigger] es[k])
            && !spec_is_terminator(id, es[k]) by {
            if k > 0 {
                assert(es[k] == xs[k - 1]);
            }
        }
    }
}

proof fn lemma_decode_counted_keeps(id: SchemaId, data: Seq<u8>, relocs: Seq<u32>, root: int, count: nat)
    requires
        decode_counted(id, data, relocs, root, count) is Some,
    ensures
        decode_counted(id, data, relocs, root, count).unwrap().len() == count,
        forall|k: int|
            0 <= k < count ==> well_shaped(spec_slots(id), #[trigger] decode_counted(id, data, relocs, root, count).unwrap()[k]),
    decreases count,
{
    if count > 0 {
        let c = (count - 1) as nat;
        lemma_decode_counted_keeps(id, data, relocs, root, c);
        let es = decode_counted(id, data, relocs, root, c).unwrap();
        let pos = root + c * spec_entry_size(id);
        lemma_decoded_well_shaped(spec_slots(id), data, relocs, pos);
        let all = decode_counted(id, data, relocs, root, count).unwrap();
        assert forall|k: int| 0 <= k < count implies well_shaped(spec_slots(id), #[trigger] all[k]) by {
            if k < c {
                assert(all[k] == es[k]);
            }
        }
    }
}

/// A table read from data keeps: it can be read back from its own bytes, and a
/// counted table has as many entries as the header's count byte says.
pub proof fn lemma_decode_table_keeps(
    id: SchemaId,
    data: Seq<u8>,
    relocs: Seq<u32>,
    tables: Seq<(Seq<char>, usize)>,
    pos: int,
)
    requires
        decode_table(id, data, relocs, tables, pos) is Some,
    ensures
        decode_table(id, data, relocs, tables, pos).unwrap().schema == id,
        table_keeps(decode_table(id, data, relocs, tables, pos).unwrap()),
        spec_rows_rule(id) matches RowsRule::CountedByHeaderByte(c) ==> (first_offset(
            tables,
            "dispositionDataHeader"@,
        ) matches Some(h) && h + c < data.len() && data[h + c] == decode_table(
            id,
            data,
            relocs,
            tables,
            pos,
        ).unwrap().entries.len()),
{
    let m = decode_table(id, data, relocs, tables, pos).unwrap();
    match spec_rows_rule(id) {
        RowsRule::Terminated => {
            lemma_decode_terminated_keeps(id, data, relocs, pos);
        },
        RowsRule::Single => {
            lemma_decoded_well_shaped(spec_slots(id), data, relocs, pos);
        },
        RowsRule::CountedByHeaderByte(c) => {
            let h = first_offset(tables, "dispositionDataHeader"@).unwrap();
            lemma_decode_counted_keeps(id, data, relocs, pos, data[h + c] as nat);
        },
    }
}

proof fn lemma_read_tables_index(all: Seq<(Seq<char>, usize)>, order: Seq<int>, data: Seq<u8>, relocs: Seq<u32>)
    requires
        read_tables(all, order, data, relocs) is Some,
    ensures
        read_tables(all, order, data, relocs).unwrap().len() == order.len(),
        forall|k: int|
            0 <= k < order.len() ==> read_table(all, order[k], data, relocs) == Some(
                #[trigger] read_tables(all, order, data, relocs).unwrap()[k],
            ),
    decreases order.len(),
{
    if order.len() > 0 {
        let d = order.drop_last();
        lemma_read_tables_index(all, d, data, relocs);
        let ts = read_tables(all, order, data, relocs).unwrap();
        let ts0 = read_tables(all, d, data, relocs).unwrap();
        assert forall|k: int| 0 <= k < order.len() implies read_table(all, order[k], data, relocs) == Some(
            #[trigger] ts[k],
        ) by {
            if k < d.len() {
                assert(ts[k] == ts0[k]);
                assert(d[k] == order[k]);
            }
        }
    }
}

/// Every string value of every table, and every label, round-trips.
pub open spec fn texts_round_trip(f: RLBFileView) -> bool {
    &&& forall|k: int| 0 <= k < f.tables.len() ==> table_strings_round_trip(#[trigger] f.tables[k])
    &&& forall|i: int| 0 <= i < all_slots(f).len() ==> text_round_trips(#[trigger] all_slots(f)[i].1)
}

/// The header table re-encodes to the bytes it was read from.
proof fn lemma_header_reencodes(data: Seq<u8>, relocs: Seq<u32>, tables: Seq<(Seq<char>, usize)>, h: int)
    requires
        0 <= h <= data.len(),
        decode_table(SchemaId::DispositionDataHeader, data, relocs, tables, h) is Some,
    ensures
        encode_table(decode_table(SchemaId::DispositionDataHeader, data, relocs, tables, h).unwrap()) is Some,
        encode_table(decode_table(SchemaId::DispositionDataHeader, data, relocs, tables, h).unwrap()).unwrap().0 == data.subrange(h, h + 8),
        h + 8 <= data.len(),
{
    let id = SchemaId::DispositionDataHeader;
    let slots = spec_slots(id);
    assert(slots_width(slots) == 8) by {
        reveal_with_fuel(slots_width, 7);
    }
    let e = decode_slots(slots, data, relocs, h).unwrap();
    lemma_decode_within(slots, data, relocs, h);
    let m = decode_table(id, data, relocs, tables, h).unwrap();
    assert(m.entries == seq![e]);
    assert forall|i: int| 0 <= i < slots.len() implies !(#[trigger] slots[i] matches Slot::Field { codec, .. } && codec
        == Codec::StringPointer) by {}
    assert(e.values.take(e.values.len() as int) =~= e.values);
    assert(e.pads.take(e.pads.len() as int) =~= e.pads);
    lemma_reencode_plain(slots, data, relocs, h, e);
    let es = seq![e];
    assert(es.drop_last() =~= Seq::<EntryView>::empty());
    assert(es.last() == e);
    assert(all_entries(m) == es);
    assert(encode_table(m) == encode_entries(slots, 8, es));
    let sub = data.subrange(h, h + 8);
    assert(encode_slots(slots, e) == Some((sub, Seq::<(int, Seq<char>)>::empty())));
    assert(encode_sized(slots, 8, e) == Some((sub, Seq::<(int, Seq<char>)>::empty())));
    assert(encode_entries(slots, 8, es.drop_last()) == Some((Seq::<u8>::empty(), Seq::<(int, Seq<char>)>::empty())));
    assert(Seq::<u8>::empty() + sub =~= sub);
    assert(Seq::<(int, Seq<char>)>::empty() + shift_fixups(Seq::<(int, Seq<char>)>::empty(), 0) =~= Seq::<(int, Seq<char>)>::empty());
}

/// A slot of a file read from a container keeps its table.
#[verifier::rlimit(40)]
proof fn lemma_read_slot_keeps(raw: RawFileView, s: int)
    requires
        file_of_raw(raw) is Some,
        0 <= s < all_slots(file_of_raw(raw).unwrap()).len(),
        text_round_trips(all_slots(file_of_raw(raw).unwrap())[s].1),
    ensures
        slot_keeps(file_of_raw(raw).unwrap(), all_slots(file_of_raw(raw).unwrap())[s]),
{
    let f = file_of_raw(raw).unwrap();
    let t = pending_of(raw.records, raw.table_labels).unwrap();
    let o = pending_of(raw.other_records, raw.table_labels).unwrap();
    let all = all_pending(t, o);
    let order = read_order(all);
    let ts = read_tables(all, order, raw.data, raw.relocation_table).unwrap();
    let sl = all_slots(f);
    let nt = t.len();
    lemma_parse_order_perm(roots_of(all), all.len());
    lemma_read_tables_index(all, order, raw.data, raw.relocation_table);
    assert forall|i: int| 0 <= i < all.len() implies (#[trigger] sl[i]) == (slot_index(order, i), all[i].0)
        && 0 <= slot_index(order, i) < all.len() && order[slot_index(order, i)] == i by {
        assert(order.contains(i));
        if i < nt {
            assert(sl[i] == f.toc[i]);
        } else {
            assert(sl[i] == f.other_toc[i - nt]);
        }
    }
    assert forall|i: int| 0 <= i < all.len() implies read_table(all, i, raw.data, raw.relocation_table) == Some(
        #[trigger] f.tables[sl[i].0],
    ) by {
        assert(ts[slot_index(order, i)] == f.tables[sl[i].0]);
    }
    let id = sl[s].0;
    let m = f.tables[id];
    let sid = spec_schema_for_name(all[s].0).unwrap();
    lemma_decode_table_keeps(sid, raw.data, raw.relocation_table, all, all[s].1 as int);
    if let RowsRule::CountedByHeaderByte(c) = spec_rows_rule(m.schema) {
        let name = "dispositionDataHeader"@;
        assert forall|i: int| 0 <= i < sl.len() implies (#[trigger] all[i]).0 == sl[i].1 by {
            assert(sl[i] == (slot_index(order, i), all[i].0));
        }
        lemma_first_labelled(sl, all, name);
        let i = first_labelled(sl, name).unwrap();
        let h = all[i].1;
        assert(spec_schema_for_name(name) == Some(SchemaId::DispositionDataHeader)) by {
            reveal_strlit("AttractionRanking");
            reveal_strlit("dispositionDataHeader");
            assert("AttractionRanking"@.len() == 17);
            assert(name.len() == 21);
            assert(name != "AttractionRanking"@);
        }
        assert(all[i].0 == name);
        assert(f.tables[sl[i].0] == decode_table(SchemaId::DispositionDataHeader, raw.data, raw.relocation_table, all, h as int).unwrap());
        lemma_decode_table_keeps(SchemaId::DispositionDataHeader, raw.data, raw.relocation_table, all, h as int);
        lemma_header_reencodes(raw.data, raw.relocation_table, all, h as int);
        assert(c < 8) by {
            assert(spec_rows_rule(m.schema) == RowsRule::CountedByHeaderByte(c));
        }
        let hid = sl[i].0;
        let hb = encode_table(f.tables[hid]).unwrap().0;
        assert(hb == raw.data.subrange(h as int, h + 8));
        assert(read_table(all, s, raw.data, raw.relocation_table) == Some(m));
        assert(decode_table(sid, raw.data, raw.relocation_table, all, all[s].1 as int) == Some(m));
        assert(first_offset(all, name) == Some(h));
        assert(raw.data[h + c] == m.entries.len());
        assert(hb[c as int] == raw.data[h + c]);
        assert(f.tables[hid].schema == SchemaId::DispositionDataHeader);
        assert(header_counts(f, c, m.entries.len()));
    }
    assert(sl[s].1 == all[s].0);
    assert(m.schema == sid);
}

/// A file read from a container keeps, provided its texts round-trip: writing
/// it and reading it back gives the same tables under the same labels.
pub proof fn lemma_read_file_keeps(raw: RawFileView)
    requires
        file_of_raw(raw) is Some,
        texts_round_trip(file_of_raw(raw).unwrap()),
    ensures
        file_keeps(file_of_raw(raw).unwrap()),
{
    let f = file_of_raw(raw).unwrap();
    let t = pending_of(raw.records, raw.table_labels).unwrap();
    let o = pending_of(raw.other_records, raw.table_labels).unwrap();
    let all = all_pending(t, o);
    let order = read_order(all);
    let ts = read_tables(all, order, raw.data, raw.relocation_table).unwrap();
    lemma_parse_order_perm(roots_of(all), all.len());
    lemma_read_tables_index(all, order, raw.data, raw.relocation_table);
    assert forall|i: int| 0 <= i < all.len() implies 0 <= #[trigger] slot_index(order, i) < all.len() by {
        assert(order.contains(i));
    }
    assert forall|i: int| 0 <= i < f.toc.len() implies 0 <= #[trigger] f.toc[i].0 < f.tables.len() by {
        assert(0 <= slot_index(order, i) < all.len());
    }
    assert forall|i: int| 0 <= i < f.other_toc.len() implies 0 <= #[trigger] f.other_toc[i].0 < f.tables.len() by {
        assert(0 <= slot_index(order, t.len() + i) < all.len());
    }
    assert forall|k: int| 0 <= k < f.tables.len() implies table_keeps(#[trigger] f.tables[k]) by {
        let j = order[k];
        assert(read_table(all, j, raw.data, raw.relocation_table) == Some(ts[k]));
        lemma_decode_table_keeps(spec_schema_for_name(all[j].0).unwrap(), raw.data, raw.relocation_table, all, all[j].1 as int);
    }
    assert forall|i: int| 0 <= i < all_slots(f).len() implies slot_keeps(f, #[trigger] all_slots(f)[i]) by {
        lemma_read_slot_keeps(raw, i);
    }
}

/// Reading a file, writing it and reading the bytes back lists the same tables
/// under the same labels, whenever writing succeeds within the 32-bit size
/// limits and the file's strings and labels round-trip through Shift-JIS.
pub proof fn lemma_read_write_read(raw: RawFileView)
    requires
        file_of_raw(raw) is Some,
        texts_round_trip(file_of_raw(raw).unwrap()),
        raw_parts(file_of_raw(raw).unwrap()) is Some,
        parts_lengths_fit(raw_parts(file_of_raw(raw).unwrap()).unwrap()),
        parts_file_size(raw_parts(file_of_raw(raw).unwrap()).unwrap()) <= u32::MAX,
    ensures
        file_of_raw(container_of(raw_parts(file_of_raw(raw).unwrap()).unwrap())) is Some,
        same_contents(
            file_of_raw(raw).unwrap(),
            file_of_raw(container_of(raw_parts(file_of_raw(raw).unwrap()).unwrap())).unwrap(),
        ),
{
    lemma_read_file_keeps(raw);
    lemma_write_then_read(file_of_raw(raw).unwrap());
}

/// Tables that take bytes are laid out at strictly increasing offsets.
proof fn lemma_written_offsets_increase(f: RLBFileView)
    requires
        file_keeps(f),
        raw_parts(f) is Some,
        parts_lengths_fit(raw_parts(f).unwrap()),
        parts_file_size(raw_parts(f).unwrap()) <= u32::MAX,
        forall|k: int| 0 <= k < f.tables.len() ==> all_entries(#[trigger] f.tables[k]).len() > 0,
    ensures
        serialize_tables(f.tables).unwrap().1.len() == f.tables.len(),
        forall|i: int, k: int|
            0 <= i < k < f.tables.len() ==> #[trigger] serialize_tables(f.tables).unwrap().1[i]
                < #[trigger] serialize_tables(f.tables).unwrap().1[k],
{
    let ts = f.tables;
    let encs = encode_all(ts).unwrap();
    lemma_encode_all_index(ts);
    let pool = tables_pool(ts);
    let (d, offs, rl) = serialize_tables(ts).unwrap();
    assert(d == raw_parts(f).unwrap().0);
    assert forall|k: int| 0 <= k < encs.len() implies spaced(#[trigger] encs[k].1, encs[k].0.len() as int)
        && encs[k].0.len() > 0 by {
        assert(encode_table(ts[k]) == Some(encs[k]));
        lemma_encode_table_fixups(ts[k]);
        let m = ts[k];
        let slots = spec_slots(m.schema);
        let size = spec_entry_size(m.schema);
        let all = all_entries(m);
        assert forall|j: int| 0 <= j < all.len() implies sized(slots, #[trigger] all[j]) by {
            if j < m.entries.len() {
                assert(all[j] == m.entries[j]);
                assert(well_shaped(slots, m.entries[j]));
            }
        }
        lemma_encode_entries_shape(slots, size, all);
        lemma_entry_size_positive(m.schema);
        assert(all.len() * size >= size) by (nonlinear_arith)
            requires
                all.len() >= 1,
        ;
    }
    lemma_place_layout(pool, encs);
    assert forall|i: int, k: int| 0 <= i < k < ts.len() implies #[trigger] offs[i] < #[trigger] offs[k] by {
        assert(offs[i] + encs[i].0.len() <= offs[k]);
    }
}

/// Reading a file, writing it and reading the bytes back gives exactly the file
/// back, whenever writing succeeds within the 32-bit size limits, the file's
/// strings and labels round-trip through Shift-JIS, and no table counted by the
/// disposition header is empty. Writing the file read back then gives the same
/// bytes again.
pub proof fn lemma_read_write_read_exact(raw: RawFileView)
    requires
        file_of_raw(raw) is Some,
        texts_round_trip(file_of_raw(raw).unwrap()),
        raw_parts(file_of_raw(raw).unwrap()) is Some,
        parts_lengths_fit(raw_parts(file_of_raw(raw).unwrap()).unwrap()),
        parts_file_size(raw_parts(file_of_raw(raw).unwrap()).unwrap()) <= u32::MAX,
        forall|k: int|
            0 <= k < file_of_raw(raw).unwrap().tables.len() ==> (spec_rows_rule(
                (#[trigger] file_of_raw(raw).unwrap().tables[k]).schema,
            ) is CountedByHeaderByte ==> file_of_raw(raw).unwrap().tables[k].entries.len() > 0),
    ensures
        file_of_raw(container_of(raw_parts(file_of_raw(raw).unwrap()).unwrap())) == Some(file_of_raw(raw).unwrap()),
{
    let f = file_of_raw(raw).unwrap();
    lemma_read_file_keeps(raw);
    lemma_write_then_read(f);
    let g = file_of_raw(container_of(raw_parts(f).unwrap())).unwrap();
    let t = pending_of(raw.records, raw.table_labels).unwrap();
    let o = pending_of(raw.other_records, raw.table_labels).unwrap();
    let allf = all_pending(t, o);
    let a = read_order(allf);
    let n = allf.len();
    lemma_parse_order_perm(roots_of(allf), n);
    lemma_read_tables_index(allf, a, raw.data, raw.relocation_table);
    let sl = all_slots(f);
    let nt = t.len();
    assert(sl.len() == n);
    assert(f.tables.len() == n);
    assert forall|i: int| 0 <= i < n implies 0 <= #[trigger] slot_index(a, i) < n && a[slot_index(a, i)] == i by {
        assert(a.contains(i));
    }
    assert forall|i: int| 0 <= i < n implies (#[trigger] sl[i]).0 == slot_index(a, i) by {
        if i < nt {
            assert(sl[i] == f.toc[i]);
        } else {
            assert(sl[i] == f.other_toc[i - nt]);
        }
    }
    assert forall|k: int| 0 <= k < n implies slot_index(a, #[trigger] a[k]) == k by {
        let j = slot_index(a, a[k]);
        assert(a.contains(a[k]));
        if j != k {
            if j < k {
                assert(a[j] != a[k]);
            } else {
                assert(a[k] != a[j]);
            }
        }
    }
    assert forall|k: int| 0 <= k < f.tables.len() implies all_entries(#[trigger] f.tables[k]).len() > 0 by {
        assert(table_keeps(f.tables[k]));
    }
    lemma_written_offsets_increase(f);
    let offs = serialize_tables(f.tables).unwrap().1;
    let all2 = written_slots(f);
    let roots2 = roots_of(all2);
    let b = read_order(all2);
    lemma_parse_order_perm(roots2, n);
    lemma_parse_order_sorted(roots2, n);
    assert forall|s: int| 0 <= s < n implies #[trigger] roots2[s] == offs[slot_index(a, s)] by {
        assert(sl[s].0 == slot_index(a, s));
    }
    assert forall|k: int, l: int| 0 <= k < l < n implies roots2[#[trigger] b[k]] < roots2[#[trigger] b[l]] by {
        assert(roots2[b[k]] <= roots2[b[l]]);
        assert(b[k] != b[l]);
        let x = slot_index(a, b[k]);
        let y = slot_index(a, b[l]);
        if x == y {
            assert(a[x] == b[k] && a[y] == b[l]);
        } else if x < y {
            assert(offs[x] < offs[y]);
        } else {
            assert(offs[y] < offs[x]);
        }
    }
    assert forall|k: int, l: int| 0 <= k < l < n implies roots2[#[trigger] a[k]] < roots2[#[trigger] a[l]] by {
        assert(roots2[a[k]] == offs[slot_index(a, a[k])]);
        assert(roots2[a[l]] == offs[slot_index(a, a[l])]);
    }
    assert forall|k: int| 0 <= k < n implies b.contains(#[trigger] a[k]) by {}
    assert forall|k: int| 0 <= k < n implies a.contains(#[trigger] b[k]) by {}
    lemma_strict_order_unique(a, b, roots2, n);
    assert(g.tables =~= f.tables) by {
        assert forall|k: int| 0 <= k < n implies #[trigger] g.tables[k] == f.tables[k] by {
            assert(g.tables[k] == f.tables[sl[b[k]].0]);
            assert(sl[a[k]].0 == slot_index(a, a[k]));
        }
    }
    assert(g.toc =~= f.toc) by {
        assert forall|i: int| 0 <= i < f.toc.len() implies #[trigger] g.toc[i] == f.toc[i] by {
            assert(sl[i] == f.toc[i]);
        }
    }
    assert(g.other_toc =~= f.other_toc) by {
        assert forall|i: int| 0 <= i < f.other_toc.len() implies #[trigger] g.other_toc[i] == f.other_toc[i] by {
            assert(sl[nt + i] == f.other_toc[i]);
        }
    }
}

} // verus!
