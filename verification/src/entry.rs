//! One entry of a table: the values of its named fields and its padding bytes.
use vstd::prelude::*;
use crate::codec::{
    decode_field, encode_field, field_error, pad_eof, past_data, write_field_message, Codec, EntryDeserializer, EntrySerializer,
};
use crate::error::{Error, Result};
use crate::schema::{field_count, pad_count, slot_width, slots_width, SchemaId, Slot};
use crate::schema::str_eq;
use crate::row::Row;
use crate::value::{validation, validation_naming, Value, ValueView};

verus! {

/// An entry as plain values: the values of its fields and its padding bytes, each
/// in file order.
#[verifier::ext_equal]
pub struct EntryView {
    pub values: Seq<ValueView>,
    pub pads: Seq<Seq<u8>>,
}

/// The entry read with `slots` from position `pos` of `data`, or `None` when one
/// of its fields cannot be read.
pub open spec fn decode_slots(slots: Seq<Slot>, data: Seq<u8>, relocs: Seq<u32>, pos: int) -> Option<
    EntryView,
>
    decreases slots.len(),
{
    if slots.len() == 0 {
        Some(EntryView { values: Seq::empty(), pads: Seq::empty() })
    } else {
        match decode_slots(slots.drop_last(), data, relocs, pos) {
            None => None,
            Some(e) => {
                let p = pos + slots_width(slots.drop_last());
                match slots.last() {
                    Slot::Field { codec, .. } => match decode_field(codec, data, relocs, p) {
                        Some(v) => Some(EntryView { values: e.values.push(v), pads: e.pads }),
                        None => None,
                    },
                    Slot::Pad(n) => if 0 <= p && p + n <= data.len() {
                        Some(EntryView { values: e.values, pads: e.pads.push(data.subrange(p, p + n)) })
                    } else {
                        None
                    },
                }
            },
        }
    }
}

/// The bytes `slots` write for the entry `e`, and the strings its pointer fields
/// point to with their offsets in the entry; `None` when a value does not fit
/// its field.
pub open spec fn encode_slots(slots: Seq<Slot>, e: EntryView) -> Option<(Seq<u8>, Seq<(int, Seq<char>)>)>
    decreases slots.len(),
{
    if slots.len() == 0 {
        Some((Seq::empty(), Seq::empty()))
    } else {
        match encode_slots(slots.drop_last(), e) {
            None => None,
            Some((b, f)) => match slots.last() {
                Slot::Field { codec, .. } => {
                    let k = field_count(slots.drop_last()) as int;
                    if k < e.values.len() {
                        match encode_field(codec, e.values[k]) {
                            Some((fb, s)) => Some(
                                (
                                    b + fb,
                                    match s {
                                        None => f,
                                        Some(t) => f.push((b.len() as int, t)),
                                    },
                                ),
                            ),
                            None => None,
                        }
                    } else {
                        None
                    }
                },
                Slot::Pad(_) => {
                    let k = pad_count(slots.drop_last()) as int;
                    if k < e.pads.len() {
                        Some((b + e.pads[k], f))
                    } else {
                        None
                    }
                },
            },
        }
    }
}

/// The entry has one value per field and padding of the right size per padding slot.
pub open spec fn fits(slots: Seq<Slot>, e: EntryView) -> bool
    decreases slots.len(),
{
    if slots.len() == 0 {
        e.values.len() == 0 && e.pads.len() == 0
    } else {
        match slots.last() {
            Slot::Field { .. } => e.values.len() > 0 && fits(
                slots.drop_last(),
                EntryView { values: e.values.drop_last(), pads: e.pads },
            ),
            Slot::Pad(n) => e.pads.len() > 0 && e.pads.last().len() == n && fits(
                slots.drop_last(),
                EntryView { values: e.values, pads: e.pads.drop_last() },
            ),
        }
    }
}

/// The position among the fields of the first field named `name`, if any.
pub open spec fn field_position(slots: Seq<Slot>, name: Seq<char>) -> Option<nat>
    decreases slots.len(),
{
    if slots.len() == 0 {
        None
    } else {
        match slots[0] {
            Slot::Field { name: n, .. } => if n@ == name {
                Some(0)
            } else {
                match field_position(slots.drop_first(), name) {
                    Some(k) => Some(k + 1),
                    None => None,
                }
            },
            Slot::Pad(_) => field_position(slots.drop_first(), name),
        }
    }
}

proof fn lemma_decode_prefix(slots: Seq<Slot>, data: Seq<u8>, relocs: Seq<u32>, pos: int, k: int)
    requires
        0 <= k <= slots.len(),
        decode_slots(slots, data, relocs, pos) is Some,
    ensures
        decode_slots(slots.take(k), data, relocs, pos) is Some,
    decreases slots.len(),
{
    if k < slots.len() {
        assert(slots.drop_last().take(k) =~= slots.take(k));
        lemma_decode_prefix(slots.drop_last(), data, relocs, pos, k);
    } else {
        assert(slots.take(k) =~= slots);
    }
}

proof fn lemma_encode_prefix(slots: Seq<Slot>, e: EntryView, k: int)
    requires
        0 <= k <= slots.len(),
        encode_slots(slots, e) is Some,
    ensures
        encode_slots(slots.take(k), e) is Some,
    decreases slots.len(),
{
    if k < slots.len() {
        assert(slots.drop_last().take(k) =~= slots.take(k));
        lemma_encode_prefix(slots.drop_last(), e, k);
    } else {
        assert(slots.take(k) =~= slots);
    }
}

/// What a range error calls the field `name`: the field itself when fields
/// are named, and "integer value" otherwise.
pub open spec fn range_label(name: Seq<char>, names_fields: bool) -> Seq<char> {
    if names_fields {
        name
    } else {
        "integer value"@
    }
}

/// The message of the error that writing `e` with `slots` gives when it fails:
/// that of the first slot that cannot be written.
pub open spec fn slots_write_message(slots: Seq<Slot>, e: EntryView, names_fields: bool) -> Seq<char>
    decreases slots.len(),
{
    if slots.len() == 0 {
        Seq::empty()
    } else if encode_slots(slots.drop_last(), e) is None {
        slots_write_message(slots.drop_last(), e, names_fields)
    } else {
        match slots.last() {
            Slot::Field { name, codec } => {
                let k = field_count(slots.drop_last()) as int;
                if k < e.values.len() {
                    write_field_message(codec, e.values[k], range_label(name@, names_fields))
                } else {
                    "entry has fewer values than its schema has fields"@
                }
            },
            Slot::Pad(_) => "entry has fewer paddings than its schema has"@,
        }
    }
}

/// Once a prefix of the slots cannot be written, the message is that of the prefix.
proof fn lemma_write_message_prefix(slots: Seq<Slot>, e: EntryView, names_fields: bool, k: int)
    requires
        0 <= k <= slots.len(),
        encode_slots(slots.take(k), e) is None,
    ensures
        slots_write_message(slots, e, names_fields) == slots_write_message(slots.take(k), e, names_fields),
    decreases slots.len(),
{
    if k < slots.len() {
        let d = slots.drop_last();
        assert(d.take(k) =~= slots.take(k));
        if encode_slots(d, e) is Some {
            lemma_encode_prefix(d, e, k);
        }
        lemma_write_message_prefix(d, e, names_fields, k);
    } else {
        assert(slots.take(k) =~= slots);
    }
}

proof fn lemma_counts_step(slots: Seq<Slot>, i: int)
    requires
        0 <= i < slots.len(),
    ensures
        slots.take(i + 1).drop_last() == slots.take(i),
        slots.take(i + 1).last() == slots[i],
        field_count(slots.take(i + 1)) == field_count(slots.take(i)) + if slots[i] is Field { 1nat } else { 0nat },
        pad_count(slots.take(i + 1)) == pad_count(slots.take(i)) + if slots[i] is Pad { 1nat } else { 0nat },
{
    assert(slots.take(i + 1).drop_last() =~= slots.take(i));
}

/// The position of the value of the field named `name` in `e`, if the schema has
/// such a field.
pub open spec fn value_position(slots: Seq<Slot>, e: EntryView, name: Seq<char>) -> Option<nat> {
    match field_position(slots, name) {
        Some(k) => if k < e.values.len() {
            Some(k)
        } else {
            None
        },
        None => None,
    }
}

/// The error that reading an entry with `slots` at `pos` gives when it cannot be
/// read: that of the first slot that cannot be read.
pub open spec fn slots_error(slots: Seq<Slot>, data: Seq<u8>, relocs: Seq<u32>, pos: int) -> Error
    decreases slots.len(),
{
    if slots.len() == 0 {
        past_data(pos, data.len())
    } else if decode_slots(slots.drop_last(), data, relocs, pos) is None {
        slots_error(slots.drop_last(), data, relocs, pos)
    } else {
        let p = pos + slots_width(slots.drop_last());
        match slots.last() {
            Slot::Field { codec, .. } => field_error(codec, data, p),
            Slot::Pad(_) => pad_eof(),
        }
    }
}

/// When the first `k` slots read and slot `k` does not, reading all the slots
/// fails with the error of slot `k`.
pub proof fn lemma_slots_error_prefix(slots: Seq<Slot>, data: Seq<u8>, relocs: Seq<u32>, pos: int, k: int)
    requires
        0 <= k < slots.len(),
        decode_slots(slots.take(k), data, relocs, pos) is Some,
        decode_slots(slots.take(k + 1), data, relocs, pos) is None,
    ensures
        decode_slots(slots, data, relocs, pos) is None,
        slots_error(slots, data, relocs, pos) == slots_error(slots.take(k + 1), data, relocs, pos),
    decreases slots.len(),
{
    if k + 1 == slots.len() {
        assert(slots.take(k + 1) =~= slots);
    } else {
        let d = slots.drop_last();
        assert(d.take(k) =~= slots.take(k));
        assert(d.take(k + 1) =~= slots.take(k + 1));
        lemma_slots_error_prefix(d, data, relocs, pos, k);
    }
}

/// Shifts an optional position by `k`.
pub open spec fn shifted(o: Option<nat>, k: nat) -> Option<nat> {
    match o {
        Some(x) => Some(x + k),
        None => None,
    }
}

/// A readable entry lies within the data.
pub proof fn lemma_decode_within(slots: Seq<Slot>, data: Seq<u8>, relocs: Seq<u32>, pos: int)
    requires
        0 <= pos,
        decode_slots(slots, data, relocs, pos) is Some,
    ensures
        slots.len() > 0 ==> pos + slots_width(slots) <= data.len(),
{
    if slots.len() > 0 {
        let p = pos + slots_width(slots.drop_last());
        match slots.last() {
            Slot::Field { codec, .. } => {
                assert(decode_field(codec, data, relocs, p) is Some);
            },
            Slot::Pad(n) => {},
        }
    }
}

proof fn lemma_decode_fits(slots: Seq<Slot>, data: Seq<u8>, relocs: Seq<u32>, pos: int)
    requires
        decode_slots(slots, data, relocs, pos) is Some,
    ensures
        fits(slots, decode_slots(slots, data, relocs, pos).unwrap()),
        decode_slots(slots, data, relocs, pos).unwrap().values.len() == field_count(slots),
        decode_slots(slots, data, relocs, pos).unwrap().pads.len() == pad_count(slots),
    decreases slots.len(),
{
    if slots.len() > 0 {
        lemma_decode_fits(slots.drop_last(), data, relocs, pos);
        let e = decode_slots(slots.drop_last(), data, relocs, pos).unwrap();
        let f = decode_slots(slots, data, relocs, pos).unwrap();
        match slots.last() {
            Slot::Field { .. } => {
                assert(f.values.drop_last() =~= e.values);
            },
            Slot::Pad(n) => {
                assert(f.pads.drop_last() =~= e.pads);
            },
        }
    }
}

/// The entry whose fields take their values from `row` and whose padding is
/// zero; `None` when the row has no value for one of the fields.
pub open spec fn entry_from_row(slots: Seq<Slot>, row: Map<Seq<char>, ValueView>) -> Option<EntryView>
    decreases slots.len(),
{
    if slots.len() == 0 {
        Some(EntryView { values: Seq::empty(), pads: Seq::empty() })
    } else {
        match entry_from_row(slots.drop_last(), row) {
            None => None,
            Some(e) => match slots.last() {
                Slot::Field { name, .. } => if row.contains_key(name@) {
                    Some(EntryView { values: e.values.push(row[name@]), pads: e.pads })
                } else {
                    None
                },
                Slot::Pad(n) => Some(EntryView { values: e.values, pads: e.pads.push(Seq::new(n as nat, |i: int| 0u8)) }),
            },
        }
    }
}

proof fn lemma_entry_from_row_prefix(slots: Seq<Slot>, row: Map<Seq<char>, ValueView>, k: int)
    requires
        0 <= k <= slots.len(),
        entry_from_row(slots, row) is Some,
    ensures
        entry_from_row(slots.take(k), row) is Some,
    decreases slots.len(),
{
    if k < slots.len() {
        assert(slots.drop_last().take(k) =~= slots.take(k));
        lemma_entry_from_row_prefix(slots.drop_last(), row, k);
    } else {
        assert(slots.take(k) =~= slots);
    }
}

/// The name of the first field that `row` has no value for.
pub open spec fn missing_field(slots: Seq<Slot>, row: Map<Seq<char>, ValueView>) -> Seq<char>
    decreases slots.len(),
{
    if slots.len() == 0 {
        Seq::empty()
    } else if entry_from_row(slots.drop_last(), row) is None {
        missing_field(slots.drop_last(), row)
    } else {
        match slots.last() {
            Slot::Field { name, .. } => name@,
            Slot::Pad(_) => Seq::empty(),
        }
    }
}

/// The message of the error for a row that lacks a field.
pub open spec fn missing_field_message(slots: Seq<Slot>, row: Map<Seq<char>, ValueView>) -> Seq<char> {
    "missing field \""@ + missing_field(slots, row) + "\""@
}

/// The message of the error for a field name that the schema does not have.
pub open spec fn unknown_field_message(field: Seq<char>) -> Seq<char> {
    "unknown field: '"@ + field + "'"@
}

/// Once a prefix of the slots lacks a field, the missing field is that of the prefix.
proof fn lemma_missing_field_prefix(slots: Seq<Slot>, row: Map<Seq<char>, ValueView>, k: int)
    requires
        0 <= k <= slots.len(),
        entry_from_row(slots.take(k), row) is None,
    ensures
        missing_field(slots, row) == missing_field(slots.take(k), row),
    decreases slots.len(),
{
    if k < slots.len() {
        let d = slots.drop_last();
        assert(d.take(k) =~= slots.take(k));
        if entry_from_row(d, row) is Some {
            lemma_entry_from_row_prefix(d, row, k);
        }
        lemma_missing_field_prefix(d, row, k);
    } else {
        assert(slots.take(k) =~= slots);
    }
}

/// `n` zero bytes.
pub fn zeros(n: usize) -> (r: Vec<u8>)
    ensures
        r@ == Seq::new(n as nat, |i: int| 0u8),
{
    let mut v: Vec<u8> = Vec::new();
    let mut i: usize = 0;
    while i < n
        invariant
            0 <= i <= n,
            v@ == Seq::new(i as nat, |k: int| 0u8),
        decreases n - i,
    {
        v.push(0u8);
        i = i + 1;
        assert(v@ =~= Seq::new(i as nat, |k: int| 0u8));
    }
    v
}

/// An entry of a table.
#[derive(Debug, Clone)]
pub struct Entry {
    values: Vec<Value>,
    pads: Vec<Vec<u8>>,
}

/// The entry made of the given values and padding.
pub open spec fn entry_view_of(values: Seq<Value>, pads: Seq<Vec<u8>>) -> EntryView {
    EntryView {
        values: Seq::new(values.len(), |i: int| values[i]@),
        pads: Seq::new(pads.len(), |i: int| pads[i]@),
    }
}

impl View for Entry {
    type V = EntryView;

    closed spec fn view(&self) -> EntryView {
        entry_view_of(self.values@, self.pads@)
    }
}

impl Entry {
    /// Reads an entry with `slots` from the deserializer's position.
    pub fn read(de: &mut EntryDeserializer, slots: &[Slot]) -> (r: Result<Entry>)
        ensures
            final(de).data() == old(de).data(),
            final(de).relocs() == old(de).relocs(),
            decode_slots(slots@, old(de).data(), old(de).relocs(), old(de).position()) matches Some(
                e,
            ) ==> r matches Ok(x) && x@ == e && final(de).position() == old(de).position()
                + slots_width(slots@),
            decode_slots(slots@, old(de).data(), old(de).relocs(), old(de).position()) is None
                ==> (r matches Err(e) && e == slots_error(
                slots@,
                old(de).data(),
                old(de).relocs(),
                old(de).position(),
            )),
    {
        proof {
            de.lemma_position_nonneg();
        }
        let ghost start = de.position();
        let ghost data = de.data();
        let ghost relocs = de.relocs();
        let mut values: Vec<Value> = Vec::new();
        let mut pads: Vec<Vec<u8>> = Vec::new();
        let mut i: usize = 0;
        assert(slots@.take(0) =~= Seq::<Slot>::empty());
        assert(entry_view_of(values@, pads@) =~= EntryView { values: Seq::empty(), pads: Seq::empty() });
        while i < slots.len()
            invariant
                0 <= i <= slots@.len(),
                de.data() == data,
                de.relocs() == relocs,
                data == old(de).data(),
                relocs == old(de).relocs(),
                start == old(de).position(),
                0 <= start,
                de.position() == start + slots_width(slots@.take(i as int)),
                decode_slots(slots@.take(i as int), data, relocs, start) == Some(
                    entry_view_of(values@, pads@),
                ),
            decreases slots@.len() - i,
        {
            let ghost prefix = slots@.take(i as int);
            let ghost next = slots@.take(i + 1);
            assert(next.drop_last() =~= prefix);
            assert(next.last() == slots@[i as int]);
            let ghost before = entry_view_of(values@, pads@);
            match slots[i] {
                Slot::Field { codec, .. } => {
                    match de.read_field(codec) {
                        Ok(v) => {
                            assert(decode_field(codec, data, relocs, start + slots_width(prefix)) == Some(v@));
                            assert(decode_slots(next, data, relocs, start) == Some(EntryView {
                                values: before.values.push(v@),
                                pads: before.pads,
                            }));
                            values.push(v);
                            assert(entry_view_of(values@, pads@) =~= EntryView {
                                values: before.values.push(v@),
                                pads: before.pads,
                            });
                        },
                        Err(e) => {
                            proof {
                                if decode_slots(slots@, data, relocs, start) is Some {
                                    lemma_decode_prefix(slots@, data, relocs, start, i + 1);
                                }
                                lemma_slots_error_prefix(slots@, data, relocs, start, i as int);
                            }
                            return Err(e);
                        },
                    }
                },
                Slot::Pad(n) => {
                    match de.read_pad(n) {
                        Ok(p) => {
                            let ghost q = start + slots_width(prefix);
                            assert(q + n <= data.len());
                            assert(p@ == data.subrange(q, q + n));
                            assert(next.last() == Slot::Pad(n));
                            assert(decode_slots(next.drop_last(), data, relocs, start) == Some(before));
                            assert(slots_width(next.drop_last()) == slots_width(prefix));
                            assert(decode_slots(next, data, relocs, start) == Some(EntryView {
                                values: before.values,
                                pads: before.pads.push(p@),
                            }));
                            pads.push(p);
                            assert(entry_view_of(values@, pads@) =~= EntryView {
                                values: before.values,
                                pads: before.pads.push(p@),
                            });
                        },
                        Err(e) => {
                            proof {
                                if decode_slots(slots@, data, relocs, start) is Some {
                                    lemma_decode_prefix(slots@, data, relocs, start, i + 1);
                                }
                                lemma_slots_error_prefix(slots@, data, relocs, start, i as int);
                            }
                            return Err(e);
                        },
                    }
                },
            }
            i = i + 1;
        }
        assert(slots@.take(slots@.len() as int) =~= slots@);
        Ok(Entry { values, pads })
    }

    /// The values of the entry's fields.
    pub fn values(&self) -> (r: &Vec<Value>)
        ensures
            r@.len() == self@.values.len(),
            forall|i: int| 0 <= i < r@.len() ==> #[trigger] r@[i]@ == self@.values[i],
    {
        &self.values
    }

    /// Writes the entry with `slots` into a fresh serializer.
    ///
    /// Fails with `Validation` when a value does not fit its field; a range error
    /// names the field when `names_fields` holds.
    pub fn write(&self, ser: &mut EntrySerializer, slots: &[Slot], names_fields: bool) -> (r: Result<()>)
        requires
            old(ser).wf(),
            old(ser).bytes() == Seq::<u8>::empty(),
            old(ser).fixups() == Seq::<(int, Seq<char>)>::empty(),
        ensures
            final(ser).wf(),
            encode_slots(slots@, self@) matches Some((b, f)) ==> r is Ok && final(ser).bytes() == b
                && final(ser).fixups() == f,
            encode_slots(slots@, self@) is None ==> (r matches Err(Error::Validation(m)) && m@
                == slots_write_message(slots@, self@, names_fields)),
    {
        let mut vi: usize = 0;
        let mut pi: usize = 0;
        let mut i: usize = 0;
        assert(slots@.take(0) =~= Seq::<Slot>::empty());
        while i < slots.len()
            invariant
                0 <= i <= slots@.len(),
                ser.wf(),
                vi == field_count(slots@.take(i as int)),
                pi == pad_count(slots@.take(i as int)),
                encode_slots(slots@.take(i as int), self@) == Some((ser.bytes(), ser.fixups())),
            decreases slots@.len() - i,
        {
            proof {
                lemma_counts_step(slots@, i as int);
            }
            let ghost next = slots@.take(i + 1);
            match slots[i] {
                Slot::Field { name, codec } => {
                    if vi >= self.values.len() {
                        proof {
                            if encode_slots(slots@, self@) is Some {
                                lemma_encode_prefix(slots@, self@, i + 1);
                            }
                            lemma_write_message_prefix(slots@, self@, names_fields, i + 1);
                        }
                        return Err(validation("entry has fewer values than its schema has fields"));
                    }
                    let label: &str = if names_fields {
                        name
                    } else {
                        "integer value"
                    };
                    match ser.write_field(codec, &self.values[vi], label) {
                        Ok(()) => {},
                        Err(e) => {
                            proof {
                                if encode_slots(slots@, self@) is Some {
                                    lemma_encode_prefix(slots@, self@, i + 1);
                                }
                                lemma_write_message_prefix(slots@, self@, names_fields, i + 1);
                            }
                            return Err(e);
                        },
                    }
                    vi = vi + 1;
                },
                Slot::Pad(_) => {
                    if pi >= self.pads.len() {
                        proof {
                            if encode_slots(slots@, self@) is Some {
                                lemma_encode_prefix(slots@, self@, i + 1);
                            }
                            lemma_write_message_prefix(slots@, self@, names_fields, i + 1);
                        }
                        return Err(validation("entry has fewer paddings than its schema has"));
                    }
                    ser.write_pad(self.pads[pi].as_slice());
                    pi = pi + 1;
                },
            }
            i = i + 1;
        }
        assert(slots@.take(slots@.len() as int) =~= slots@);
        Ok(())
    }

    /// The entry made of the given values and padding.
    pub fn from_parts(values: Vec<Value>, pads: Vec<Vec<u8>>) -> (r: Entry)
        ensures
            r@ == entry_view_of(values@, pads@),
    {
        Entry { values, pads }
    }

    /// The entry whose fields take their values from `row`, with zero padding.
    ///
    /// Fails with `Validation` when the row has no value for one of the fields.
    pub fn from_row(slots: &[Slot], row: &Row) -> (r: Result<Entry>)
        ensures
            entry_from_row(slots@, row@) matches Some(e) ==> (r matches Ok(x) && x@ == e),
            entry_from_row(slots@, row@) is None ==> (r matches Err(Error::Validation(m)) && m@
                == missing_field_message(slots@, row@)),
    {
        let mut values: Vec<Value> = Vec::new();
        let mut pads: Vec<Vec<u8>> = Vec::new();
        let mut i: usize = 0;
        assert(slots@.take(0) =~= Seq::<Slot>::empty());
        assert(entry_view_of(values@, pads@) =~= EntryView { values: Seq::empty(), pads: Seq::empty() });
        while i < slots.len()
            invariant
                0 <= i <= slots@.len(),
                entry_from_row(slots@.take(i as int), row@) == Some(entry_view_of(values@, pads@)),
            decreases slots@.len() - i,
        {
            assert(slots@.take(i + 1).drop_last() =~= slots@.take(i as int));
            assert(slots@.take(i + 1).last() == slots@[i as int]);
            let ghost before = entry_view_of(values@, pads@);
            match slots[i] {
                Slot::Field { name, .. } => match row.get(name) {
                    Some(v) => {
                        values.push(v.duplicate());
                        assert(entry_view_of(values@, pads@) =~= EntryView {
                            values: before.values.push(v@),
                            pads: before.pads,
                        });
                    },
                    None => {
                        proof {
                            if entry_from_row(slots@, row@) is Some {
                                lemma_entry_from_row_prefix(slots@, row@, i + 1);
                            }
                            lemma_missing_field_prefix(slots@, row@, i + 1);
                        }
                        return Err(validation_naming("missing field \"", name, "\""));
                    },
                },
                Slot::Pad(n) => {
                    let z = zeros(n);
                    pads.push(z);
                    assert(entry_view_of(values@, pads@) =~= EntryView {
                        values: before.values,
                        pads: before.pads.push(Seq::new(n as nat, |k: int| 0u8)),
                    });
                },
            }
            i = i + 1;
        }
        assert(slots@.take(slots@.len() as int) =~= slots@);
        Ok(Entry { values, pads })
    }

    /// The position among the fields of the first field named `name`, if any.
    fn position_of(slots: &[Slot], name: &str) -> (r: Option<usize>)
        ensures
            r matches Some(k) ==> field_position(slots@, name@) == Some(k as nat),
            r is None ==> field_position(slots@, name@) is None,
    {
        let mut i: usize = 0;
        let mut k: usize = 0;
        assert(slots@.subrange(0, slots@.len() as int) =~= slots@);
        while i < slots.len()
            invariant
                0 <= i <= slots@.len(),
                k <= i,
                field_position(slots@, name@) == shifted(
                    field_position(slots@.subrange(i as int, slots@.len() as int), name@),
                    k as nat,
                ),
            decreases slots@.len() - i,
        {
            let ghost rest = slots@.subrange(i as int, slots@.len() as int);
            assert(rest.drop_first() =~= slots@.subrange(i + 1, slots@.len() as int));
            assert(rest[0] == slots@[i as int]);
            match slots[i] {
                Slot::Field { name: n, .. } => {
                    if str_eq(n, name) {
                        return Some(k);
                    }
                    k = k + 1;
                },
                Slot::Pad(_) => {},
            }
            i = i + 1;
        }
        None
    }

    /// The value of the field named `field`, or `None` when the schema has no such field.
    pub fn get(&self, slots: &[Slot], field: &str) -> (r: Option<Value>)
        ensures
            value_position(slots@, self@, field@) matches Some(k) ==> (r matches Some(v) && v@
                == self@.values[k as int]),
            value_position(slots@, self@, field@) is None ==> r is None,
    {
        match Self::position_of(slots, field) {
            Some(k) => if k < self.values.len() {
                Some(self.values[k].duplicate())
            } else {
                None
            },
            None => None,
        }
    }

    /// Sets the field named `field` to `value`.
    ///
    /// Fails with `Validation` when the schema has no such field; the entry is
    /// then unchanged.
    pub fn set(&mut self, slots: &[Slot], field: &str, value: Value) -> (r: Result<()>)
        ensures
            value_position(slots@, old(self)@, field@) matches Some(k) ==> (r is Ok && final(self)@
                == (EntryView {
                values: old(self)@.values.update(k as int, value@),
                pads: old(self)@.pads,
            })),
            value_position(slots@, old(self)@, field@) is None ==> (r matches Err(Error::Validation(m))
                && m@ == unknown_field_message(field@) && final(self)@ == old(self)@),
    {
        match Self::position_of(slots, field) {
            Some(k) => if k < self.values.len() {
                self.values.set(k, value);
                proof {
                    assert(self@ =~= (EntryView {
                        values: old(self)@.values.update(k as int, value@),
                        pads: old(self)@.pads,
                    }));
                }
                Ok(())
            } else {
                Err(validation_naming("unknown field: '", field, "'"))
            },
            None => Err(validation_naming("unknown field: '", field, "'")),
        }
    }
}

} // verus!
