//! Reading and writing the fields of one table entry.
use vstd::prelude::*;
use crate::be::{
    be_u16_at, be_u32_at, lemma_u16_be_roundtrip, lemma_u32_be_roundtrip, u16_be, u32_be,
};
use crate::error::{Error, Result};
use crate::parse_context::{pointed_string, ParseContext};
use crate::util::{checked_bool, checked_u32, decimal, decimal_string, string_error};
use crate::value::{validation, Value, ValueView};

verus! {

/// How one field is stored.
#[derive(Debug, Clone, Copy, PartialEq, Eq, Structural)]
pub enum Codec {
    /// One byte; writing rejects an integer above 255.
    U8,
    /// One byte; writing keeps the low eight bits of the integer.
    U8Wrapping,
    /// Two bytes; writing rejects an integer above 65535.
    U16,
    /// Four bytes.
    U32,
    /// The four bytes of an `f32`.
    F32,
    /// One byte, 0 or 1.
    Bool,
    /// A four-byte pointer into the string pool, or zero.
    StringPointer,
}

impl Codec {
    /// The number of bytes a field of this kind takes.
    pub open spec fn spec_width(self) -> nat {
        match self {
            Codec::U8 | Codec::U8Wrapping | Codec::Bool => 1,
            Codec::U16 => 2,
            Codec::U32 | Codec::F32 | Codec::StringPointer => 4,
        }
    }

    /// The number of bytes a field of this kind takes.
    pub fn width(&self) -> (r: usize)
        ensures
            r == self.spec_width(),
    {
        match self {
            Codec::U8 | Codec::U8Wrapping | Codec::Bool => 1,
            Codec::U16 => 2,
            Codec::U32 | Codec::F32 | Codec::StringPointer => 4,
        }
    }
}

/// The value a field of kind `codec` at position `pos` of `data` holds, or `None`
/// when it cannot be read. `relocs` are the pointer sites of the file.
pub open spec fn decode_field(codec: Codec, data: Seq<u8>, relocs: Seq<u32>, pos: int) -> Option<
    ValueView,
> {
    if pos < 0 || pos + codec.spec_width() > data.len() {
        None
    } else {
        match codec {
            Codec::U8 | Codec::U8Wrapping => Some(ValueView::Integer(data[pos] as u32)),
            Codec::U16 => Some(ValueView::Integer(be_u16_at(data, pos) as u32)),
            Codec::U32 => Some(ValueView::Integer(be_u32_at(data, pos))),
            Codec::F32 => Some(ValueView::Float(be_u32_at(data, pos))),
            Codec::Bool => if data[pos] == 0 {
                Some(ValueView::Boolean(false))
            } else if data[pos] == 1 {
                Some(ValueView::Boolean(true))
            } else {
                None
            },
            Codec::StringPointer => if pos > u32::MAX {
                None
            } else if relocs.contains(pos as u32) {
                match pointed_string(data, be_u32_at(data, pos)) {
                    Some(text) => Some(ValueView::String(Some(text))),
                    None => None,
                }
            } else {
                Some(ValueView::String(None))
            },
        }
    }
}

/// The bytes a field of kind `codec` holding `v` is written as, and the string
/// it points to, if any; `None` when `v` does not fit the kind.
pub open spec fn encode_field(codec: Codec, v: ValueView) -> Option<(Seq<u8>, Option<Seq<char>>)> {
    match (codec, v) {
        (Codec::U8, ValueView::Integer(n)) => if n <= 255 {
            Some((seq![n as u8], None))
        } else {
            None
        },
        (Codec::U8Wrapping, ValueView::Integer(n)) => Some((seq![n as u8], None)),
        (Codec::U16, ValueView::Integer(n)) => if n <= 65535 {
            Some((u16_be(n as u16), None))
        } else {
            None
        },
        (Codec::U32, ValueView::Integer(n)) => Some((u32_be(n), None)),
        (Codec::F32, ValueView::Float(bits)) => Some((u32_be(bits), None)),
        (Codec::Bool, ValueView::Boolean(b)) => Some((seq![if b { 1u8 } else { 0u8 }], None)),
        (Codec::StringPointer, ValueView::String(s)) => Some((u32_be(0), s)),
        _ => None,
    }
}

/// The error that reading past the end of the data blob gives.
pub open spec fn past_data(pos: int, len: nat) -> Error {
    Error::OffsetOutOfBounds { context: "table data", offset: pos as usize, length: len as usize }
}

/// The error that reading a field of kind `codec` gives when its bytes run past
/// the end of the data: booleans are read as a byte, floats and pointers as a
/// `u32`.
pub open spec fn field_eof(codec: Codec) -> Error {
    match codec {
        Codec::U8 | Codec::U8Wrapping | Codec::Bool => Error::UnexpectedEof { context: "entry field (u8)" },
        Codec::U16 => Error::UnexpectedEof { context: "entry field (u16)" },
        Codec::U32 | Codec::F32 | Codec::StringPointer => Error::UnexpectedEof { context: "entry field (u32)" },
    }
}

/// The error that reading padding bytes gives when they run past the end of the
/// data.
pub open spec fn pad_eof() -> Error {
    Error::UnexpectedEof { context: "entry pad bytes" }
}

/// The error that reading a field of kind `codec` at position `pos` gives when
/// the field cannot be read: its bytes run past the data, a boolean byte is
/// neither 0 nor 1, or a pointer's position does not fit in 32 bits or its
/// string cannot be read.
pub open spec fn field_error(codec: Codec, data: Seq<u8>, pos: int) -> Error {
    match codec {
        Codec::StringPointer => if pos > u32::MAX {
            Error::ValueTooLarge { context: "field abs offset", value: pos as usize }
        } else if pos + 4 > data.len() {
            field_eof(codec)
        } else {
            string_error(data.len(), be_u32_at(data, pos) as usize)
        },
        Codec::Bool => if pos + 1 > data.len() {
            field_eof(codec)
        } else {
            Error::InvalidBoolean { context: "enabled", value: data[pos] }
        },
        _ => field_eof(codec),
    }
}

/// The message of the error that writing `v` into a field of kind `codec` gives
/// when `v` does not fit it: a value of the wrong kind, or an integer too large
/// for the field, which the message calls `label`.
pub open spec fn write_field_message(codec: Codec, v: ValueView, label: Seq<char>) -> Seq<char> {
    match codec {
        Codec::StringPointer => match v {
            ValueView::Integer(_) => "string_pointer field received an Integer value"@,
            ValueView::Float(_) => "string_pointer field received a Float value"@,
            _ => "string_pointer field received an Boolean value"@,
        },
        Codec::F32 => "expected Float value in write path; schema mismatch"@,
        Codec::Bool => "expected Boolean value in write path; schema mismatch"@,
        _ => match v {
            ValueView::Integer(_) => if codec == Codec::U16 {
                label + " exceeds u16 range"@
            } else {
                label + " exceeds u8 range"@
            },
            _ => "expected Integer value in write path; schema mismatch"@,
        },
    }
}

/// Reads the fields of one entry, starting at a given offset of the data blob.
pub struct EntryDeserializer<'a, 'b> {
    context: &'b ParseContext<'a>,
    pos: usize,
}

impl<'a, 'b> EntryDeserializer<'a, 'b> {
    /// The offset of the next field to read.
    pub closed spec fn position(&self) -> int {
        self.pos as int
    }

    /// Positions are offsets, never negative.
    pub proof fn lemma_position_nonneg(&self)
        ensures
            0 <= self.position() <= usize::MAX,
    {
    }

    /// The data blob being read.
    pub closed spec fn data(&self) -> Seq<u8> {
        self.context.data_view()
    }

    /// The pointer sites of the file.
    pub closed spec fn relocs(&self) -> Seq<u32> {
        self.context.relocations_view()
    }

    /// Starts reading at `offset` of the context's data blob.
    pub fn new(context: &'b ParseContext<'a>, offset: usize) -> (r: Self)
        ensures
            r.position() == offset,
            r.data() == context.data_view(),
            r.relocs() == context.relocations_view(),
    {
        EntryDeserializer { context, pos: offset }
    }

    /// Reads `n` bytes and moves past them; when they run past the end of the
    /// data, fails with `UnexpectedEof` and the given context.
    fn take(&mut self, n: usize, context: &'static str) -> (r: Result<&'a [u8]>)
        ensures
            final(self).data() == old(self).data(),
            final(self).relocs() == old(self).relocs(),
            old(self).position() + n <= old(self).data().len() ==> (r matches Ok(b) && b@
                == old(self).data().subrange(old(self).position(), old(self).position() + n)
                && final(self).position() == old(self).position() + n),
            old(self).position() + n > old(self).data().len() ==> r == Err::<&[u8], Error>(
                Error::UnexpectedEof { context },
            ) && final(self).position() == old(self).position(),
    {
        let len = self.context.data_len();
        if self.pos > len || len - self.pos < n {
            return Err(Error::UnexpectedEof { context });
        }
        let b = self.context.bytes_at(self.pos, n)?;
        self.pos = self.pos + n;
        Ok(b)
    }

    /// Reads a byte.
    pub fn read_u8(&mut self) -> (r: Result<u8>)
        ensures
            final(self).data() == old(self).data(),
            final(self).relocs() == old(self).relocs(),
            old(self).position() + 1 <= old(self).data().len() ==> r == Ok::<u8, Error>(
                old(self).data()[old(self).position()],
            ) && final(self).position() == old(self).position() + 1,
            old(self).position() + 1 > old(self).data().len() ==> (r matches Err(e) && e == Error::UnexpectedEof { context: "entry field (u8)" }
                && final(self).position() == old(self).position()),
    {
        let b = self.take(1, "entry field (u8)")?;
        Ok(b[0])
    }

    /// Reads a big-endian `u16`.
    pub fn read_u16(&mut self) -> (r: Result<u16>)
        ensures
            final(self).data() == old(self).data(),
            final(self).relocs() == old(self).relocs(),
            old(self).position() + 2 <= old(self).data().len() ==> r == Ok::<u16, Error>(
                be_u16_at(old(self).data(), old(self).position()),
            ) && final(self).position() == old(self).position() + 2,
            old(self).position() + 2 > old(self).data().len() ==> (r matches Err(e) && e == Error::UnexpectedEof { context: "entry field (u16)" }
                && final(self).position() == old(self).position()),
    {
        let b = self.take(2, "entry field (u16)")?;
        Ok(((b[0] as u16) << 8u16) | (b[1] as u16))
    }

    /// Reads a big-endian `u32`.
    pub fn read_u32(&mut self) -> (r: Result<u32>)
        ensures
            final(self).data() == old(self).data(),
            final(self).relocs() == old(self).relocs(),
            old(self).position() + 4 <= old(self).data().len() ==> r == Ok::<u32, Error>(
                be_u32_at(old(self).data(), old(self).position()),
            ) && final(self).position() == old(self).position() + 4,
            old(self).position() + 4 > old(self).data().len() ==> (r matches Err(e) && e == Error::UnexpectedEof { context: "entry field (u32)" }
                && final(self).position() == old(self).position()),
    {
        let b = self.take(4, "entry field (u32)")?;
        Ok(((b[0] as u32) << 24u32) | ((b[1] as u32) << 16u32) | ((b[2] as u32) << 8u32) | (
        b[3] as u32))
    }

    /// Reads the bit pattern of a big-endian `f32`.
    pub fn read_f32(&mut self) -> (r: Result<u32>)
        ensures
            final(self).data() == old(self).data(),
            final(self).relocs() == old(self).relocs(),
            old(self).position() + 4 <= old(self).data().len() ==> r == Ok::<u32, Error>(
                be_u32_at(old(self).data(), old(self).position()),
            ) && final(self).position() == old(self).position() + 4,
            old(self).position() + 4 > old(self).data().len() ==> (r matches Err(e) && e == Error::UnexpectedEof { context: "entry field (u32)" }
                && final(self).position() == old(self).position()),
    {
        self.read_u32()
    }

    /// Reads `n` padding bytes, kept so that they are written back unchanged.
    pub fn read_pad(&mut self, n: usize) -> (r: Result<Vec<u8>>)
        ensures
            final(self).data() == old(self).data(),
            final(self).relocs() == old(self).relocs(),
            old(self).position() + n <= old(self).data().len() ==> (r matches Ok(b) && b@
                == old(self).data().subrange(old(self).position(), old(self).position() + n)
                && final(self).position() == old(self).position() + n),
            old(self).position() + n > old(self).data().len() ==> (r matches Err(e) && e == pad_eof()
                && final(self).position() == old(self).position()),
    {
        let b = self.take(n, "entry pad bytes")?;
        Ok(vstd::slice::slice_to_vec(b))
    }

    /// Reads a string pointer: the string it points to when the file lists its
    /// offset as a pointer site, and no string otherwise.
    ///
    /// Fails with `ValueTooLarge` when the field's offset does not fit in 32 bits.
    pub fn read_string_pointer(&mut self) -> (r: Result<Value>)
        ensures
            final(self).data() == old(self).data(),
            final(self).relocs() == old(self).relocs(),
            decode_field(Codec::StringPointer, old(self).data(), old(self).relocs(), old(self).position())
                matches Some(v) ==> r matches Ok(x) && x@ == v && final(self).position()
                == old(self).position() + 4,
            decode_field(Codec::StringPointer, old(self).data(), old(self).relocs(), old(self).position())
                is None ==> (r matches Err(e) && e == field_error(
                Codec::StringPointer,
                old(self).data(),
                old(self).position(),
            )),
    {
        let abs = checked_u32(self.pos, "field abs offset")?;
        let raw = self.read_u32()?;
        if self.context.is_relocated(abs) {
            let text = self.context.resolve_string(raw)?;
            Ok(Value::String(Some(text)))
        } else {
            Ok(Value::String(None))
        }
    }

    /// Reads one field of kind `codec`.
    pub fn read_field(&mut self, codec: Codec) -> (r: Result<Value>)
        ensures
            final(self).data() == old(self).data(),
            final(self).relocs() == old(self).relocs(),
            decode_field(codec, old(self).data(), old(self).relocs(), old(self).position()) matches Some(v)
                ==> r matches Ok(x) && x@ == v && final(self).position() == old(self).position()
                + codec.spec_width(),
            decode_field(codec, old(self).data(), old(self).relocs(), old(self).position()) is None
                ==> (r matches Err(e) && e == field_error(codec, old(self).data(), old(self).position())),
    {
        match codec {
            Codec::U8 | Codec::U8Wrapping => {
                let v = self.read_u8()?;
                Ok(Value::Integer(v as u32))
            },
            Codec::U16 => {
                let v = self.read_u16()?;
                Ok(Value::Integer(v as u32))
            },
            Codec::U32 => {
                let v = self.read_u32()?;
                Ok(Value::Integer(v))
            },
            Codec::F32 => {
                let v = self.read_f32()?;
                Ok(Value::Float(v))
            },
            Codec::Bool => {
                let v = self.read_u8()?;
                let b = checked_bool(v, "enabled")?;
                Ok(Value::Boolean(b))
            },
            Codec::StringPointer => self.read_string_pointer(),
        }
    }
}

/// A pointer field whose value is a string: the field's offset in the table
/// being written, and the string.
#[derive(Debug)]
pub struct StringFixup {
    pub offset: usize,
    pub value: String,
}

/// A serialized table before its strings are placed: its bytes, with zero in
/// each pointer field, and the string each pointer field is to point to.
#[derive(Debug)]
pub struct RelocatableTable {
    pub data: Vec<u8>,
    pub string_fixups: Vec<StringFixup>,
}

/// The fixups moved `n` bytes further.
pub open spec fn shift_fixups(f: Seq<(int, Seq<char>)>, n: int) -> Seq<(int, Seq<char>)> {
    Seq::new(f.len(), |i: int| (f[i].0 + n, f[i].1))
}

/// The fixups as offsets and strings.
pub open spec fn fixups_view(f: Seq<StringFixup>) -> Seq<(int, Seq<char>)> {
    Seq::new(f.len(), |i: int| (f[i].offset as int, f[i].value@))
}

impl RelocatableTable {
    /// An empty table.
    pub fn new() -> (r: Self)
        ensures
            r.data@ == Seq::<u8>::empty(),
            r.string_fixups@ == Seq::<StringFixup>::empty(),
    {
        RelocatableTable { data: Vec::new(), string_fixups: Vec::new() }
    }
}

/// Writes the fields of one entry.
#[derive(Debug)]
pub struct EntrySerializer {
    buffer: Vec<u8>,
    string_fixups: Vec<StringFixup>,
}

impl EntrySerializer {
    /// Every fixup lies within the bytes written so far.
    pub closed spec fn wf(&self) -> bool {
        forall|i: int|
            0 <= i < self.string_fixups@.len() ==> #[trigger] self.string_fixups@[i].offset + 4
                <= self.buffer@.len()
    }

    /// The bytes written so far.
    pub closed spec fn bytes(&self) -> Seq<u8> {
        self.buffer@
    }

    /// The pointer fields written so far with a string, as offsets in the entry.
    pub closed spec fn fixups(&self) -> Seq<(int, Seq<char>)> {
        fixups_view(self.string_fixups@)
    }

    /// An empty entry.
    pub fn new() -> (r: Self)
        ensures
            r.wf(),
            r.bytes() == Seq::<u8>::empty(),
            r.fixups() == Seq::<(int, Seq<char>)>::empty(),
    {
        let r = EntrySerializer { buffer: Vec::new(), string_fixups: Vec::new() };
        assert(r.fixups() =~= Seq::<(int, Seq<char>)>::empty());
        r
    }

    /// Writes a byte.
    pub fn write_u8(&mut self, v: u8)
        requires
            old(self).wf(),
        ensures
            final(self).wf(),
            final(self).bytes() == old(self).bytes().push(v),
            final(self).fixups() == old(self).fixups(),
    {
        self.buffer.push(v);
    }

    /// Writes a big-endian `u16`.
    pub fn write_u16(&mut self, v: u16)
        requires
            old(self).wf(),
        ensures
            final(self).wf(),
            final(self).bytes() == old(self).bytes() + u16_be(v),
            final(self).fixups() == old(self).fixups(),
    {
        self.buffer.push((v >> 8u16) as u8);
        self.buffer.push((v & 0xffu16) as u8);
        assert(self.buffer@ =~= old(self).buffer@ + u16_be(v));
    }

    /// Writes a big-endian `u32`.
    pub fn write_u32(&mut self, v: u32)
        requires
            old(self).wf(),
        ensures
            final(self).wf(),
            final(self).bytes() == old(self).bytes() + u32_be(v),
            final(self).fixups() == old(self).fixups(),
    {
        crate::header::push_be_u32(&mut self.buffer, v);
    }

    /// Writes the bit pattern of an `f32`, big-endian.
    pub fn write_f32(&mut self, bits: u32)
        requires
            old(self).wf(),
        ensures
            final(self).wf(),
            final(self).bytes() == old(self).bytes() + u32_be(bits),
            final(self).fixups() == old(self).fixups(),
    {
        self.write_u32(bits)
    }

    /// Writes padding bytes.
    pub fn write_pad(&mut self, bytes: &[u8])
        requires
            old(self).wf(),
        ensures
            final(self).wf(),
            final(self).bytes() == old(self).bytes() + bytes@,
            final(self).fixups() == old(self).fixups(),
    {
        let mut i: usize = 0;
        while i < bytes.len()
            invariant
                0 <= i <= bytes@.len(),
                self.buffer@ == old(self).buffer@ + bytes@.subrange(0, i as int),
                self.string_fixups@ == old(self).string_fixups@,
                old(self).wf(),
            decreases bytes@.len() - i,
        {
            self.buffer.push(bytes[i]);
            i = i + 1;
            assert(self.buffer@ =~= old(self).buffer@ + bytes@.subrange(0, i as int));
        }
        assert(bytes@.subrange(0, bytes@.len() as int) =~= bytes@);
    }

    /// Writes a string pointer field: zero, and when `value` holds a string, a
    /// fixup that makes the field point to it.
    ///
    /// Fails with `Validation` when `value` is not a string value.
    pub fn write_string_pointer(&mut self, value: &Value) -> (r: Result<()>)
        requires
            old(self).wf(),
        ensures
            final(self).wf(),
            value@ is String ==> r is Ok && final(self).bytes() == old(self).bytes() + u32_be(0),
            value@ matches ValueView::String(None) ==> final(self).fixups() == old(self).fixups(),
            value@ matches ValueView::String(Some(t)) ==> final(self).fixups()
                == old(self).fixups().push((old(self).bytes().len() as int, t)),
            !(value@ is String) ==> (r matches Err(Error::Validation(_)) && final(self).bytes()
                == old(self).bytes() && final(self).fixups() == old(self).fixups()),
            value@ is Integer ==> (r matches Err(Error::Validation(m)) && m@
                == "string_pointer field received an Integer value"@),
            value@ is Float ==> (r matches Err(Error::Validation(m)) && m@
                == "string_pointer field received a Float value"@),
            value@ is Boolean ==> (r matches Err(Error::Validation(m)) && m@
                == "string_pointer field received an Boolean value"@),
    {
        match value {
            Value::String(None) => {
                self.write_u32(0);
                Ok(())
            },
            Value::String(Some(text)) => {
                let offset = self.buffer.len();
                self.write_u32(0);
                self.string_fixups.push(StringFixup { offset, value: text.clone() });
                assert(fixups_view(self.string_fixups@) =~= fixups_view(
                    old(self).string_fixups@,
                ).push((offset as int, text@)));
                Ok(())
            },
            Value::Integer(_) => Err(validation("string_pointer field received an Integer value")),
            Value::Float(_) => Err(validation("string_pointer field received a Float value")),
            Value::Boolean(_) => Err(validation("string_pointer field received an Boolean value")),
        }
    }

    /// Writes one field of kind `codec` holding `value`.
    ///
    /// Fails with `Validation` when `value` does not fit the kind; an integer too
    /// large for the field is reported under the name `label`. The entry is then
    /// unchanged.
    pub fn write_field(&mut self, codec: Codec, value: &Value, label: &str) -> (r: Result<()>)
        requires
            old(self).wf(),
        ensures
            final(self).wf(),
            encode_field(codec, value@) matches Some((b, s)) ==> r is Ok && final(self).bytes()
                == old(self).bytes() + b && final(self).fixups() == match s {
                None => old(self).fixups(),
                Some(t) => old(self).fixups().push((old(self).bytes().len() as int, t)),
            },
            encode_field(codec, value@) is None ==> (r matches Err(Error::Validation(m)) && m@
                == write_field_message(codec, value@, label@) && final(self).bytes() == old(self).bytes()
                && final(self).fixups() == old(self).fixups()),
    {
        match codec {
            Codec::U8 => {
                let n = value.as_integer()?;
                if n > 255 {
                    return Err(Error::Validation(String::from_str(label).concat(" exceeds u8 range")));
                }
                self.write_u8(n as u8);
                Ok(())
            },
            Codec::U8Wrapping => {
                let n = value.as_integer()?;
                self.write_u8(n as u8);
                Ok(())
            },
            Codec::U16 => {
                let n = value.as_integer()?;
                if n > 65535 {
                    return Err(Error::Validation(String::from_str(label).concat(" exceeds u16 range")));
                }
                self.write_u16(n as u16);
                Ok(())
            },
            Codec::U32 => {
                let n = value.as_integer()?;
                self.write_u32(n);
                Ok(())
            },
            Codec::F32 => {
                let bits = value.as_float()?;
                self.write_f32(bits);
                Ok(())
            },
            Codec::Bool => {
                let b = value.as_bool()?;
                self.write_u8(if b { 1u8 } else { 0u8 });
                Ok(())
            },
            Codec::StringPointer => self.write_string_pointer(value),
        }
    }

    /// Appends the entry to `table`, shifting its fixups by the entry's offset.
    ///
    /// Fails with `Validation` when the entry does not have `expected` bytes; the
    /// table is then unchanged.
    pub fn finish(self, table: &mut RelocatableTable, expected: usize) -> (r: Result<()>)
        requires
            self.wf(),
        ensures
            self.bytes().len() != expected ==> (r matches Err(Error::Validation(m)) && m@
                == "entry serialized "@ + decimal(self.bytes().len()) + " bytes, expected "@ + decimal(
                expected as nat,
            ) && final(table).data@ == old(table).data@
                && final(table).string_fixups@ == old(table).string_fixups@),
            self.bytes().len() == expected ==> r is Ok && final(table).data@ == old(table).data@
                + self.bytes() && fixups_view(final(table).string_fixups@) == fixups_view(
                old(table).string_fixups@,
            ) + shift_fixups(self.fixups(), old(table).data@.len() as int),
    {
        if self.buffer.len() != expected {
            let m = String::from_str("entry serialized ").concat(decimal_string(self.buffer.len() as u128).as_str()).concat(
                " bytes, expected ",
            ).concat(decimal_string(expected as u128).as_str());
            return Err(Error::Validation(m));
        }
        let entry_offset = table.data.len();
        let ghost old_fixups = table.string_fixups@;
        let ghost fx = self.fixups();
        crate::raw_file::extend_bytes(&mut table.data, self.buffer.as_slice());
        let EntrySerializer { buffer, string_fixups } = self;
        let mut i: usize = 0;
        while i < string_fixups.len()
            invariant
                0 <= i <= string_fixups@.len(),
                fixups_view(table.string_fixups@) == fixups_view(old_fixups) + Seq::new(
                    i as nat,
                    |k: int| (string_fixups@[k].offset + entry_offset, string_fixups@[k].value@),
                ),
                table.data.len() == entry_offset + buffer@.len(),
                table.data@ == old(table).data@ + buffer@,
                entry_offset == old(table).data@.len(),
                table.string_fixups@.len() == old_fixups.len() + i,
                forall|k: int|
                    0 <= k < string_fixups@.len() ==> #[trigger] string_fixups@[k].offset + 4
                        <= buffer@.len(),
            decreases string_fixups@.len() - i,
        {
            let f = &string_fixups[i];
            assert(f.offset + 4 <= buffer@.len());
            let ghost before = table.string_fixups@;
            let fixed = StringFixup { offset: entry_offset + f.offset, value: f.value.clone() };
            table.string_fixups.push(fixed);
            assert(table.string_fixups@ == before.push(fixed));
            proof {
                let lhs = fixups_view(table.string_fixups@);
                let prev = fixups_view(before);
                let rhs = fixups_view(old_fixups) + Seq::new(
                    (i + 1) as nat,
                    |k: int| (string_fixups@[k].offset + entry_offset, string_fixups@[k].value@),
                );
                let prev_rhs = fixups_view(old_fixups) + Seq::new(
                    i as nat,
                    |k: int| (string_fixups@[k].offset + entry_offset, string_fixups@[k].value@),
                );
                assert(prev == prev_rhs);
                assert forall|j: int| 0 <= j < lhs.len() implies lhs[j] == rhs[j] by {
                    if j < before.len() {
                        assert(lhs[j] == prev[j]);
                        assert(prev[j] == prev_rhs[j]);
                    } else {
                        assert(j == old_fixups.len() + i);
                    }
                }
                assert(lhs =~= rhs);
            }
            i = i + 1;
        }
        assert(fx == fixups_view(string_fixups@));
        assert(Seq::new(
            string_fixups@.len(),
            |k: int| (string_fixups@[k].offset + entry_offset, string_fixups@[k].value@),
        ) =~= Seq::new(fx.len(), |k: int| (fx[k].0 + entry_offset, fx[k].1)));
        Ok(())
    }
}

} // verus!
