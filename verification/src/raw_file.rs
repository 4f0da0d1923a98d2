//! The container layout of an RLB file: a header, the data blob, the relocation
//! table, the table records, the other table records and the label pool, one
//! after the other and all big-endian.
use vstd::prelude::*;
use vstd::slice::{slice_subrange, slice_to_vec};
use crate::be::{
    be_u32_at, be_u32s_at, lemma_be_u32_bytes, lemma_be_u32s_encode, lemma_u32_be_roundtrip,
    lemma_u32s_be_decode, lemma_u32s_be_index, u32_be, u32s_be,
};
use crate::error::{Error, Result};
use crate::header::{
    header_at, lemma_header_decode, lemma_header_encode, push_be_u32, read_be_u32, Header,
    HeaderView, lengths_error, spec_sections_end,
};

verus! {

/// A table record: where a table starts in the data blob and where its label
/// starts in the label pool.
#[derive(Debug, Clone, Copy, PartialEq, Eq, Structural)]
pub struct TableRecord {
    pub address: u32,
    pub label_offset: u32,
}

/// The eight bytes of a table record.
pub open spec fn record_be(r: TableRecord) -> Seq<u8> {
    u32_be(r.address) + u32_be(r.label_offset)
}

/// The bytes of the records of `s`, one after the other.
pub open spec fn records_be(s: Seq<TableRecord>) -> Seq<u8>
    decreases s.len(),
{
    if s.len() == 0 {
        Seq::empty()
    } else {
        records_be(s.drop_last()) + record_be(s.last())
    }
}

/// The table record stored at position `p` of `b`.
pub open spec fn record_at(b: Seq<u8>, p: int) -> TableRecord {
    TableRecord { address: be_u32_at(b, p), label_offset: be_u32_at(b, p + 4) }
}

/// The `n` table records stored one after the other from position `start` of `b`.
pub open spec fn records_at(b: Seq<u8>, start: int, n: nat) -> Seq<TableRecord> {
    Seq::new(n, |i: int| record_at(b, start + 8 * i))
}

proof fn lemma_records_be_index(s: Seq<TableRecord>)
    ensures
        records_be(s).len() == 8 * s.len(),
        forall|i: int, k: int|
            #![trigger records_be(s)[8 * i + k]]
            0 <= i < s.len() && 0 <= k < 8 ==> records_be(s)[8 * i + k] == record_be(s[i])[k],
    decreases s.len(),
{
    if s.len() > 0 {
        lemma_records_be_index(s.drop_last());
        let p = s.drop_last();
        lemma_u32_be_roundtrip(s.last().address);
        lemma_u32_be_roundtrip(s.last().label_offset);
        assert forall|i: int, k: int| 0 <= i < s.len() && 0 <= k < 8 implies #[trigger] records_be(
            s,
        )[8 * i + k] == record_be(s[i])[k] by {
            if i < s.len() - 1 {
                assert(records_be(p)[8 * i + k] == record_be(p[i])[k]);
            }
        }
    }
}

proof fn lemma_records_be_decode(s: Seq<TableRecord>, before: Seq<u8>, after: Seq<u8>)
    ensures
        records_at(before + records_be(s) + after, before.len() as int, s.len()) == s,
{
    lemma_records_be_index(s);
    let b = before + records_be(s) + after;
    assert forall|i: int| 0 <= i < s.len() implies #[trigger] records_at(
        b,
        before.len() as int,
        s.len(),
    )[i] == s[i] by {
        let p = before.len() + 8 * i;
        lemma_u32_be_roundtrip(s[i].address);
        lemma_u32_be_roundtrip(s[i].label_offset);
        assert(b[p] == records_be(s)[8 * i + 0]);
        assert(b[p + 1] == records_be(s)[8 * i + 1]);
        assert(b[p + 2] == records_be(s)[8 * i + 2]);
        assert(b[p + 3] == records_be(s)[8 * i + 3]);
        assert(b[p + 4] == records_be(s)[8 * i + 4]);
        assert(b[p + 5] == records_be(s)[8 * i + 5]);
        assert(b[p + 6] == records_be(s)[8 * i + 6]);
        assert(b[p + 7] == records_be(s)[8 * i + 7]);
    }
    assert(records_at(b, before.len() as int, s.len()) =~= s);
}

proof fn lemma_records_at_encode(b: Seq<u8>, start: int, n: nat)
    requires
        0 <= start,
        start + 8 * n <= b.len(),
    ensures
        records_be(records_at(b, start, n)) == b.subrange(start, start + 8 * n),
    decreases n,
{
    if n > 0 {
        let m = (n - 1) as nat;
        lemma_records_at_encode(b, start, m);
        let s = records_at(b, start, n);
        assert(s.drop_last() =~= records_at(b, start, m));
        let p = start + 8 * m;
        lemma_be_u32_bytes(b[p], b[p + 1], b[p + 2], b[p + 3]);
        lemma_be_u32_bytes(b[p + 4], b[p + 5], b[p + 6], b[p + 7]);
        assert(b.subrange(start, start + 8 * n) =~= b.subrange(start, p) + seq![
            b[p],
            b[p + 1],
            b[p + 2],
            b[p + 3],
        ] + seq![b[p + 4], b[p + 5], b[p + 6], b[p + 7]]);
    }
}

/// An RLB file's container as plain values.
pub struct RawFileView {
    pub header: HeaderView,
    pub data: Seq<u8>,
    pub relocation_table: Seq<u32>,
    pub records: Seq<TableRecord>,
    pub other_records: Seq<TableRecord>,
    pub table_labels: Seq<u8>,
}

impl RawFileView {
    /// The header describes the sections exactly.
    pub open spec fn wf(self) -> bool {
        &&& self.header.wf()
        &&& self.header.data_size == self.data.len()
        &&& self.header.num_relocs == self.relocation_table.len()
        &&& self.header.num_entries == self.records.len()
        &&& self.header.num_other_entries == self.other_records.len()
        &&& self.header.file_size == self.header.sections_end() + self.table_labels.len()
    }

    /// The bytes of the file.
    pub open spec fn to_bytes(self) -> Seq<u8> {
        self.header.to_bytes() + self.data + u32s_be(self.relocation_table) + records_be(
            self.records,
        ) + records_be(self.other_records) + self.table_labels
    }
}

/// `b` holds a whole RLB container: the size its header declares is its own
/// size, and the sections the header announces fit in it.
pub open spec fn is_rlb_layout(b: Seq<u8>) -> bool {
    &&& b.len() >= 32
    &&& be_u32_at(b, 0) == b.len()
    &&& header_at(b).sections_end() <= b.len()
}

/// The container that `b` holds, read section by section.
pub open spec fn rlb_layout_of(b: Seq<u8>) -> RawFileView {
    let h = header_at(b);
    let relocs_start = 32 + h.data_size;
    let records_start = relocs_start + 4 * h.num_relocs;
    let other_start = records_start + 8 * h.num_entries;
    let labels_start = other_start + 8 * h.num_other_entries;
    RawFileView {
        header: h,
        data: b.subrange(32, relocs_start),
        relocation_table: be_u32s_at(b, relocs_start, h.num_relocs as nat),
        records: records_at(b, records_start, h.num_entries as nat),
        other_records: records_at(b, other_start, h.num_other_entries as nat),
        table_labels: b.subrange(labels_start, b.len() as int),
    }
}

/// Reading a container and writing it back gives the same bytes.
pub proof fn lemma_parse_then_write(b: Seq<u8>)
    requires
        is_rlb_layout(b),
    ensures
        rlb_layout_of(b).wf(),
        rlb_layout_of(b).to_bytes() == b,
{
    let h = header_at(b);
    let v = rlb_layout_of(b);
    let r0 = 32 + h.data_size;
    let e0 = r0 + 4 * h.num_relocs;
    let o0 = e0 + 8 * h.num_entries;
    let l0 = o0 + 8 * h.num_other_entries;
    lemma_header_encode(b);
    lemma_be_u32s_encode(b, r0, h.num_relocs as nat);
    lemma_records_at_encode(b, e0, h.num_entries as nat);
    lemma_records_at_encode(b, o0, h.num_other_entries as nat);
    assert(b =~= b.subrange(0, 32) + b.subrange(32, r0) + b.subrange(r0, e0) + b.subrange(e0, o0)
        + b.subrange(o0, l0) + b.subrange(l0, b.len() as int));
}

/// Writing a well-formed container and reading it back gives the same container.
#[verifier::rlimit(40)]
pub proof fn lemma_write_then_parse(v: RawFileView)
    requires
        v.wf(),
    ensures
        is_rlb_layout(v.to_bytes()),
        rlb_layout_of(v.to_bytes()) == v,
{
    let hb = v.header.to_bytes();
    let rb = u32s_be(v.relocation_table);
    let eb = records_be(v.records);
    let ob = records_be(v.other_records);
    let b = v.to_bytes();
    lemma_u32s_be_index(v.relocation_table);
    lemma_records_be_index(v.records);
    lemma_records_be_index(v.other_records);
    assert(header_at(b) == v.header && be_u32_at(b, 0) == v.header.file_size) by {
        lemma_header_decode(v.header, b.subrange(32, b.len() as int));
        assert(b =~= hb + b.subrange(32, b.len() as int));
        lemma_u32_be_roundtrip(v.header.file_size);
        assert(b.subrange(0, 4) =~= u32_be(v.header.file_size));
        assert(be_u32_at(b, 0) == be_u32_at(b.subrange(0, 4), 0));
    }
    assert(b.len() == v.header.file_size);
    let w = rlb_layout_of(b);
    assert(w.relocation_table == v.relocation_table) by {
        lemma_u32s_be_decode(v.relocation_table, hb + v.data, eb + ob + v.table_labels);
        assert(b =~= (hb + v.data) + rb + (eb + ob + v.table_labels));
    }
    assert(w.records == v.records) by {
        lemma_records_be_decode(v.records, hb + v.data + rb, ob + v.table_labels);
        assert(b =~= (hb + v.data + rb) + eb + (ob + v.table_labels));
    }
    assert(w.other_records == v.other_records) by {
        lemma_records_be_decode(v.other_records, hb + v.data + rb + eb, v.table_labels);
        assert(b =~= (hb + v.data + rb + eb) + ob + v.table_labels);
    }
    assert(w.data =~= v.data);
    assert(w.table_labels =~= v.table_labels);
}

/// An RLB file's container: the header and the five sections it announces.
#[derive(Debug)]
pub struct RawFile {
    header: Header,
    data: Vec<u8>,
    relocation_table: Vec<u32>,
    records: Vec<TableRecord>,
    other_records: Vec<TableRecord>,
    table_labels: Vec<u8>,
}

impl View for RawFile {
    type V = RawFileView;

    closed spec fn view(&self) -> RawFileView {
        RawFileView {
            header: self.header@,
            data: self.data@,
            relocation_table: self.relocation_table@,
            records: self.records@,
            other_records: self.other_records@,
            table_labels: self.table_labels@,
        }
    }
}

/// Reads `n` big-endian `u32`s from position `start` of `bytes`.
fn read_u32s(bytes: &[u8], start: usize, n: usize) -> (r: Vec<u32>)
    requires
        start + 4 * n <= bytes@.len(),
    ensures
        r@ == be_u32s_at(bytes@, start as int, n as nat),
{
    let mut out: Vec<u32> = Vec::new();
    let mut i: usize = 0;
    let len = bytes.len();
    while i < n
        invariant
            len == bytes@.len(),
            start + 4 * n <= bytes@.len(),
            0 <= i <= n,
            out@ == be_u32s_at(bytes@, start as int, i as nat),
        decreases n - i,
    {
        assert(start + 4 * i + 4 <= start + 4 * n);
        out.push(read_be_u32(bytes, start + 4 * i));
        i = i + 1;
        assert(out@ =~= be_u32s_at(bytes@, start as int, i as nat));
    }
    out
}

/// Reads `n` table records from position `start` of `bytes`.
fn read_records(bytes: &[u8], start: usize, n: usize) -> (r: Vec<TableRecord>)
    requires
        start + 8 * n <= bytes@.len(),
    ensures
        r@ == records_at(bytes@, start as int, n as nat),
{
    let mut out: Vec<TableRecord> = Vec::new();
    let mut i: usize = 0;
    let len = bytes.len();
    while i < n
        invariant
            len == bytes@.len(),
            start + 8 * n <= bytes@.len(),
            0 <= i <= n,
            out@ == records_at(bytes@, start as int, i as nat),
        decreases n - i,
    {
        assert(start + 8 * i + 8 <= start + 8 * n);
        let p = start + 8 * i;
        out.push(TableRecord { address: read_be_u32(bytes, p), label_offset: read_be_u32(bytes, p + 4) });
        i = i + 1;
        assert(out@ =~= records_at(bytes@, start as int, i as nat));
    }
    out
}

/// Appends the bytes of `s` to `out`.
pub(crate) fn extend_bytes(out: &mut Vec<u8>, s: &[u8])
    ensures
        final(out)@ == old(out)@ + s@,
{
    let mut i: usize = 0;
    while i < s.len()
        invariant
            0 <= i <= s@.len(),
            out@ == old(out)@ + s@.subrange(0, i as int),
        decreases s@.len() - i,
    {
        out.push(s[i]);
        i = i + 1;
        assert(out@ =~= old(out)@ + s@.subrange(0, i as int));
    }
    assert(s@.subrange(0, s@.len() as int) =~= s@);
}

/// Appends the big-endian forms of the `u32`s of `s` to `out`.
fn push_u32s(out: &mut Vec<u8>, s: &[u32])
    ensures
        final(out)@ == old(out)@ + u32s_be(s@),
{
    let mut i: usize = 0;
    while i < s.len()
        invariant
            0 <= i <= s@.len(),
            out@ == old(out)@ + u32s_be(s@.subrange(0, i as int)),
        decreases s@.len() - i,
    {
        push_be_u32(out, s[i]);
        i = i + 1;
        assert(s@.subrange(0, i as int).drop_last() =~= s@.subrange(0, i - 1));
        assert(out@ =~= old(out)@ + u32s_be(s@.subrange(0, i as int)));
    }
    assert(s@.subrange(0, s@.len() as int) =~= s@);
}

/// Appends the bytes of the table records of `s` to `out`.
fn push_records(out: &mut Vec<u8>, s: &[TableRecord])
    ensures
        final(out)@ == old(out)@ + records_be(s@),
{
    let mut i: usize = 0;
    while i < s.len()
        invariant
            0 <= i <= s@.len(),
            out@ == old(out)@ + records_be(s@.subrange(0, i as int)),
        decreases s@.len() - i,
    {
        push_be_u32(out, s[i].address);
        push_be_u32(out, s[i].label_offset);
        i = i + 1;
        assert(s@.subrange(0, i as int).drop_last() =~= s@.subrange(0, i - 1));
        assert(out@ =~= old(out)@ + records_be(s@.subrange(0, i as int)));
    }
    assert(s@.subrange(0, s@.len() as int) =~= s@);
}

impl RawFile {
    #[verifier::type_invariant]
    spec fn inv(self) -> bool {
        self@.wf()
    }

    /// Reads an RLB container from `bytes`.
    ///
    /// Fails with `UnexpectedEof` when `bytes` is too short to hold the declared
    /// file size, with `InvalidFileSize` when the declared size is not the size of
    /// `bytes`, and with `UnexpectedEof` when the header or the sections it
    /// announces do not fit in `bytes`. Everything after the table records is
    /// the label pool.
    pub fn parse(bytes: &[u8]) -> (r: Result<Self>)
        ensures
            bytes@.len() < 4 ==> r == Err::<RawFile, Error>(Error::UnexpectedEof { context: "file_size" }),
            bytes@.len() >= 4 && be_u32_at(bytes@, 0) != bytes@.len() ==> r == Err::<
                RawFile,
                Error,
            >(Error::InvalidFileSize { expected: be_u32_at(bytes@, 0), actual: bytes@.len() as u64 }),
            bytes@.len() >= 4 && be_u32_at(bytes@, 0) == bytes@.len() && !is_rlb_layout(bytes@)
                ==> r == Err::<RawFile, Error>(Error::UnexpectedEof { context: "RLB file layout" }),
            r is Ok <==> is_rlb_layout(bytes@),
            r matches Ok(f) ==> f@ == rlb_layout_of(bytes@),
            r matches Ok(f) ==> f@.to_bytes() == bytes@,
    {
        if bytes.len() < 4 {
            return Err(Error::UnexpectedEof { context: "file_size" });
        }
        let declared = read_be_u32(bytes, 0);
        if declared as usize != bytes.len() {
            return Err(
                Error::InvalidFileSize { expected: declared, actual: bytes.len() as u64 },
            );
        }
        if bytes.len() < 32 {
            return Err(Error::UnexpectedEof { context: "RLB file layout" });
        }
        let data_size = read_be_u32(bytes, 4);
        let num_relocs = read_be_u32(bytes, 8);
        let num_entries = read_be_u32(bytes, 12);
        let num_other_entries = read_be_u32(bytes, 16);
        let end: u64 = 32u64 + data_size as u64 + 4u64 * num_relocs as u64 + 8u64 * (
        num_entries as u64 + num_other_entries as u64);
        if end > bytes.len() as u64 {
            return Err(Error::UnexpectedEof { context: "RLB file layout" });
        }
        let header = Header::read(bytes);
        let relocs_start = 32 + data_size as usize;
        let records_start = relocs_start + 4 * num_relocs as usize;
        let other_start = records_start + 8 * num_entries as usize;
        let labels_start = other_start + 8 * num_other_entries as usize;
        let data = slice_to_vec(slice_subrange(bytes, 32, relocs_start));
        let relocation_table = read_u32s(bytes, relocs_start, num_relocs as usize);
        let records = read_records(bytes, records_start, num_entries as usize);
        let other_records = read_records(bytes, other_start, num_other_entries as usize);
        let table_labels = slice_to_vec(slice_subrange(bytes, labels_start, bytes.len()));
        proof {
            lemma_parse_then_write(bytes@);
        }
        Ok(RawFile { header, data, relocation_table, records, other_records, table_labels })
    }

    /// Builds a container around the given sections, with a header that describes
    /// them and reserved bytes set to zero.
    ///
    /// Fails with `ValueTooLarge` when a section's length does not fit in 32 bits.
    pub fn new(
        data: Vec<u8>,
        relocation_table: Vec<u32>,
        records: Vec<TableRecord>,
        other_records: Vec<TableRecord>,
        table_labels: Vec<u8>,
    ) -> (r: Result<Self>)
        requires
            (data@.len() <= u32::MAX && relocation_table@.len() <= u32::MAX && records@.len()
                <= u32::MAX && other_records@.len() <= u32::MAX && table_labels@.len()
                <= u32::MAX) ==> spec_sections_end(
                data@.len() as int,
                relocation_table@.len() as int,
                records@.len() as int,
                other_records@.len() as int,
            ) + table_labels@.len() <= u32::MAX,
        ensures
            r is Ok <==> (data@.len() <= u32::MAX && relocation_table@.len() <= u32::MAX
                && records@.len() <= u32::MAX && other_records@.len() <= u32::MAX
                && table_labels@.len() <= u32::MAX),
            lengths_error(
                data@.len(),
                relocation_table@.len(),
                records@.len(),
                other_records@.len(),
                table_labels@.len(),
            ) matches Some(e) ==> r == Err::<RawFile, Error>(e),
            r matches Ok(f) ==> {
                &&& f@.wf()
                &&& f@.data == data@
                &&& f@.relocation_table == relocation_table@
                &&& f@.records == records@
                &&& f@.other_records == other_records@
                &&& f@.table_labels == table_labels@
                &&& f@.header.reserved == Seq::new(12, |i: int| 0u8)
            },
    {
        let header = Header::from_data(
            data.as_slice(),
            relocation_table.as_slice(),
            records.as_slice(),
            other_records.as_slice(),
            table_labels.as_slice(),
        );
        let header = match header {
            Ok(h) => h,
            Err(e) => return Err(e),
        };
        Ok(RawFile { header, data, relocation_table, records, other_records, table_labels })
    }

    /// Writes the container: the header followed by each section.
    pub fn serialize_custom(&self) -> (r: Result<Vec<u8>>)
        ensures
            r matches Ok(b) && b@ == self@.to_bytes(),
            r matches Ok(b) && b@.len() == self@.header.file_size,
            self@.wf(),
    {
        proof {
            use_type_invariant(self);
            lemma_write_then_parse(self@);
        }
        let mut out: Vec<u8> = Vec::new();
        self.header.write(&mut out);
        extend_bytes(&mut out, self.data.as_slice());
        push_u32s(&mut out, self.relocation_table.as_slice());
        push_records(&mut out, self.records.as_slice());
        push_records(&mut out, self.other_records.as_slice());
        extend_bytes(&mut out, self.table_labels.as_slice());
        assert(out@ =~= self@.to_bytes());
        Ok(out)
    }

    /// The header.
    pub fn header(&self) -> (r: &Header)
        ensures
            r@ == self@.header,
            self@.wf(),
    {
        proof {
            use_type_invariant(self);
        }
        &self.header
    }

    /// The data blob.
    pub fn data(&self) -> (r: &Vec<u8>)
        ensures
            r@ == self@.data,
    {
        &self.data
    }

    /// The relocation table: the offsets in the data blob that hold pointers.
    pub fn relocation_table(&self) -> (r: &Vec<u32>)
        ensures
            r@ == self@.relocation_table,
    {
        &self.relocation_table
    }

    /// The table records.
    pub fn records(&self) -> (r: &Vec<TableRecord>)
        ensures
            r@ == self@.records,
    {
        &self.records
    }

    /// The other table records.
    pub fn other_records(&self) -> (r: &Vec<TableRecord>)
        ensures
            r@ == self@.other_records,
    {
        &self.other_records
    }

    /// The label pool.
    pub fn table_labels(&self) -> (r: &Vec<u8>)
        ensures
            r@ == self@.table_labels,
    {
        &self.table_labels
    }
}

} // verus!
