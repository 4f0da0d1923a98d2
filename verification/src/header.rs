//! The fixed-size header at the start of every RLB file.
use vstd::prelude::*;
use crate::be::{be_u32_at, lemma_be_u32_bytes, lemma_u32_be_roundtrip, u32_be};
use crate::error::{Error, Result};
use crate::raw_file::TableRecord;
use crate::util::checked_u32;

verus! {

/// The size of the header, which is also the offset of the data blob.
pub const HEADER_SIZE: u32 = 0x20;

/// The size of one entry of the relocation table.
pub const RELOCATION_ENTRY_SIZE: u32 = 4;

/// The size of one table record.
pub const ENTRY_SLOT_SIZE: u32 = 8;

/// The offset one past the last table record, for the given section sizes.
pub open spec fn spec_sections_end(
    data_size: int,
    num_relocs: int,
    num_entries: int,
    num_other_entries: int,
) -> int {
    HEADER_SIZE + data_size + num_relocs * RELOCATION_ENTRY_SIZE + (num_entries
        + num_other_entries) * ENTRY_SLOT_SIZE
}

/// The error for section lengths of which one does not fit in 32 bits: that of
/// the first such length, in the order data, relocation table, records, other
/// records, labels; `None` when all fit.
pub open spec fn lengths_error(data: nat, relocs: nat, records: nat, other_records: nat, labels: nat) -> Option<Error> {
    if data > u32::MAX {
        Some(Error::ValueTooLarge { context: "data size", value: data as usize })
    } else if relocs > u32::MAX {
        Some(Error::ValueTooLarge { context: "relocation count", value: relocs as usize })
    } else if records > u32::MAX {
        Some(Error::ValueTooLarge { context: "record count", value: records as usize })
    } else if other_records > u32::MAX {
        Some(Error::ValueTooLarge { context: "other record count", value: other_records as usize })
    } else if labels > u32::MAX {
        Some(Error::ValueTooLarge { context: "table labels size", value: labels as usize })
    } else {
        None
    }
}

/// The header as plain values.
pub struct HeaderView {
    pub file_size: u32,
    pub data_size: u32,
    pub num_relocs: u32,
    pub num_entries: u32,
    pub num_other_entries: u32,
    pub reserved: Seq<u8>,
}

impl HeaderView {
    /// Where the table records end.
    pub open spec fn sections_end(self) -> int {
        spec_sections_end(
            self.data_size as int,
            self.num_relocs as int,
            self.num_entries as int,
            self.num_other_entries as int,
        )
    }

    /// The sections that the header announces lie within the declared file size.
    pub open spec fn wf(self) -> bool {
        &&& self.sections_end() <= self.file_size
        &&& self.reserved.len() == 12
    }

    /// The 32 bytes of the header, as they stand at the start of the file.
    pub open spec fn to_bytes(self) -> Seq<u8> {
        u32_be(self.file_size) + u32_be(self.data_size) + u32_be(self.num_relocs) + u32_be(
            self.num_entries,
        ) + u32_be(self.num_other_entries) + self.reserved
    }
}

/// The header that the first 32 bytes of `b` hold.
pub open spec fn header_at(b: Seq<u8>) -> HeaderView {
    HeaderView {
        file_size: be_u32_at(b, 0),
        data_size: be_u32_at(b, 4),
        num_relocs: be_u32_at(b, 8),
        num_entries: be_u32_at(b, 12),
        num_other_entries: be_u32_at(b, 16),
        reserved: b.subrange(20, 32),
    }
}

/// Decoding the bytes of a header gives the header back, whatever follows it.
pub proof fn lemma_header_decode(h: HeaderView, rest: Seq<u8>)
    requires
        h.reserved.len() == 12,
    ensures
        h.to_bytes().len() == 32,
        header_at(h.to_bytes() + rest) == h,
{
    let b = h.to_bytes() + rest;
    lemma_u32_be_roundtrip(h.file_size);
    lemma_u32_be_roundtrip(h.data_size);
    lemma_u32_be_roundtrip(h.num_relocs);
    lemma_u32_be_roundtrip(h.num_entries);
    lemma_u32_be_roundtrip(h.num_other_entries);
    assert(b.subrange(0, 4) =~= u32_be(h.file_size));
    assert(b.subrange(4, 8) =~= u32_be(h.data_size));
    assert(b.subrange(8, 12) =~= u32_be(h.num_relocs));
    assert(b.subrange(12, 16) =~= u32_be(h.num_entries));
    assert(b.subrange(16, 20) =~= u32_be(h.num_other_entries));
    assert(b.subrange(20, 32) =~= h.reserved);
    assert(be_u32_at(b, 0) == be_u32_at(b.subrange(0, 4), 0));
    assert(be_u32_at(b, 4) == be_u32_at(b.subrange(4, 8), 0));
    assert(be_u32_at(b, 8) == be_u32_at(b.subrange(8, 12), 0));
    assert(be_u32_at(b, 12) == be_u32_at(b.subrange(12, 16), 0));
    assert(be_u32_at(b, 16) == be_u32_at(b.subrange(16, 20), 0));
}

/// Encoding the header read from a byte string gives back its first 32 bytes.
pub proof fn lemma_header_encode(b: Seq<u8>)
    requires
        b.len() >= 32,
    ensures
        header_at(b).to_bytes() == b.subrange(0, 32),
{
    lemma_be_u32_bytes(b[0], b[1], b[2], b[3]);
    lemma_be_u32_bytes(b[4], b[5], b[6], b[7]);
    lemma_be_u32_bytes(b[8], b[9], b[10], b[11]);
    lemma_be_u32_bytes(b[12], b[13], b[14], b[15]);
    lemma_be_u32_bytes(b[16], b[17], b[18], b[19]);
    assert(header_at(b).to_bytes() =~= b.subrange(0, 32));
}

/// The header of an RLB file: the declared file size and the size of each section.
#[derive(Debug, Clone, Copy)]
pub struct Header {
    file_size: u32,
    data_size: u32,
    num_relocs: u32,
    num_entries: u32,
    num_other_entries: u32,
    reserved: [u8; 12],
}

impl View for Header {
    type V = HeaderView;

    closed spec fn view(&self) -> HeaderView {
        HeaderView {
            file_size: self.file_size,
            data_size: self.data_size,
            num_relocs: self.num_relocs,
            num_entries: self.num_entries,
            num_other_entries: self.num_other_entries,
            reserved: self.reserved@,
        }
    }
}

/// Reads the big-endian `u32` at position `p` of `bytes`.
pub(crate) fn read_be_u32(bytes: &[u8], p: usize) -> (r: u32)
    requires
        p + 4 <= bytes@.len(),
    ensures
        r == be_u32_at(bytes@, p as int),
{
    ((bytes[p] as u32) << 24u32) | ((bytes[p + 1] as u32) << 16u32) | ((bytes[p + 2] as u32)
        << 8u32) | (bytes[p + 3] as u32)
}

/// Appends the big-endian form of `v` to `out`.
pub(crate) fn push_be_u32(out: &mut Vec<u8>, v: u32)
    ensures
        final(out)@ == old(out)@ + u32_be(v),
{
    out.push((v >> 24u32) as u8);
    out.push(((v >> 16u32) & 0xffu32) as u8);
    out.push(((v >> 8u32) & 0xffu32) as u8);
    out.push((v & 0xffu32) as u8);
    assert(out@ =~= old(out)@ + u32_be(v));
}

impl Header {
    #[verifier::type_invariant]
    spec fn inv(self) -> bool {
        self@.wf()
    }

    /// Reads the header from the first 32 bytes of `bytes`.
    pub(crate) fn read(bytes: &[u8]) -> (h: Header)
        requires
            bytes@.len() >= 32,
            header_at(bytes@).wf(),
        ensures
            h@ == header_at(bytes@),
    {
        let mut reserved = [0u8; 12];
        let mut i: usize = 0;
        while i < 12
            invariant
                bytes@.len() >= 32,
                0 <= i <= 12,
                reserved@.len() == 12,
                forall|j: int| 0 <= j < i ==> reserved@[j] == bytes@[20 + j],
            decreases 12 - i,
        {
            reserved[i] = bytes[20 + i];
            i = i + 1;
        }
        assert(reserved@ =~= bytes@.subrange(20, 32));
        Header {
            file_size: read_be_u32(bytes, 0),
            data_size: read_be_u32(bytes, 4),
            num_relocs: read_be_u32(bytes, 8),
            num_entries: read_be_u32(bytes, 12),
            num_other_entries: read_be_u32(bytes, 16),
            reserved,
        }
    }

    /// Appends the 32 bytes of the header to `out`.
    pub(crate) fn write(&self, out: &mut Vec<u8>)
        ensures
            final(out)@ == old(out)@ + self@.to_bytes(),
    {
        push_be_u32(out, self.file_size);
        push_be_u32(out, self.data_size);
        push_be_u32(out, self.num_relocs);
        push_be_u32(out, self.num_entries);
        push_be_u32(out, self.num_other_entries);
        let mut i: usize = 0;
        let ghost start = out@;
        while i < 12
            invariant
                0 <= i <= 12,
                self.reserved@.len() == 12,
                out@ == start + self.reserved@.subrange(0, i as int),
            decreases 12 - i,
        {
            out.push(self.reserved[i]);
            i = i + 1;
            assert(out@ =~= start + self.reserved@.subrange(0, i as int));
        }
        assert(self.reserved@.subrange(0, 12) =~= self.reserved@);
        assert(out@ =~= old(out)@ + self@.to_bytes());
    }

    /// The offset of the data blob.
    pub fn data_offset(&self) -> (r: u32)
        ensures
            r == HEADER_SIZE,
    {
        HEADER_SIZE
    }

    /// The offset of the relocation table: just after the data blob.
    pub fn reloc_offset(&self) -> (r: u32)
        ensures
            r == HEADER_SIZE + self@.data_size,
    {
        proof {
            use_type_invariant(self);
        }
        self.data_offset() + self.data_size
    }

    /// The offset of the table records: just after the relocation table.
    pub fn entries_offset(&self) -> (r: u32)
        ensures
            r == HEADER_SIZE + self@.data_size + self@.num_relocs * RELOCATION_ENTRY_SIZE,
    {
        proof {
            use_type_invariant(self);
        }
        self.reloc_offset() + self.num_relocs * RELOCATION_ENTRY_SIZE
    }

    /// The offset of the label pool: just after both lists of table records.
    pub fn table_labels_offset(&self) -> (r: u32)
        ensures
            r == self@.sections_end(),
    {
        proof {
            use_type_invariant(self);
        }
        self.entries_offset() + (self.num_entries + self.num_other_entries) * ENTRY_SLOT_SIZE
    }

    /// Builds the header that describes the given sections.
    ///
    /// Fails with `ValueTooLarge` when a section's length does not fit in 32 bits,
    /// checking the data, the relocation table, the records, the other records and
    /// the labels in that order.
    pub fn from_data(
        data: &[u8],
        relocation_table: &[u32],
        records: &[TableRecord],
        other_records: &[TableRecord],
        table_labels: &[u8],
    ) -> (r: Result<Self>)
        requires
            (data@.len() <= u32::MAX && relocation_table@.len() <= u32::MAX && records@.len()
                <= u32::MAX && other_records@.len() <= u32::MAX && table_labels@.len()
                <= u32::MAX) ==> spec_sections_end(
                data@.len() as int,
                relocation_table@.len() as int,
                records@.len() as int,
                other_records@.len() as int,
            ) + table_labels@.len() <= u32::MAX,
        ensures
            data@.len() > u32::MAX ==> (r matches Err(Error::ValueTooLarge { context, value }) && context
                == "data size" && value == data@.len()),
            data@.len() <= u32::MAX && relocation_table@.len() > u32::MAX ==> (r matches Err(
                Error::ValueTooLarge { context, value },
            ) && context == "relocation count" && value == relocation_table@.len()),
            data@.len() <= u32::MAX && relocation_table@.len() <= u32::MAX && records@.len()
                > u32::MAX ==> (r matches Err(Error::ValueTooLarge { context, value }) && context
                == "record count" && value == records@.len()),
            data@.len() <= u32::MAX && relocation_table@.len() <= u32::MAX && records@.len()
                <= u32::MAX && other_records@.len() > u32::MAX ==> (r matches Err(
                Error::ValueTooLarge { context, value },
            ) && context == "other record count" && value == other_records@.len()),
            data@.len() <= u32::MAX && relocation_table@.len() <= u32::MAX && records@.len()
                <= u32::MAX && other_records@.len() <= u32::MAX && table_labels@.len()
                > u32::MAX ==> (r matches Err(Error::ValueTooLarge { context, value }) && context
                == "table labels size" && value == table_labels@.len()),
            r is Ok <==> (data@.len() <= u32::MAX && relocation_table@.len() <= u32::MAX
                && records@.len() <= u32::MAX && other_records@.len() <= u32::MAX
                && table_labels@.len() <= u32::MAX),
            r matches Ok(h) ==> {
                &&& h@.data_size == data@.len()
                &&& h@.num_relocs == relocation_table@.len()
                &&& h@.num_entries == records@.len()
                &&& h@.num_other_entries == other_records@.len()
                &&& h@.file_size == h@.sections_end() + table_labels@.len()
                &&& h@.reserved == Seq::new(12, |i: int| 0u8)
            },
    {
        let data_size = checked_u32(data.len(), "data size")?;
        let num_relocs = checked_u32(relocation_table.len(), "relocation count")?;
        let num_entries = checked_u32(records.len(), "record count")?;
        let num_other_entries = checked_u32(other_records.len(), "other record count")?;
        let labels_size = checked_u32(table_labels.len(), "table labels size")?;

        let file_size = HEADER_SIZE + data_size + num_relocs * RELOCATION_ENTRY_SIZE + (num_entries
            + num_other_entries) * ENTRY_SLOT_SIZE + labels_size;
        let h = Header {
            file_size,
            data_size,
            num_relocs,
            num_entries,
            num_other_entries,
            reserved: [0u8; 12],
        };
        assert(h@.reserved =~= Seq::new(12, |i: int| 0u8));
        Ok(h)
    }

    /// The declared size of the whole file.
    pub fn file_size(&self) -> (r: u32)
        ensures
            r == self@.file_size,
            self@.wf(),
    {
        proof {
            use_type_invariant(self);
        }
        self.file_size
    }

    /// The size of the data blob.
    pub fn data_size(&self) -> (r: u32)
        ensures
            r == self@.data_size,
    {
        self.data_size
    }

    /// The number of entries of the relocation table.
    pub fn num_relocs(&self) -> (r: u32)
        ensures
            r == self@.num_relocs,
    {
        self.num_relocs
    }

    /// The number of table records.
    pub fn num_entries(&self) -> (r: u32)
        ensures
            r == self@.num_entries,
    {
        self.num_entries
    }

    /// The number of other table records.
    pub fn num_other_entries(&self) -> (r: u32)
        ensures
            r == self@.num_other_entries,
    {
        self.num_other_entries
    }

    /// The twelve reserved bytes at the end of the header.
    pub fn reserved(&self) -> (r: [u8; 12])
        ensures
            r@ == self@.reserved,
    {
        self.reserved
    }
}

} // verus!
