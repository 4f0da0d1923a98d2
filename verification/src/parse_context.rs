//! What parsing a table needs to know about the file: the data blob, the
//! relocation table and where each labelled table starts.
use vstd::prelude::*;
use vstd::slice::slice_subrange;
use crate::error::{Error, Result};
use crate::relocation::RelocationTable;
use crate::sjis::shift_jis_decoded;
use crate::util::{c_string_at, debug_quoted, debug_text, resolve_string_from_raw_data, string_error};
use crate::value::validation_naming;

verus! {

/// The offset that the first entry labelled `label` gives, if any.
pub open spec fn first_offset(tables: Seq<(Seq<char>, usize)>, label: Seq<char>) -> Option<usize>
    decreases tables.len(),
{
    if tables.len() == 0 {
        None
    } else if tables[0].0 == label {
        Some(tables[0].1)
    } else {
        first_offset(tables.drop_first(), label)
    }
}

/// Labelled offsets as plain values.
pub open spec fn labelled_view(v: Seq<(String, usize)>) -> Seq<(Seq<char>, usize)> {
    Seq::new(v.len(), |i: int| (v[i].0@, v[i].1))
}

/// The string that a relocated pointer with value `raw` refers to in `data`:
/// `None` when `raw` lies past the end of `data` or the bytes are not Shift-JIS.
pub open spec fn pointed_string(data: Seq<u8>, raw: u32) -> Option<Seq<char>> {
    if raw > data.len() {
        None
    } else {
        shift_jis_decoded(c_string_at(data, raw as int))
    }
}

/// The data blob, the relocation table and the table offsets of an RLB file.
pub struct ParseContext<'a> {
    data: &'a [u8],
    relocations: &'a RelocationTable,
    table_offsets: Vec<(String, usize)>,
}

impl<'a> ParseContext<'a> {
    /// The data blob.
    pub closed spec fn data_view(&self) -> Seq<u8> {
        self.data@
    }

    /// The size of the data blob.
    pub fn data_len(&self) -> (r: usize)
        ensures
            r == self.data_view().len(),
    {
        self.data.len()
    }

    /// The relocation sites.
    pub closed spec fn relocations_view(&self) -> Seq<u32> {
        self.relocations@
    }

    /// The labelled table offsets, in the order given to `new`.
    pub closed spec fn tables_view(&self) -> Seq<(Seq<char>, usize)> {
        labelled_view(self.table_offsets@)
    }

    /// Builds the context; where a label occurs more than once, the first
    /// occurrence gives its offset.
    pub fn new(
        data: &'a [u8],
        relocations: &'a RelocationTable,
        tables: Vec<(String, usize)>,
    ) -> (r: Self)
        ensures
            r.data_view() == data@,
            r.relocations_view() == relocations@,
            r.tables_view() == labelled_view(tables@),
    {
        ParseContext { data, relocations, table_offsets: tables }
    }

    /// The `length` bytes at `offset` of the data blob.
    ///
    /// Fails with `OffsetOutOfBounds` when they do not all lie within the blob.
    pub fn bytes_at(&self, offset: usize, length: usize) -> (r: Result<&'a [u8]>)
        ensures
            self.data_view().len() <= usize::MAX,
            offset + length <= self.data_view().len() ==> (r matches Ok(b) && b@
                == self.data_view().subrange(offset as int, offset + length)),
            offset + length > self.data_view().len() ==> r == Err::<&[u8], Error>(
                Error::OffsetOutOfBounds {
                    context: "table data",
                    offset,
                    length: self.data_view().len() as usize,
                },
            ),
    {
        let len = self.data.len();
        if offset > len || length > len - offset {
            return Err(Error::OffsetOutOfBounds { context: "table data", offset, length: len });
        }
        Ok(slice_subrange(self.data, offset, offset + length))
    }

    /// Reads the NUL-terminated Shift-JIS string at `offset` of the data blob.
    pub fn resolve_string(&self, offset: u32) -> (r: Result<String>)
        ensures
            pointed_string(self.data_view(), offset) matches Some(text) ==> (r matches Ok(s)
                && s@ == text),
            pointed_string(self.data_view(), offset) is None ==> r == Err::<String, Error>(
                string_error(self.data_view().len(), offset as usize),
            ),
    {
        resolve_string_from_raw_data(self.data, offset as usize)
    }

    /// The byte at `offset` of the data blob.
    ///
    /// Fails with `OffsetOutOfBounds` when `offset` lies past the blob.
    pub fn read_u8(&self, offset: usize) -> (r: Result<u8>)
        ensures
            offset < self.data_view().len() ==> r == Ok::<u8, Error>(self.data_view()[offset as int]),
            offset >= self.data_view().len() ==> r == Err::<u8, Error>(
                Error::OffsetOutOfBounds {
                    context: "table data",
                    offset,
                    length: self.data_view().len() as usize,
                },
            ),
    {
        let b = self.bytes_at(offset, 1)?;
        Ok(b[0])
    }

    /// Whether the file lists `offset` as a pointer site.
    pub fn is_relocated(&self, offset: u32) -> (r: bool)
        ensures
            r == self.relocations_view().contains(offset),
    {
        self.relocations.is_relocated(offset)
    }

    /// Where the table labelled `label` starts.
    ///
    /// Fails with `Validation` when no table has that label.
    pub fn table_offset(&self, label: &str) -> (r: Result<usize>)
        ensures
            first_offset(self.tables_view(), label@) matches Some(o) ==> r == Ok::<usize, Error>(o),
            first_offset(self.tables_view(), label@) is None ==> (r matches Err(Error::Validation(m))
                && m@ == "RLB table entry "@ + debug_quoted(label@) + " was not found"@),
    {
        let target: String = label.to_owned();
        let mut i: usize = 0;
        let ghost tv = self.tables_view();
        assert(tv.subrange(0, tv.len() as int) =~= tv);
        while i < self.table_offsets.len()
            invariant
                0 <= i <= self.table_offsets@.len(),
                tv == labelled_view(self.table_offsets@),
                target@ == label@,
                first_offset(tv, label@) == first_offset(tv.subrange(i as int, tv.len() as int), label@),
            decreases self.table_offsets@.len() - i,
        {
            let ghost rest = tv.subrange(i as int, tv.len() as int);
            assert(rest.drop_first() =~= tv.subrange(i + 1, tv.len() as int));
            if self.table_offsets[i].0 == target {
                return Ok(self.table_offsets[i].1);
            }
            i = i + 1;
        }
        Err(validation_naming("RLB table entry ", debug_text(label).as_str(), " was not found"))
    }
}

} // verus!
