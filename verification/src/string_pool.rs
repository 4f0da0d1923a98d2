//! The pool of NUL-terminated Shift-JIS strings that tables point into.
use vstd::prelude::*;
use crate::error::{Error, Result};
use crate::sjis::{ascii_bytes, encode_shift_jis, is_ascii_text, shift_jis_encoded};
use crate::util::c_string_at;

verus! {

/// The pool as plain values: its bytes, and the offset of each interned string.
pub struct StringPoolView {
    pub data: Seq<u8>,
    pub offsets: Map<Seq<char>, usize>,
}

impl StringPoolView {
    /// Each interned string is stored at its offset, encoded and followed by a NUL.
    pub open spec fn stores(self, text: Seq<char>) -> bool {
        &&& self.offsets.contains_key(text)
        &&& shift_jis_encoded(text) is Some
        &&& {
            let bytes = shift_jis_encoded(text).unwrap();
            let off = self.offsets[text] as int;
            &&& off + bytes.len() < self.data.len()
            &&& self.data.subrange(off, off + bytes.len()) == bytes
            &&& self.data[off + bytes.len()] == 0
            &&& is_ascii_text(text) ==> bytes == ascii_bytes(text)
        }
    }

    pub open spec fn wf(self) -> bool {
        forall|text: Seq<char>| #[trigger] self.offsets.contains_key(text) ==> self.stores(text)
    }
}

/// A pool of strings, each stored once, encoded as Shift-JIS and NUL-terminated.
pub struct StringPool {
    data: Vec<u8>,
    strings: Vec<String>,
    offsets: Vec<usize>,
    model: Ghost<Map<Seq<char>, usize>>,
}

impl View for StringPool {
    type V = StringPoolView;

    closed spec fn view(&self) -> StringPoolView {
        StringPoolView { data: self.data@, offsets: self.model@ }
    }
}

impl StringPool {
    /// The vectors agree with the modelled map, and the map is well formed.
    pub closed spec fn inv(self) -> bool {
        &&& self.strings@.len() == self.offsets@.len()
        &&& forall|i: int|
            0 <= i < self.strings@.len() ==> #[trigger] self.model@.contains_key(self.strings@[i]@)
                && self.model@[self.strings@[i]@] == self.offsets@[i]
        &&& forall|text: Seq<char>| #[trigger]
            self.model@.contains_key(text) ==> exists|i: int|
                0 <= i < self.strings@.len() && #[trigger] self.strings@[i]@ == text
        &&& self@.wf()
    }

    /// An empty pool.
    pub fn new() -> (r: Self)
        ensures
            r.inv(),
            r@.data == Seq::<u8>::empty(),
            r@.offsets == Map::<Seq<char>, usize>::empty(),
    {
        StringPool {
            data: Vec::new(),
            strings: Vec::new(),
            offsets: Vec::new(),
            model: Ghost(Map::empty()),
        }
    }

    /// A pool satisfying its invariant is well formed.
    pub proof fn lemma_wf(&self)
        requires
            self.inv(),
        ensures
            self@.wf(),
    {
    }

    /// The offset of `value` when it has been interned.
    pub fn offset_of(&self, value: &str) -> (r: Option<usize>)
        requires
            self.inv(),
        ensures
            self@.offsets.contains_key(value@) ==> r == Some(self@.offsets[value@]),
            !self@.offsets.contains_key(value@) ==> r is None,
    {
        let target: String = value.to_owned();
        let mut i: usize = 0;
        while i < self.strings.len()
            invariant
                self.inv(),
                0 <= i <= self.strings@.len(),
                target@ == value@,
                forall|j: int| 0 <= j < i ==> self.strings@[j]@ != value@,
            decreases self.strings@.len() - i,
        {
            if self.strings[i] == target {
                return Some(self.offsets[i]);
            }
            i = i + 1;
        }
        None
    }

    /// Stores `value` in the pool unless it is already there, and returns its offset.
    ///
    /// Fails with `InvalidUtf8` when `value` cannot be encoded as Shift-JIS; the
    /// pool is then unchanged.
    pub fn intern(&mut self, value: &str) -> (r: Result<usize>)
        requires
            old(self).inv(),
        ensures
            final(self).inv(),
            old(self)@.offsets.contains_key(value@) ==> r == Ok::<usize, Error>(
                old(self)@.offsets[value@],
            ),
            old(self)@.offsets.contains_key(value@) ==> final(self)@ == old(self)@,
            !old(self)@.offsets.contains_key(value@) && shift_jis_encoded(value@) is None ==> r
                == Err::<usize, Error>(
                Error::InvalidUtf8 {
                    context: "serializing string pool (Shift-JIS encode failed)",
                    offset: old(self)@.data.len() as usize,
                },
            ),
            r is Err ==> final(self)@ == old(self)@,
            !old(self)@.offsets.contains_key(value@) && shift_jis_encoded(value@) is Some ==> r
                == Ok::<usize, Error>(old(self)@.data.len() as usize),
            !old(self)@.offsets.contains_key(value@) && shift_jis_encoded(value@) is Some
                ==> final(self)@.data == old(self)@.data + shift_jis_encoded(value@).unwrap()
                + seq![0u8],
            !old(self)@.offsets.contains_key(value@) && shift_jis_encoded(value@) is Some
                ==> final(self)@.offsets == old(self)@.offsets.insert(
                value@,
                old(self)@.data.len() as usize,
            ),
    {
        if let Some(offset) = self.offset_of(value) {
            return Ok(offset);
        }
        let offset = self.data.len();
        let encoded = match encode_shift_jis(value) {
            Some(bytes) => bytes,
            None => {
                return Err(
                    Error::InvalidUtf8 {
                        context: "serializing string pool (Shift-JIS encode failed)",
                        offset,
                    },
                );
            },
        };
        let ghost old_data = self.data@;
        let mut data: Vec<u8> = Vec::new();
        std::mem::swap(&mut data, &mut self.data);
        let mut k: usize = 0;
        while k < encoded.len()
            invariant
                0 <= k <= encoded@.len(),
                data@ == old_data + encoded@.subrange(0, k as int),
            decreases encoded@.len() - k,
        {
            data.push(encoded[k]);
            k = k + 1;
            assert(data@ =~= old_data + encoded@.subrange(0, k as int));
        }
        assert(encoded@.subrange(0, encoded@.len() as int) =~= encoded@);
        data.push(0u8);
        let mut strings: Vec<String> = Vec::new();
        std::mem::swap(&mut strings, &mut self.strings);
        let mut offsets: Vec<usize> = Vec::new();
        std::mem::swap(&mut offsets, &mut self.offsets);
        let ghost old_strings = strings@;
        let ghost old_model = self.model@;
        strings.push(value.to_owned());
        offsets.push(offset);
        let ghost new_model = old_model.insert(value@, offset);
        proof {
            let nd = data@;
            assert forall|text: Seq<char>| #[trigger] new_model.contains_key(text) implies (
            StringPoolView { data: nd, offsets: new_model }).stores(text) by {
                if text == value@ {
                    assert(nd.subrange(offset as int, offset + encoded@.len()) =~= encoded@);
                } else {
                    assert((StringPoolView { data: old_data, offsets: old_model }).stores(text));
                    let bytes = shift_jis_encoded(text).unwrap();
                    let off = old_model[text] as int;
                    assert(nd.subrange(off, off + bytes.len()) =~= old_data.subrange(
                        off,
                        off + bytes.len(),
                    ));
                }
            }
            assert forall|text: Seq<char>| #[trigger] new_model.contains_key(text) implies exists|
                i: int,
            | 0 <= i < strings@.len() && #[trigger] strings@[i]@ == text by {
                if text == value@ {
                    assert(strings@[strings@.len() - 1]@ == text);
                } else {
                    let i = choose|i: int| 0 <= i < old_strings.len() && #[trigger] old_strings[i]@ == text;
                    assert(strings@[i]@ == text);
                }
            }
            assert forall|i: int| 0 <= i < strings@.len() implies #[trigger] new_model.contains_key(
                strings@[i]@,
            ) && new_model[strings@[i]@] == offsets@[i] by {
                if i < old_strings.len() {
                    assert(strings@[i] == old_strings[i]);
                }
            }
        }
        *self = StringPool { data, strings, offsets, model: Ghost(new_model) };
        Ok(offset)
    }

    /// The bytes of the pool.
    pub fn data(&self) -> (r: &[u8])
        ensures
            r@ == self@.data,
    {
        self.data.as_slice()
    }
}

/// A string that the pool stores, and that is ASCII without NUL characters, reads
/// back from its offset as its own bytes: resolving the offset gives the string.
pub proof fn lemma_interned_ascii_reads_back(pool: StringPoolView, text: Seq<char>)
    requires
        pool.wf(),
        pool.offsets.contains_key(text),
        is_ascii_text(text),
        forall|i: int| 0 <= i < text.len() ==> (#[trigger] text[i] as u32) != 0,
    ensures
        c_string_at(pool.data, pool.offsets[text] as int) == ascii_bytes(text),
{
    assert(pool.stores(text));
    let bytes = ascii_bytes(text);
    let off = pool.offsets[text] as int;
    let tail = pool.data.subrange(off, pool.data.len() as int);
    assert forall|k: int| 0 <= k < bytes.len() implies tail[k] != 0 by {
        assert(tail[k] == pool.data.subrange(off, off + bytes.len())[k]);
        assert(bytes[k] == (text[k] as u32) as u8);
        assert((text[k] as u32) != 0 && (text[k] as u32) < 0x80);
    }
    crate::util::lemma_c_string_prefix(tail, bytes.len() as int);
    assert(tail.subrange(0, bytes.len() as int) =~= bytes);
}

} // verus!
