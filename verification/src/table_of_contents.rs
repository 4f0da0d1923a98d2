//! A table of contents: table records, looked up by their labels.
use vstd::prelude::*;
use crate::error::{Error, Result};
use crate::parse_context::pointed_string;
use crate::raw_file::TableRecord;
use crate::schema::str_eq;
use crate::util::{resolve_string_from_raw_data, string_error};

verus! {

/// The label of each record, read from the label pool; `None` when one cannot be read.
pub open spec fn record_labels(records: Seq<TableRecord>, labels: Seq<u8>) -> Option<Seq<Seq<char>>>
    decreases records.len(),
{
    if records.len() == 0 {
        Some(Seq::empty())
    } else {
        match record_labels(records.drop_last(), labels) {
            None => None,
            Some(ns) => match pointed_string(labels, records.last().label_offset) {
                None => None,
                Some(n) => Some(ns.push(n)),
            },
        }
    }
}

proof fn lemma_record_labels_prefix(records: Seq<TableRecord>, labels: Seq<u8>, k: int)
    requires
        0 <= k <= records.len(),
        record_labels(records, labels) is Some,
    ensures
        record_labels(records.take(k), labels) is Some,
    decreases records.len(),
{
    if k < records.len() {
        assert(records.drop_last().take(k) =~= records.take(k));
        lemma_record_labels_prefix(records.drop_last(), labels, k);
    } else {
        assert(records.take(k) =~= records);
    }
}

/// The error that reading the labels of `records` gives when one cannot be read:
/// that of the first label that cannot be read.
pub open spec fn labels_error(records: Seq<TableRecord>, labels: Seq<u8>) -> Error
    decreases records.len(),
{
    if records.len() == 0 {
        string_error(labels.len(), 0)
    } else if record_labels(records.drop_last(), labels) is None {
        labels_error(records.drop_last(), labels)
    } else {
        string_error(labels.len(), records.last().label_offset as usize)
    }
}

proof fn lemma_labels_error_prefix(records: Seq<TableRecord>, labels: Seq<u8>, k: int)
    requires
        0 <= k < records.len(),
        record_labels(records.take(k), labels) is Some,
        record_labels(records.take(k + 1), labels) is None,
    ensures
        labels_error(records, labels) == labels_error(records.take(k + 1), labels),
    decreases records.len(),
{
    if k + 1 == records.len() {
        assert(records.take(k + 1) =~= records);
    } else {
        let d = records.drop_last();
        assert(d.take(k) =~= records.take(k));
        assert(d.take(k + 1) =~= records.take(k + 1));
        lemma_labels_error_prefix(d, labels, k);
        if record_labels(d, labels) is Some {
            lemma_record_labels_prefix(d, labels, k + 1);
        }
    }
}

/// The position of the last of the first `n` names equal to `name`, if any.
pub open spec fn last_named(names: Seq<Seq<char>>, name: Seq<char>, n: int) -> Option<int>
    decreases n,
{
    if n <= 0 {
        None
    } else if names[n - 1] == name {
        Some(n - 1)
    } else {
        last_named(names, name, n - 1)
    }
}

/// Table records with their labels.
#[derive(Debug)]
pub struct TableOfContents {
    entries: Vec<TableRecord>,
    names: Vec<String>,
}

impl View for TableOfContents {
    /// The records and the label of each.
    type V = (Seq<TableRecord>, Seq<Seq<char>>);

    closed spec fn view(&self) -> (Seq<TableRecord>, Seq<Seq<char>>) {
        (self.entries@, Seq::new(self.names@.len(), |i: int| self.names@[i]@))
    }
}

impl TableOfContents {
    #[verifier::type_invariant]
    spec fn inv(self) -> bool {
        self.entries@.len() == self.names@.len()
    }

    /// Reads the label of each record from the label pool.
    ///
    /// Fails when a label cannot be read.
    pub fn new(entries: Vec<TableRecord>, labels: &[u8]) -> (r: Result<TableOfContents>)
        ensures
            record_labels(entries@, labels@) matches Some(ns) ==> (r matches Ok(t) && t@ == (
            entries@,
            ns,
        )),
            record_labels(entries@, labels@) is None ==> (r matches Err(e) && e == labels_error(entries@, labels@)),
    {
        let mut names: Vec<String> = Vec::new();
        let mut i: usize = 0;
        assert(entries@.take(0) =~= Seq::<TableRecord>::empty());
        while i < entries.len()
            invariant
                0 <= i <= entries@.len(),
                names@.len() == i,
                record_labels(entries@.take(i as int), labels@) == Some(
                    Seq::new(names@.len(), |k: int| names@[k]@),
                ),
            decreases entries@.len() - i,
        {
            assert(entries@.take(i + 1).drop_last() =~= entries@.take(i as int));
            assert(entries@.take(i + 1).last() == entries@[i as int]);
            let name = match resolve_string_from_raw_data(labels, entries[i].label_offset as usize) {
                Ok(n) => n,
                Err(e) => {
                    proof {
                        if record_labels(entries@, labels@) is Some {
                            lemma_record_labels_prefix(entries@, labels@, i + 1);
                        }
                        lemma_labels_error_prefix(entries@, labels@, i as int);
                    }
                    return Err(e);
                },
            };
            let ghost before = Seq::new(names@.len(), |k: int| names@[k]@);
            names.push(name);
            assert(Seq::new(names@.len(), |k: int| names@[k]@) =~= before.push(name@));
            i = i + 1;
        }
        assert(entries@.take(entries@.len() as int) =~= entries@);
        Ok(TableOfContents { entries, names })
    }

    /// The number of records.
    pub fn len(&self) -> (r: usize)
        ensures
            r == self@.0.len(),
    {
        self.entries.len()
    }

    /// Whether there are no records.
    pub fn is_empty(&self) -> (r: bool)
        ensures
            r == (self@.0.len() == 0),
    {
        self.entries.len() == 0
    }

    /// The records, in order.
    pub fn iter(&self) -> (r: &[TableRecord])
        ensures
            r@ == self@.0,
    {
        self.entries.as_slice()
    }

    /// The record labelled `name`; where several are, the last of them.
    pub fn find_by_name(&self, name: &str) -> (r: Option<&TableRecord>)
        ensures
            last_named(self@.1, name@, self@.1.len() as int) matches Some(i) ==> (r matches Some(
                e,
            ) && *e == self@.0[i]),
            last_named(self@.1, name@, self@.1.len() as int) is None ==> r is None,
    {
        proof {
            use_type_invariant(self);
        }
        let ghost ns = self@.1;
        let mut n = self.names.len();
        while n > 0
            invariant
                ns == self@.1,
                self.entries@.len() == self.names@.len(),
                0 <= n <= self.names@.len(),
                last_named(ns, name@, ns.len() as int) == last_named(ns, name@, n as int),
            decreases n,
        {
            assert(ns[n - 1] == self.names@[n - 1]@);
            if str_eq(self.names[n - 1].as_str(), name) {
                return Some(&self.entries[n - 1]);
            }
            n = n - 1;
        }
        None
    }
}

} // verus!
