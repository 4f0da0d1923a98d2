//! A whole RLB file: its tables, and the two tables of contents that list them
//! under their labels.
use vstd::prelude::*;
use vstd::slice::slice_to_vec;
use crate::collection::{
    collection_set_field, collection_set_message, empty_pool, table_id_string, table_id_text, serialize_fails_with, serialize_tables, spec_intern, SerializedTableContext,
    TableCollection, TableId,
};
use crate::error::{Error, Result};
use crate::field::FieldDescriptor;
use crate::header::{lengths_error, spec_sections_end, HeaderView};
use crate::parse_context::{labelled_view, pointed_string, ParseContext};
use crate::raw_file::{is_rlb_layout, rlb_layout_of, lemma_write_then_parse, RawFile, RawFileView, TableRecord};
use crate::relocation::RelocationTable;
use crate::schema::{spec_schema_for_name, spec_slots};
use crate::string_pool::{StringPool, StringPoolView};
use crate::table::{decode_table, descriptor_list, table_fails_with, Table, TableModel};
use crate::entry::value_position;
use crate::util::{checked_u32, debug_text, resolve_string_from_raw_data, string_error};
use crate::be::be_u32_at;
use crate::value::{validation_naming, Value, ValueView};

verus! {

/// A slot of a table of contents: the table, and the label it is listed under.
#[derive(Debug, Clone)]
pub struct TocSlot {
    pub table: TableId,
    pub label: String,
}

/// Slots as plain values: the index of the table and the label.
pub open spec fn slots_view(v: Seq<TocSlot>) -> Seq<(int, Seq<char>)> {
    Seq::new(v.len(), |i: int| (v[i].table.0 as int, v[i].label@))
}

/// A table of contents entry whose table has not been read yet.
#[derive(Debug)]
struct PendingTable {
    label: String,
    root_address: usize,
    parsed_table: Option<TableId>,
}

/// Pending tables as plain values: the label and where the table starts.
spec fn pending_view(v: Seq<PendingTable>) -> Seq<(Seq<char>, usize)> {
    Seq::new(v.len(), |i: int| (v[i].label@, v[i].root_address))
}

/// The label and start of the table of each record, reading each label from
/// the label pool; `None` when a label cannot be read.
pub open spec fn pending_of(records: Seq<TableRecord>, labels: Seq<u8>) -> Option<
    Seq<(Seq<char>, usize)>,
>
    decreases records.len(),
{
    if records.len() == 0 {
        Some(Seq::empty())
    } else {
        match pending_of(records.drop_last(), labels) {
            None => None,
            Some(p) => match pointed_string(labels, records.last().label_offset) {
                None => None,
                Some(l) => Some(p.push((l, records.last().address as usize))),
            },
        }
    }
}

proof fn lemma_pending_prefix(records: Seq<TableRecord>, labels: Seq<u8>, k: int)
    requires
        0 <= k <= records.len(),
        pending_of(records, labels) is Some,
    ensures
        pending_of(records.take(k), labels) is Some,
    decreases records.len(),
{
    if k < records.len() {
        assert(records.drop_last().take(k) =~= records.take(k));
        lemma_pending_prefix(records.drop_last(), labels, k);
    } else {
        assert(records.take(k) =~= records);
    }
}

/// The error that reading the labels of `records` gives when one cannot be read:
/// that of the first label that cannot be read.
pub open spec fn pending_error(records: Seq<TableRecord>, labels: Seq<u8>) -> Error
    decreases records.len(),
{
    if records.len() == 0 {
        string_error(labels.len(), 0)
    } else if pending_of(records.drop_last(), labels) is None {
        pending_error(records.drop_last(), labels)
    } else {
        string_error(labels.len(), records.last().label_offset as usize)
    }
}

proof fn lemma_pending_error_prefix(records: Seq<TableRecord>, labels: Seq<u8>, k: int)
    requires
        0 <= k < records.len(),
        pending_of(records.take(k), labels) is Some,
        pending_of(records.take(k + 1), labels) is None,
    ensures
        pending_of(records, labels) is None,
        pending_error(records, labels) == pending_error(records.take(k + 1), labels),
    decreases records.len(),
{
    if k + 1 == records.len() {
        assert(records.take(k + 1) =~= records);
    } else {
        let d = records.drop_last();
        assert(d.take(k) =~= records.take(k));
        assert(d.take(k + 1) =~= records.take(k + 1));
        lemma_pending_error_prefix(d, labels, k);
    }
}

/// Reads the label of each record; no table is read yet.
fn build_pending_tables(records: &[TableRecord], table_labels: &[u8]) -> (r: Result<Vec<PendingTable>>)
    ensures
        pending_of(records@, table_labels@) matches Some(p) ==> (r matches Ok(v) && pending_view(v@)
            == p && forall|i: int| 0 <= i < v@.len() ==> (#[trigger] v@[i]).parsed_table is None),
        r matches Ok(v) ==> v@.len() == records@.len(),
        pending_of(records@, table_labels@) is None ==> r == Err::<Vec<PendingTable>, Error>(
            pending_error(records@, table_labels@),
        ),
{
    let mut pending: Vec<PendingTable> = Vec::new();
    let mut i: usize = 0;
    assert(records@.take(0) =~= Seq::<TableRecord>::empty());
    assert(pending_view(pending@) =~= Seq::<(Seq<char>, usize)>::empty());
    while i < records.len()
        invariant
            0 <= i <= records@.len(),
            pending@.len() == i,
            pending_of(records@.take(i as int), table_labels@) == Some(pending_view(pending@)),
            forall|k: int| 0 <= k < pending@.len() ==> (#[trigger] pending@[k]).parsed_table is None,
        decreases records@.len() - i,
    {
        let record = records[i];
        assert(records@.take(i + 1).drop_last() =~= records@.take(i as int));
        assert(records@.take(i + 1).last() == record);
        let label = match resolve_string_from_raw_data(table_labels, record.label_offset as usize) {
            Ok(l) => l,
            Err(e) => {
                proof {
                    if pending_of(records@, table_labels@) is Some {
                        lemma_pending_prefix(records@, table_labels@, i + 1);
                    }
                    lemma_pending_error_prefix(records@, table_labels@, i as int);
                }
                return Err(e);
            },
        };
        let ghost before = pending_view(pending@);
        pending.push(PendingTable { label, root_address: record.address as usize, parsed_table: None });
        assert(pending_view(pending@) =~= before.push((label@, record.address as usize)));
        i = i + 1;
    }
    assert(records@.take(records@.len() as int) =~= records@);
    Ok(pending)
}

/// The slots of the pending tables, once each has been read.
///
/// Fails with `Validation` when a table has not been read.
fn finish_toc(pending: Vec<PendingTable>) -> (r: Result<Vec<TocSlot>>)
    ensures
        (forall|i: int| 0 <= i < pending@.len() ==> (#[trigger] pending@[i]).parsed_table is Some)
            ==> (r matches Ok(v) && v@.len() == pending@.len() && forall|i: int|
            0 <= i < v@.len() ==> #[trigger] v@[i].table == pending@[i].parsed_table.unwrap()
                && v@[i].label@ == pending@[i].label@),
        (exists|i: int| 0 <= i < pending@.len() && (#[trigger] pending@[i]).parsed_table is None)
            ==> r matches Err(Error::Validation(_)),
{
    let mut slots: Vec<TocSlot> = Vec::new();
    let mut i: usize = 0;
    while i < pending.len()
        invariant
            0 <= i <= pending@.len(),
            slots@.len() == i,
            forall|k: int| 0 <= k < i ==> (#[trigger] pending@[k]).parsed_table is Some,
            forall|k: int|
                0 <= k < i ==> #[trigger] slots@[k].table == pending@[k].parsed_table.unwrap()
                    && slots@[k].label@ == pending@[k].label@,
        decreases pending@.len() - i,
    {
        let p = &pending[i];
        match p.parsed_table {
            Some(table) => {
                slots.push(TocSlot { table, label: p.label.clone() });
            },
            None => {
                return Err(validation_naming("table ", debug_text(p.label.as_str()).as_str(), " was not parsed"));
            },
        }
        i = i + 1;
    }
    Ok(slots)
}

/// `s` with index `i` placed after every index whose table starts no later than
/// table `i`, and before those after them that start later: one step of a stable
/// sort by start.
pub open spec fn insert_by_root(s: Seq<int>, roots: Seq<usize>, i: int) -> Seq<int>
    decreases s.len(),
{
    if s.len() == 0 || roots[s.last()] <= roots[i] {
        s.push(i)
    } else {
        insert_by_root(s.drop_last(), roots, i).push(s.last())
    }
}

/// The indices of the first `n` tables in the order they are read: by start,
/// and tables that start at the same offset in index order.
pub open spec fn parse_order(roots: Seq<usize>, n: nat) -> Seq<int>
    decreases n,
{
    if n == 0 {
        Seq::empty()
    } else {
        insert_by_root(parse_order(roots, (n - 1) as nat), roots, n - 1)
    }
}

/// Inserting after position `p`, where every later index starts later.
proof fn lemma_insert_at(s: Seq<int>, roots: Seq<usize>, i: int, p: int)
    requires
        0 <= p <= s.len(),
        forall|k: int| p <= k < s.len() ==> roots[#[trigger] s[k]] > roots[i],
        p == 0 || roots[s[p - 1]] <= roots[i],
    ensures
        insert_by_root(s, roots, i) == s.take(p) + seq![i] + s.skip(p),
    decreases s.len(),
{
    if p == s.len() {
        assert(s.take(p) + seq![i] + s.skip(p) =~= s.push(i));
    } else {
        lemma_insert_at(s.drop_last(), roots, i, p);
        assert(s.drop_last().take(p) + seq![i] + s.drop_last().skip(p) + seq![s.last()] =~= s.take(p)
            + seq![i] + s.skip(p));
    }
}

/// The order holds each of the first `n` indices exactly once.
pub proof fn lemma_parse_order_perm(roots: Seq<usize>, n: nat)
    ensures
        parse_order(roots, n).len() == n,
        forall|k: int| 0 <= k < n ==> 0 <= #[trigger] parse_order(roots, n)[k] < n,
        forall|i: int| 0 <= i < n ==> parse_order(roots, n).contains(i),
        forall|k: int, l: int|
            0 <= k < l < n ==> #[trigger] parse_order(roots, n)[k] != #[trigger] parse_order(
                roots,
                n,
            )[l],
    decreases n,
{
    if n > 0 {
        let m = (n - 1) as nat;
        lemma_parse_order_perm(roots, m);
        let s = parse_order(roots, m);
        let i = m as int;
        let p = choose_insert_position(s, roots, i);
        lemma_choose_insert_position(s, roots, i);
        lemma_insert_at(s, roots, i, p);
        let t = s.take(p) + seq![i] + s.skip(p);
        assert(parse_order(roots, n) == t);
        assert forall|k: int| 0 <= k < n implies 0 <= #[trigger] t[k] < n by {
            if k < p {
                assert(t[k] == s[k]);
            } else if k > p {
                assert(t[k] == s[k - 1]);
            }
        }
        assert forall|j: int| 0 <= j < n implies t.contains(j) by {
            if j == i {
                assert(t[p] == i);
            } else {
                assert(s.contains(j));
                let k = choose|k: int| 0 <= k < s.len() && s[k] == j;
                if k < p {
                    assert(t[k] == j);
                } else {
                    assert(t[k + 1] == j);
                }
            }
        }
        assert forall|k: int, l: int| 0 <= k < l < n implies #[trigger] t[k] != #[trigger] t[l] by {
            let sk = if k < p { k } else { k - 1 };
            let sl = if l < p { l } else { l - 1 };
            if k != p && l != p {
                assert(t[k] == s[sk] && t[l] == s[sl]);
            } else if k == p {
                assert(t[l] == s[sl]);
            } else {
                assert(t[k] == s[sk]);
            }
        }
    }
}

/// The position at which `insert_by_root` puts `i`: just after the last index
/// that starts no later than `i` and is followed only by later ones.
spec fn choose_insert_position(s: Seq<int>, roots: Seq<usize>, i: int) -> int
    decreases s.len(),
{
    if s.len() == 0 || roots[s.last()] <= roots[i] {
        s.len() as int
    } else {
        choose_insert_position(s.drop_last(), roots, i)
    }
}

proof fn lemma_choose_insert_position(s: Seq<int>, roots: Seq<usize>, i: int)
    ensures
        0 <= choose_insert_position(s, roots, i) <= s.len(),
        forall|k: int|
            choose_insert_position(s, roots, i) <= k < s.len() ==> roots[#[trigger] s[k]] > roots[i],
        choose_insert_position(s, roots, i) == 0 || roots[s[choose_insert_position(s, roots, i) - 1]]
            <= roots[i],
    decreases s.len(),
{
    if !(s.len() == 0 || roots[s.last()] <= roots[i]) {
        let d = s.drop_last();
        lemma_choose_insert_position(d, roots, i);
        let p = choose_insert_position(d, roots, i);
        assert forall|k: int| p <= k < s.len() implies roots[#[trigger] s[k]] > roots[i] by {
            if k < d.len() {
                assert(s[k] == d[k]);
            }
        }
    }
}

/// The order lists the tables by start: a table never comes after one that
/// starts later.
pub proof fn lemma_parse_order_sorted(roots: Seq<usize>, n: nat)
    requires
        n <= roots.len(),
    ensures
        forall|k: int, l: int|
            0 <= k < l < n ==> roots[#[trigger] parse_order(roots, n)[k]] <= roots[#[trigger] parse_order(
                roots,
                n,
            )[l]],
    decreases n,
{
    if n > 0 {
        let m = (n - 1) as nat;
        lemma_parse_order_sorted(roots, m);
        lemma_parse_order_perm(roots, m);
        let s = parse_order(roots, m);
        let i = m as int;
        let p = choose_insert_position(s, roots, i);
        lemma_choose_insert_position(s, roots, i);
        lemma_insert_at(s, roots, i, p);
        let t = s.take(p) + seq![i] + s.skip(p);
        assert(parse_order(roots, n) == t);
        assert forall|k: int, l: int| 0 <= k < l < n implies roots[#[trigger] t[k]] <= roots[#[trigger] t[l]] by {
            if l < p {
                assert(t[k] == s[k] && t[l] == s[l]);
            } else if l == p {
                assert(t[k] == s[k]);
                if k < p - 1 {
                    assert(roots[s[k]] <= roots[s[p - 1]]);
                }
            } else if k == p {
                assert(t[l] == s[l - 1]);
            } else if k < p {
                assert(t[k] == s[k] && t[l] == s[l - 1]);
            } else {
                assert(t[k] == s[k - 1] && t[l] == s[l - 1]);
            }
        }
    }
}

/// Two orders of the same indices with strictly increasing starts are the same.
pub proof fn lemma_strict_order_unique(a: Seq<int>, b: Seq<int>, roots: Seq<usize>, n: nat)
    requires
        a.len() == n,
        b.len() == n,
        forall|k: int| 0 <= k < n ==> 0 <= #[trigger] a[k] < roots.len(),
        forall|k: int| 0 <= k < n ==> 0 <= #[trigger] b[k] < roots.len(),
        forall|k: int, l: int| 0 <= k < l < n ==> roots[#[trigger] a[k]] < roots[#[trigger] a[l]],
        forall|k: int, l: int| 0 <= k < l < n ==> roots[#[trigger] b[k]] < roots[#[trigger] b[l]],
        forall|k: int| 0 <= k < n ==> b.contains(#[trigger] a[k]),
        forall|k: int| 0 <= k < n ==> a.contains(#[trigger] b[k]),
    ensures
        a == b,
{
    assert forall|k: int| 0 <= k < n implies #[trigger] a[k] == b[k] by {
        lemma_strict_order_prefix(a, b, roots, n, k + 1);
        assert(a.take(k + 1)[k] == a[k]);
        assert(b.take(k + 1)[k] == b[k]);
    }
    assert(a =~= b);
}

proof fn lemma_strict_order_prefix(a: Seq<int>, b: Seq<int>, roots: Seq<usize>, n: nat, j: int)
    requires
        0 <= j <= n,
        a.len() == n,
        b.len() == n,
        forall|k: int| 0 <= k < n ==> 0 <= #[trigger] a[k] < roots.len(),
        forall|k: int| 0 <= k < n ==> 0 <= #[trigger] b[k] < roots.len(),
        forall|k: int, l: int| 0 <= k < l < n ==> roots[#[trigger] a[k]] < roots[#[trigger] a[l]],
        forall|k: int, l: int| 0 <= k < l < n ==> roots[#[trigger] b[k]] < roots[#[trigger] b[l]],
        forall|k: int| 0 <= k < n ==> b.contains(#[trigger] a[k]),
        forall|k: int| 0 <= k < n ==> a.contains(#[trigger] b[k]),
    ensures
        a.take(j) == b.take(j),
    decreases j,
{
    if j > 0 {
        let k = j - 1;
        lemma_strict_order_prefix(a, b, roots, n, k);
        assert(a.contains(b[k]));
        assert(b.contains(a[k]));
        let ia = choose|x: int| 0 <= x < n && a[x] == b[k];
        let ib = choose|x: int| 0 <= x < n && b[x] == a[k];
        if a[k] != b[k] {
            if ia < k {
                assert(a.take(k)[ia] == b.take(k)[ia]);
                assert(b[ia] == b[k]);
                assert(roots[b[ia]] < roots[b[k]]);
            }
            if ib < k {
                assert(a.take(k)[ib] == b.take(k)[ib]);
                assert(a[ib] == a[k]);
                assert(roots[a[ib]] < roots[a[k]]);
            }
            assert(roots[a[k]] < roots[a[ia]]);
            assert(roots[b[k]] < roots[b[ib]]);
        }
        assert(a.take(j) =~= a.take(k).push(a[k]));
        assert(b.take(j) =~= b.take(k).push(b[k]));
    }
}

/// The position of table `i` in the order, when it occurs there.
pub open spec fn slot_index(order: Seq<int>, i: int) -> int {
    choose|k: int| 0 <= k < order.len() && order[k] == i
}

/// Where each table starts.
pub open spec fn roots_of(all: Seq<(Seq<char>, usize)>) -> Seq<usize> {
    Seq::new(all.len(), |i: int| all[i].1)
}

/// The table that entry `j` of `all` labels, read from `data`.
pub open spec fn read_table(
    all: Seq<(Seq<char>, usize)>,
    j: int,
    data: Seq<u8>,
    relocs: Seq<u32>,
) -> Option<TableModel> {
    match spec_schema_for_name(all[j].0) {
        None => None,
        Some(id) => decode_table(id, data, relocs, all, all[j].1 as int),
    }
}

/// The tables of `all` read in the given order; `None` when one cannot be read.
pub open spec fn read_tables(
    all: Seq<(Seq<char>, usize)>,
    order: Seq<int>,
    data: Seq<u8>,
    relocs: Seq<u32>,
) -> Option<Seq<TableModel>>
    decreases order.len(),
{
    if order.len() == 0 {
        Some(Seq::empty())
    } else {
        match read_tables(all, order.drop_last(), data, relocs) {
            None => None,
            Some(ts) => match read_table(all, order.last(), data, relocs) {
                Some(t) => Some(ts.push(t)),
                None => None,
            },
        }
    }
}

/// `e` is the error that reading the table of entry `j` of `all` gives when it
/// cannot be read: its label names no schema, or the table cannot be read.
pub open spec fn read_table_fails_with(
    all: Seq<(Seq<char>, usize)>,
    j: int,
    data: Seq<u8>,
    relocs: Seq<u32>,
    e: Error,
) -> bool {
    match spec_schema_for_name(all[j].0) {
        None => e matches Error::UnknownTableSchema { name } && name@ == all[j].0,
        Some(id) => table_fails_with(id, data, relocs, all, all[j].1 as int, e),
    }
}

/// `e` is the error that reading the tables of `all` in the given order gives
/// when one cannot be read: that of the first one that cannot be read.
pub open spec fn read_tables_fails_with(
    all: Seq<(Seq<char>, usize)>,
    order: Seq<int>,
    data: Seq<u8>,
    relocs: Seq<u32>,
    e: Error,
) -> bool
    decreases order.len(),
{
    if order.len() == 0 {
        false
    } else if read_tables(all, order.drop_last(), data, relocs) is None {
        read_tables_fails_with(all, order.drop_last(), data, relocs, e)
    } else {
        read_table_fails_with(all, order.last(), data, relocs, e)
    }
}

proof fn lemma_read_tables_error_prefix(
    all: Seq<(Seq<char>, usize)>,
    order: Seq<int>,
    data: Seq<u8>,
    relocs: Seq<u32>,
    k: int,
    e: Error,
)
    requires
        0 <= k < order.len(),
        read_tables(all, order.take(k), data, relocs) is Some,
        read_tables(all, order.take(k + 1), data, relocs) is None,
    ensures
        read_tables(all, order, data, relocs) is None,
        read_tables_fails_with(all, order, data, relocs, e) == read_tables_fails_with(
            all,
            order.take(k + 1),
            data,
            relocs,
            e,
        ),
    decreases order.len(),
{
    if k + 1 == order.len() {
        assert(order.take(k + 1) =~= order);
    } else {
        let d = order.drop_last();
        assert(d.take(k) =~= order.take(k));
        assert(d.take(k + 1) =~= order.take(k + 1));
        lemma_read_tables_error_prefix(all, d, data, relocs, k, e);
    }
}

proof fn lemma_read_tables_prefix(
    all: Seq<(Seq<char>, usize)>,
    order: Seq<int>,
    data: Seq<u8>,
    relocs: Seq<u32>,
    k: int,
)
    requires
        0 <= k <= order.len(),
        read_tables(all, order, data, relocs) is Some,
    ensures
        read_tables(all, order.take(k), data, relocs) is Some,
    decreases order.len(),
{
    if k < order.len() {
        assert(order.drop_last().take(k) =~= order.take(k));
        lemma_read_tables_prefix(all, order.drop_last(), data, relocs, k);
    } else {
        assert(order.take(k) =~= order);
    }
}

/// Indices as integers.
pub open spec fn indices_view(v: Seq<usize>) -> Seq<int> {
    Seq::new(v.len(), |k: int| v[k] as int)
}

/// The order in which the labelled tables are read: by start, ties in index order.
fn sort_by_root(all: &Vec<(String, usize)>) -> (r: Vec<usize>)
    ensures
        indices_view(r@) == parse_order(roots_of(labelled_view(all@)), all@.len()),
{
    let ghost roots = roots_of(labelled_view(all@));
    let n = all.len();
    let mut order: Vec<usize> = Vec::new();
    let mut i: usize = 0;
    assert(indices_view(order@) =~= Seq::<int>::empty());
    while i < n
        invariant
            n == all@.len(),
            roots == roots_of(labelled_view(all@)),
            0 <= i <= n,
            indices_view(order@) == parse_order(roots, i as nat),
        decreases n - i,
    {
        proof {
            lemma_parse_order_perm(roots, i as nat);
        }
        let ghost s = indices_view(order@);
        assert forall|k: int| 0 <= k < order@.len() implies #[trigger] order@[k] < i by {
            assert(s[k] == order@[k] as int);
        }
        let mut p = order.len();
        while p > 0 && all[order[p - 1]].1 > all[i].1
            invariant
                n == all@.len(),
                roots == roots_of(labelled_view(all@)),
                0 <= i < n,
                s == indices_view(order@),
                s.len() == i,
                forall|k: int| 0 <= k < i ==> 0 <= #[trigger] s[k] < i,
                forall|k: int| 0 <= k < order@.len() ==> #[trigger] order@[k] < i,
                0 <= p <= order@.len(),
                forall|k: int| p <= k < s.len() ==> roots[#[trigger] s[k]] > roots[i as int],
            decreases p,
        {
            assert(s[p - 1] == order@[p - 1] as int);
            p = p - 1;
        }
        proof {
            if p > 0 {
                assert(s[p - 1] == order@[p - 1] as int);
            }
            lemma_insert_at(s, roots, i as int, p as int);
        }
        order.insert(p, i);
        assert(indices_view(order@) =~= s.take(p as int) + seq![i as int] + s.skip(p as int));
        i = i + 1;
    }
    order
}

/// The labelled starts of the pending tables, those of `toc` first.
fn labelled(toc: &Vec<PendingTable>, other: &Vec<PendingTable>) -> (r: Vec<(String, usize)>)
    ensures
        labelled_view(r@) == pending_view(toc@) + pending_view(other@),
{
    let mut out: Vec<(String, usize)> = Vec::new();
    let mut i: usize = 0;
    while i < toc.len()
        invariant
            0 <= i <= toc@.len(),
            labelled_view(out@) == pending_view(toc@).take(i as int),
        decreases toc@.len() - i,
    {
        let ghost before = labelled_view(out@);
        out.push((toc[i].label.clone(), toc[i].root_address));
        assert(labelled_view(out@) =~= before.push(pending_view(toc@)[i as int]));
        assert(pending_view(toc@).take(i + 1) =~= pending_view(toc@).take(i as int).push(
            pending_view(toc@)[i as int],
        ));
        i = i + 1;
    }
    let mut j: usize = 0;
    assert(pending_view(toc@).take(toc@.len() as int) =~= pending_view(toc@));
    while j < other.len()
        invariant
            0 <= j <= other@.len(),
            labelled_view(out@) == pending_view(toc@) + pending_view(other@).take(j as int),
        decreases other@.len() - j,
    {
        let ghost before = labelled_view(out@);
        out.push((other[j].label.clone(), other[j].root_address));
        assert(labelled_view(out@) =~= before.push(pending_view(other@)[j as int]));
        assert(pending_view(toc@) + pending_view(other@).take(j + 1) =~= (pending_view(toc@)
            + pending_view(other@).take(j as int)).push(pending_view(other@)[j as int]));
        j = j + 1;
    }
    assert(pending_view(other@).take(other@.len() as int) =~= pending_view(other@));
    out
}

/// The position of each of the first `n` indices in `order`.
fn positions(order: &Vec<usize>, Ghost(roots): Ghost<Seq<usize>>) -> (r: Vec<usize>)
    requires
        indices_view(order@) == parse_order(roots, order@.len()),
    ensures
        r@.len() == order@.len(),
        forall|i: int| 0 <= i < r@.len() ==> #[trigger] r@[i] == slot_index(indices_view(order@), i),
{
    let n = order.len();
    let ghost ov = indices_view(order@);
    proof {
        lemma_parse_order_perm(roots, n as nat);
    }
    let mut pos: Vec<usize> = Vec::new();
    let mut i: usize = 0;
    while i < n
        invariant
            0 <= i <= n,
            pos@.len() == i,
        decreases n - i,
    {
        pos.push(0);
        i = i + 1;
    }
    let mut k: usize = 0;
    while k < n
        invariant
            n == order@.len(),
            ov == indices_view(order@),
            ov.len() == n,
            forall|l: int| 0 <= l < n ==> 0 <= #[trigger] ov[l] < n,
            pos@.len() == n,
            0 <= k <= n,
            forall|l: int| 0 <= l < k ==> pos@[#[trigger] ov[l]] == l,
            forall|a: int, b: int| 0 <= a < b < n ==> #[trigger] ov[a] != #[trigger] ov[b],
        decreases n - k,
    {
        assert(ov[k as int] == order@[k as int] as int);
        pos.set(order[k], k);
        assert forall|l: int| 0 <= l < k + 1 implies pos@[#[trigger] ov[l]] == l by {
            if l < k {
                assert(ov[l] != ov[k as int]);
            }
        }
        k = k + 1;
    }
    assert forall|i: int| 0 <= i < pos@.len() implies #[trigger] pos@[i] == slot_index(ov, i) by {
        assert(ov.contains(i));
        let k = choose|k: int| 0 <= k < ov.len() && ov[k] == i;
        let s = slot_index(ov, i);
        assert(pos@[ov[k]] == k);
        if s != k {
            if s < k {
                assert(ov[s] != ov[k]);
            } else {
                assert(ov[k] != ov[s]);
            }
        }
    }
    pos
}

/// The pending tables, each marked as read into table `pos[start + i]`.
fn mark_parsed(pending: &Vec<PendingTable>, pos: &Vec<usize>, start: usize) -> (r: Vec<PendingTable>)
    requires
        start + pending@.len() <= pos@.len(),
    ensures
        pending_view(r@) == pending_view(pending@),
        forall|i: int|
            0 <= i < r@.len() ==> (#[trigger] r@[i]).parsed_table == Some(TableId(pos@[start + i])),
{
    let m = pos.len();
    let mut out: Vec<PendingTable> = Vec::new();
    let mut i: usize = 0;
    while i < pending.len()
        invariant
            start + pending@.len() <= pos@.len(),
            0 <= i <= pending@.len(),
            out@.len() == i,
            m == pos@.len(),
            forall|k: int| 0 <= k < i ==> #[trigger] out@[k].label@ == pending@[k].label@ && out@[k].root_address == pending@[k].root_address,
            forall|k: int|
                0 <= k < i ==> (#[trigger] out@[k]).parsed_table == Some(TableId(pos@[start + k])),
        decreases pending@.len() - i,
    {
        let ghost before = out@;
        let p = PendingTable {
            label: pending[i].label.clone(),
            root_address: pending[i].root_address,
            parsed_table: Some(TableId(pos[start + i])),
        };
        out.push(p);
        assert forall|k: int| 0 <= k < i + 1 implies #[trigger] out@[k].label@ == pending@[k].label@
            && out@[k].root_address == pending@[k].root_address by {
            if k < i {
                assert(out@[k] == before[k]);
            }
        }
        i = i + 1;
    }
    assert(pending_view(out@) =~= pending_view(pending@));
    out
}

/// All pending tables, those of the table of contents first.
pub open spec fn all_pending(toc: Seq<(Seq<char>, usize)>, other: Seq<(Seq<char>, usize)>) -> Seq<
    (Seq<char>, usize),
> {
    toc + other
}

/// The order in which the tables of `all` are read.
pub open spec fn read_order(all: Seq<(Seq<char>, usize)>) -> Seq<int> {
    parse_order(roots_of(all), all.len())
}

/// Reads every pending table, in order of start, into `tables`, and marks each
/// pending table with the table it was read into.
#[verifier::rlimit(30)]
fn parse_tables(
    pending_toc: &mut Vec<PendingTable>,
    pending_other_toc: &mut Vec<PendingTable>,
    data: &[u8],
    tables: &mut TableCollection,
    relocations: &RelocationTable,
) -> (r: Result<()>)
    requires
        old(tables)@.len() == 0,
        old(pending_toc)@.len() + old(pending_other_toc)@.len() + 1 < u32::MAX,
    ensures
        old(pending_toc)@.len() + old(pending_other_toc)@.len() <= usize::MAX,
        read_tables(
            all_pending(pending_view(old(pending_toc)@), pending_view(old(pending_other_toc)@)),
            read_order(all_pending(pending_view(old(pending_toc)@), pending_view(old(pending_other_toc)@))),
            data@,
            relocations@,
        ) matches Some(ts) ==> {
            let order = read_order(
                all_pending(pending_view(old(pending_toc)@), pending_view(old(pending_other_toc)@)),
            );
            &&& r is Ok
            &&& final(tables)@ == ts
            &&& pending_view(final(pending_toc)@) == pending_view(old(pending_toc)@)
            &&& pending_view(final(pending_other_toc)@) == pending_view(old(pending_other_toc)@)
            &&& forall|i: int| 0 <= i < final(pending_toc)@.len() ==> (#[trigger] final(pending_toc)@[i]).parsed_table == Some(TableId(slot_index(order, i) as usize))
            &&& forall|i: int| 0 <= i < final(pending_other_toc)@.len() ==> (#[trigger] final(pending_other_toc)@[i]).parsed_table == Some(TableId(slot_index(order, old(pending_toc)@.len() + i) as usize))
        },
        read_tables(
            all_pending(pending_view(old(pending_toc)@), pending_view(old(pending_other_toc)@)),
            read_order(all_pending(pending_view(old(pending_toc)@), pending_view(old(pending_other_toc)@))),
            data@,
            relocations@,
        ) is None ==> (r matches Err(e) && read_tables_fails_with(
            all_pending(pending_view(old(pending_toc)@), pending_view(old(pending_other_toc)@)),
            read_order(all_pending(pending_view(old(pending_toc)@), pending_view(old(pending_other_toc)@))),
            data@,
            relocations@,
            e,
        )),
{
    let ghost av = all_pending(pending_view(pending_toc@), pending_view(pending_other_toc@));
    let all = labelled(pending_toc, pending_other_toc);
    let context = ParseContext::new(data, relocations, labelled(pending_toc, pending_other_toc));
    let order = sort_by_root(&all);
    let ghost roots = roots_of(av);
    let ghost ov = indices_view(order@);
    let n = all.len();
    proof {
        assert(labelled_view(all@) == av);
        lemma_parse_order_perm(roots, n as nat);
    }
    let mut k: usize = 0;
    assert(ov.take(0) =~= Seq::<int>::empty());
    while k < n
        invariant
            n == all@.len(),
            av == labelled_view(all@),
            av == all_pending(pending_view(old(pending_toc)@), pending_view(old(pending_other_toc)@)),
            ov == indices_view(order@),
            ov == read_order(av),
            ov.len() == n,
            forall|l: int| 0 <= l < n ==> 0 <= #[trigger] ov[l] < n,
            context.data_view() == data@,
            context.relocations_view() == relocations@,
            context.tables_view() == av,
            0 <= k <= n,
            n + 1 < u32::MAX,
            tables@.len() == k,
            read_tables(av, ov.take(k as int), data@, relocations@) == Some(tables@),
        decreases n - k,
    {
        let j = order[k];
        assert(ov[k as int] == j as int);
        assert(ov.take(k + 1).drop_last() =~= ov.take(k as int));
        assert(ov.take(k + 1).last() == j as int);
        let t = match Table::parse(all[j].0.as_str(), &context, all[j].1) {
            Ok(t) => t,
            Err(e) => {
                proof {
                    if read_tables(av, ov, data@, relocations@) is Some {
                        lemma_read_tables_prefix(av, ov, data@, relocations@, k + 1);
                    }
                    assert(read_tables(av, ov.take(k + 1), data@, relocations@) is None);
                    lemma_read_tables_error_prefix(av, ov, data@, relocations@, k as int, e);
                    assert(read_table_fails_with(av, j as int, data@, relocations@, e));
                }
                return Err(e);
            },
        };
        tables.insert(t);
        k = k + 1;
    }
    assert(ov.take(n as int) =~= ov);
    let pos = positions(&order, Ghost(roots));
    let toc_len = pending_toc.len();
    let new_toc = mark_parsed(pending_toc, &pos, 0);
    let new_other = mark_parsed(pending_other_toc, &pos, toc_len);
    *pending_toc = new_toc;
    *pending_other_toc = new_other;
    Ok(())
}

/// A whole file as plain values: its tables, and the slots of its two tables of
/// contents, each the index of a table and a label.
pub struct RLBFileView {
    pub tables: Seq<TableModel>,
    pub toc: Seq<(int, Seq<char>)>,
    pub other_toc: Seq<(int, Seq<char>)>,
}

impl RLBFileView {
    /// Every slot names one of the tables.
    pub open spec fn wf(self) -> bool {
        &&& forall|i: int| 0 <= i < self.toc.len() ==> 0 <= #[trigger] self.toc[i].0 < self.tables.len()
        &&& forall|i: int|
            0 <= i < self.other_toc.len() ==> 0 <= #[trigger] self.other_toc[i].0 < self.tables.len()
    }
}

/// The file that a container holds: the labels of both tables of contents are
/// read from the label pool, then every table is read, in order of start; the
/// tables are numbered in that order. `None` when a label or a table cannot be read.
pub open spec fn file_of_raw(raw: RawFileView) -> Option<RLBFileView> {
    match (pending_of(raw.records, raw.table_labels), pending_of(raw.other_records, raw.table_labels)) {
        (Some(t), Some(o)) => {
            let all = all_pending(t, o);
            let order = read_order(all);
            match read_tables(all, order, raw.data, raw.relocation_table) {
                None => None,
                Some(ts) => Some(
                    RLBFileView {
                        tables: ts,
                        toc: Seq::new(t.len(), |i: int| (slot_index(order, i), t[i].0)),
                        other_toc: Seq::new(o.len(), |i: int| (slot_index(order, t.len() + i), o[i].0)),
                    },
                ),
            }
        },
        _ => None,
    }
}

/// `e` is the error that reading the file of a container gives when it cannot be
/// read: that of the first label of the table of contents, then of the other
/// table of contents, that cannot be read, or else that of the first table, in
/// the order they are read, that cannot be read.
pub open spec fn file_fails_with(raw: RawFileView, e: Error) -> bool {
    match pending_of(raw.records, raw.table_labels) {
        None => e == pending_error(raw.records, raw.table_labels),
        Some(t) => match pending_of(raw.other_records, raw.table_labels) {
            None => e == pending_error(raw.other_records, raw.table_labels),
            Some(o) => read_tables_fails_with(
                all_pending(t, o),
                read_order(all_pending(t, o)),
                raw.data,
                raw.relocation_table,
                e,
            ),
        },
    }
}

/// An RLB file: its tables and the two tables of contents that list them.
#[derive(Debug, Clone)]
pub struct RLBFile {
    table_collection: TableCollection,
    toc: Vec<TocSlot>,
    other_toc: Vec<TocSlot>,
}

impl View for RLBFile {
    type V = RLBFileView;

    closed spec fn view(&self) -> RLBFileView {
        RLBFileView {
            tables: self.table_collection@,
            toc: slots_view(self.toc@),
            other_toc: slots_view(self.other_toc@),
        }
    }
}

impl RLBFile {
    /// Reads the tables of a container.
    ///
    /// Fails when a label cannot be read from the label pool, when a label names
    /// no known table schema (`UnknownTableSchema`), or when a table cannot be read.
    pub fn from_raw(raw: &RawFile) -> (r: Result<RLBFile>)
        ensures
            file_of_raw(raw@) matches Some(v) ==> (r matches Ok(f) && f@ == v),
            file_of_raw(raw@) is None ==> (r matches Err(e) && file_fails_with(raw@, e)),
            r matches Ok(f) ==> f@.wf(),
    {
        let data = raw.data();
        let relocations = RelocationTable::from_raw(raw.relocation_table().as_slice());
        let labels = raw.table_labels();
        let mut pending_toc = build_pending_tables(raw.records().as_slice(), labels.as_slice())?;
        let mut pending_other_toc = build_pending_tables(raw.other_records().as_slice(), labels.as_slice())?;
        let ghost t = pending_view(pending_toc@);
        let ghost o = pending_view(pending_other_toc@);
        let _ = raw.header();
        let mut table_collection = TableCollection::new();
        parse_tables(
            &mut pending_toc,
            &mut pending_other_toc,
            data.as_slice(),
            &mut table_collection,
            &relocations,
        )?;
        let ghost order = read_order(all_pending(t, o));
        let toc = finish_toc(pending_toc)?;
        let other_toc = finish_toc(pending_other_toc)?;
        let f = RLBFile { table_collection, toc, other_toc };
        proof {
            assert(pending_of(raw@.records, raw@.table_labels) == Some(t));
            assert(pending_of(raw@.other_records, raw@.table_labels) == Some(o));
            assert(read_tables(all_pending(t, o), order, raw@.data, raw@.relocation_table) is Some);
            let v = file_of_raw(raw@).unwrap();
            assert(v.toc.len() == t.len());
            lemma_parse_order_perm(roots_of(all_pending(t, o)), (t.len() + o.len()) as nat);
            assert forall|i: int| 0 <= i < t.len() + o.len() implies 0 <= #[trigger] slot_index(order, i) < t.len() + o.len() by {
                assert(order.contains(i));
            }
            assert forall|i: int| 0 <= i < t.len() implies #[trigger] f@.toc[i] == v.toc[i] by {
                assert(0 <= slot_index(order, i) < t.len() + o.len());
                assert(f@.toc[i].0 == slot_index(order, i));
                assert(f@.toc[i].1 == t[i].0);
                assert(v.toc[i] == (slot_index(order, i), t[i].0));
            }
            assert forall|i: int| 0 <= i < o.len() implies #[trigger] f@.other_toc[i] == v.other_toc[i] by {
                assert(0 <= slot_index(order, t.len() + i) < t.len() + o.len());
            }
            assert(f@.toc =~= v.toc);
            assert(f@.other_toc =~= v.other_toc);
            assert(f@.tables.len() == t.len() + o.len()) by {
                lemma_read_tables_len(all_pending(t, o), order, raw@.data, raw@.relocation_table);
            }
            assert forall|i: int| 0 <= i < f@.toc.len() implies 0 <= #[trigger] f@.toc[i].0 < f@.tables.len() by {
                assert(0 <= slot_index(order, i) < t.len() + o.len());
            }
            assert forall|i: int| 0 <= i < f@.other_toc.len() implies 0 <= #[trigger] f@.other_toc[i].0 < f@.tables.len() by {
                assert(0 <= slot_index(order, t.len() + i) < t.len() + o.len());
            }
        }
        Ok(f)
    }

    /// Reads an RLB file from its bytes: first the container, then its tables.
    pub fn parse(bytes: &[u8]) -> (r: Result<RLBFile>)
        ensures
            bytes@.len() < 4 ==> r == Err::<RLBFile, Error>(Error::UnexpectedEof { context: "file_size" }),
            bytes@.len() >= 4 && be_u32_at(bytes@, 0) != bytes@.len() ==> r == Err::<RLBFile, Error>(
                Error::InvalidFileSize { expected: be_u32_at(bytes@, 0), actual: bytes@.len() as u64 },
            ),
            bytes@.len() >= 4 && be_u32_at(bytes@, 0) == bytes@.len() && !is_rlb_layout(bytes@) ==> r
                == Err::<RLBFile, Error>(Error::UnexpectedEof { context: "RLB file layout" }),
            is_rlb_layout(bytes@) ==> (file_of_raw(rlb_layout_of(bytes@)) matches Some(v) ==> (r matches Ok(
                f,
            ) && f@ == v)),
            is_rlb_layout(bytes@) ==> (file_of_raw(rlb_layout_of(bytes@)) is None ==> (r matches Err(e)
                && file_fails_with(rlb_layout_of(bytes@), e))),
    {
        let raw = RawFile::parse(bytes)?;
        Self::from_raw(&raw)
    }

    /// The container of the file: the tables laid out after the string pool, and
    /// the records and labels of both tables of contents.
    fn to_raw(&self) -> (r: Result<RawFile>)
        requires
            raw_parts(self@) matches Some(p) ==> (parts_lengths_fit(p) ==> parts_file_size(p) <= u32::MAX),
        ensures
            raw_parts(self@) is None ==> (r matches Err(e) && parts_fail_with(self@, e)),
            raw_parts(self@) matches Some(p) ==> (parts_lengths_fit(p) ==> (r matches Ok(f) && f@
                == container_of(p))),
            raw_parts(self@) matches Some(p) ==> (!parts_lengths_fit(p) ==> (r matches Err(e) && Some(e)
                == lengths_error(p.0.len(), p.1.len(), p.2.len(), p.3.len(), p.4.len()))),
    {
        let tables = match self.table_collection.serialize() {
            Ok(t) => t,
            Err(e) => return Err(e),
        };
        let mut labels = StringPool::new();
        let records = match make_records(&self.toc, &tables, &mut labels) {
            Ok(r) => r,
            Err(e) => return Err(e),
        };
        let other_records = match make_records(&self.other_toc, &tables, &mut labels) {
            Ok(r) => r,
            Err(e) => return Err(e),
        };
        let data = slice_to_vec(tables.data().as_slice());
        let relocations = slice_to_vec(tables.relocations().as_slice());
        let label_bytes = slice_to_vec(labels.data());
        let raw = RawFile::new(data, relocations, records, other_records, label_bytes)?;
        assert(raw@.header.reserved =~= container_of(raw_parts(self@).unwrap()).header.reserved);
        Ok(raw)
    }

    /// Writes the file.
    ///
    /// Fails when a table cannot be written (a value that does not fit its
    /// field), when a string or label cannot be encoded as Shift-JIS, or when an
    /// offset or a section length does not fit in 32 bits.
    pub fn write(&self) -> (r: Result<Vec<u8>>)
        requires
            raw_parts(self@) matches Some(p) ==> (parts_lengths_fit(p) ==> parts_file_size(p) <= u32::MAX),
        ensures
            raw_parts(self@) is None ==> (r matches Err(e) && parts_fail_with(self@, e)),
            raw_parts(self@) matches Some(p) ==> (parts_lengths_fit(p) ==> (r matches Ok(b)
                && is_rlb_layout(b@) && rlb_layout_of(b@) == container_of(p))),
            raw_parts(self@) matches Some(p) ==> (!parts_lengths_fit(p) ==> (r matches Err(e) && Some(e)
                == lengths_error(p.0.len(), p.1.len(), p.2.len(), p.3.len(), p.4.len()))),
    {
        let raw = match self.to_raw() {
            Ok(raw) => raw,
            Err(e) => return Err(e),
        };
        let bytes = raw.serialize_custom()?;
        proof {
            lemma_write_then_parse(raw@);
        }
        Ok(bytes)
    }

    /// A view of each table, in the order of the table of contents and then of
    /// the other table of contents.
    ///
    /// Fails with `Validation` when a slot names no table.
    pub fn tables(&self) -> (r: Result<Vec<TableView>>)
        ensures
            self@.wf() ==> (r matches Ok(v) && v@.len() == self@.toc.len() + self@.other_toc.len()
                && forall|i: int| 0 <= i < v@.len() ==> #[trigger] v@[i].describes(self@, (self@.toc + self@.other_toc)[i])),
            !self@.wf() ==> r matches Err(Error::Validation(_)),
    {
        let mut out: Vec<TableView> = Vec::new();
        let ghost all = self@.toc + self@.other_toc;
        let mut i: usize = 0;
        while i < self.toc.len()
            invariant
                all == self@.toc + self@.other_toc,
                0 <= i <= self.toc@.len(),
                out@.len() == i,
                forall|k: int| 0 <= k < i ==> 0 <= #[trigger] self@.toc[k].0 < self@.tables.len(),
                forall|k: int| 0 <= k < i ==> #[trigger] out@[k].describes(self@, all[k]),
            decreases self.toc@.len() - i,
        {
            match self.view_of(&self.toc[i]) {
                Some(v) => out.push(v),
                None => {
                    assert(self@.toc[i as int].0 == self.toc@[i as int].table.0);
                    return Err(
                        Error::Validation(
                            String::from_str("table of contents references missing table ").concat(
                                table_id_string(self.toc[i].table).as_str(),
                            ),
                        ),
                    );
                },
            }
            i = i + 1;
        }
        let mut j: usize = 0;
        while j < self.other_toc.len()
            invariant
                all == self@.toc + self@.other_toc,
                0 <= j <= self.other_toc@.len(),
                out@.len() == self.toc@.len() + j,
                forall|k: int| 0 <= k < self@.toc.len() ==> 0 <= #[trigger] self@.toc[k].0 < self@.tables.len(),
                forall|k: int| 0 <= k < j ==> 0 <= #[trigger] self@.other_toc[k].0 < self@.tables.len(),
                forall|k: int| 0 <= k < out@.len() ==> #[trigger] out@[k].describes(self@, all[k]),
            decreases self.other_toc@.len() - j,
        {
            match self.view_of(&self.other_toc[j]) {
                Some(v) => out.push(v),
                None => {
                    assert(self@.other_toc[j as int].0 == self.other_toc@[j as int].table.0);
                    return Err(
                        Error::Validation(
                            String::from_str("table of contents references missing table ").concat(
                                table_id_string(self.other_toc[j].table).as_str(),
                            ),
                        ),
                    );
                },
            }
            j = j + 1;
        }
        Ok(out)
    }

    /// The view of the table that `slot` lists, if there is such a table.
    fn view_of<'a>(&'a self, slot: &'a TocSlot) -> (r: Option<TableView<'a>>)
        ensures
            slot.table.0 < self@.tables.len() ==> (r matches Some(v) && v.describes(
                self@,
                (slot.table.0 as int, slot.label@),
            )),
            slot.table.0 >= self@.tables.len() ==> r is None,
    {
        match self.table_collection.get(slot.table) {
            Some(table) => Some(
                TableView {
                    id: slot.table,
                    label: slot.label.as_str(),
                    fields: table.field_descriptors(),
                    entry_count: table.entry_count(),
                },
            ),
            None => None,
        }
    }

    /// The value of field `field` of entry `entry_index` of table `table_id`, or
    /// `None` when there is no such table, entry or field.
    pub fn get_field(&self, table_id: TableId, entry_index: usize, field: &str) -> (r: Option<Value>)
        ensures
            match file_get_field(self@, table_id.0 as int, entry_index as int, field@) {
                Some(x) => r matches Some(v) && v@ == x,
                None => r is None,
            },
    {
        match self.table_collection.get(table_id) {
            Some(table) => table.get_field(entry_index, field),
            None => None,
        }
    }

    /// Sets field `field` of entry `entry_index` of table `table_id` to `value`.
    ///
    /// Fails with `Validation` when there is no such table, entry or field; the
    /// file is then unchanged.
    pub fn set_field(&mut self, table_id: TableId, entry_index: usize, field: &str, value: Value) -> (r: Result<()>)
        ensures
            collection_set_field(old(self)@.tables, table_id.0 as int, entry_index as int, field@, value@) matches Some(ts)
                ==> (r is Ok && final(self)@ == (RLBFileView { tables: ts, toc: old(self)@.toc, other_toc: old(self)@.other_toc })),
            collection_set_field(old(self)@.tables, table_id.0 as int, entry_index as int, field@, value@) is None
                ==> (r matches Err(Error::Validation(m)) && m@ == collection_set_message(
                old(self)@.tables,
                table_id.0 as int,
                entry_index as int,
                field@,
            ) && final(self)@ == old(self)@),
    {
        self.table_collection.set_field(table_id, entry_index, field, value)
    }
}

/// The value of field `field` of entry `index` of table `id`.
pub open spec fn file_get_field(v: RLBFileView, id: int, index: int, field: Seq<char>) -> Option<ValueView> {
    if id < 0 || id >= v.tables.len() || index < 0 || index >= v.tables[id].entries.len() {
        None
    } else {
        match value_position(spec_slots(v.tables[id].schema), v.tables[id].entries[index], field) {
            Some(k) => Some(v.tables[id].entries[index].values[k as int]),
            None => None,
        }
    }
}

/// Setting a field and reading it back gives the value set, and every other value
/// of the file reads as before.
pub proof fn lemma_set_then_get(
    f: RLBFileView,
    id: int,
    index: int,
    field: Seq<char>,
    value: ValueView,
    id2: int,
    index2: int,
    field2: Seq<char>,
)
    requires
        collection_set_field(f.tables, id, index, field, value) is Some,
    ensures
        file_get_field(
            RLBFileView {
                tables: collection_set_field(f.tables, id, index, field, value).unwrap(),
                toc: f.toc,
                other_toc: f.other_toc,
            },
            id,
            index,
            field,
        ) == Some(value),
        (id2 != id || index2 != index || value_position(
            spec_slots(f.tables[id].schema),
            f.tables[id].entries[index],
            field2,
        ) != value_position(spec_slots(f.tables[id].schema), f.tables[id].entries[index], field))
            ==> file_get_field(
            RLBFileView {
                tables: collection_set_field(f.tables, id, index, field, value).unwrap(),
                toc: f.toc,
                other_toc: f.other_toc,
            },
            id2,
            index2,
            field2,
        ) == file_get_field(f, id2, index2, field2),
{
    let ts = collection_set_field(f.tables, id, index, field, value).unwrap();
    let m = f.tables[id];
    let e = m.entries[index];
    let slots = spec_slots(m.schema);
    let k = value_position(slots, e, field).unwrap();
    let e2 = ts[id].entries[index];
    assert(e2.values == e.values.update(k as int, value));
    assert(value_position(slots, e2, field) == Some(k));
    if id2 == id && index2 == index {
        assert(value_position(slots, e2, field2) == value_position(slots, e, field2));
    }
}

/// A table listed in a table of contents: its id, its label, the descriptors of
/// its fields and its number of entries.
#[derive(Debug)]
pub struct TableView<'a> {
    pub id: TableId,
    pub label: &'a str,
    pub fields: Vec<FieldDescriptor>,
    pub entry_count: usize,
}

impl<'a> TableView<'a> {
    /// The view shows the slot `slot` of file `f`: its table and label, the
    /// descriptors of that table's fields and its number of entries.
    pub open spec fn describes(&self, f: RLBFileView, slot: (int, Seq<char>)) -> bool {
        &&& self.id.0 == slot.0
        &&& self.label@ == slot.1
        &&& 0 <= slot.0 < f.tables.len()
        &&& self.entry_count == f.tables[slot.0].entries.len()
        &&& self.fields@ == descriptor_list(spec_slots(f.tables[slot.0].schema))
    }
}

/// The records of the slots, each with the offset of its table and the offset
/// of its label after interning the label into `pool`, together with the pool
/// after all the labels; `None` when a table is missing or an offset does not fit
/// in 32 bits, or a label cannot be encoded.
pub open spec fn records_of(slots: Seq<(int, Seq<char>)>, offs: Seq<usize>, pool: StringPoolView) -> Option<
    (Seq<TableRecord>, StringPoolView),
>
    decreases slots.len(),
{
    if slots.len() == 0 {
        Some((Seq::empty(), pool))
    } else {
        match records_of(slots.drop_last(), offs, pool) {
            None => None,
            Some((rs, p)) => {
                let id = slots.last().0;
                let label = slots.last().1;
                if id < 0 || id >= offs.len() || offs[id] > u32::MAX {
                    None
                } else {
                    match spec_intern(p, label) {
                        None => None,
                        Some(q) => if q.offsets[label] > u32::MAX {
                            None
                        } else {
                            Some(
                                (
                                    rs.push(
                                        TableRecord {
                                            address: offs[id] as u32,
                                            label_offset: q.offsets[label] as u32,
                                        },
                                    ),
                                    q,
                                ),
                            )
                        },
                    }
                }
            },
        }
    }
}

proof fn lemma_records_prefix(slots: Seq<(int, Seq<char>)>, offs: Seq<usize>, pool: StringPoolView, k: int)
    requires
        0 <= k <= slots.len(),
        records_of(slots, offs, pool) is Some,
    ensures
        records_of(slots.take(k), offs, pool) is Some,
    decreases slots.len(),
{
    if k < slots.len() {
        assert(slots.drop_last().take(k) =~= slots.take(k));
        lemma_records_prefix(slots.drop_last(), offs, pool, k);
    } else {
        assert(slots.take(k) =~= slots);
    }
}

/// `e` is the error that making the records of `slots` gives when it fails: at
/// the first slot that cannot be recorded, `Validation` for a table that was
/// not laid out, `InvalidUtf8` for a label that Shift-JIS cannot encode and
/// `ValueTooLarge` for an offset that does not fit in 32 bits.
pub open spec fn records_fail_with(slots: Seq<(int, Seq<char>)>, offs: Seq<usize>, pool: StringPoolView, e: Error) -> bool
    decreases slots.len(),
{
    if slots.len() == 0 {
        false
    } else {
        match records_of(slots.drop_last(), offs, pool) {
            None => records_fail_with(slots.drop_last(), offs, pool, e),
            Some((rs, p)) => {
                let id = slots.last().0;
                let label = slots.last().1;
                if id < 0 || id >= offs.len() {
                    e matches Error::Validation(m) && m@ == "table ID "@ + table_id_text(id)
                        + " not found in serialized table pool"@
                } else if offs[id] > u32::MAX {
                    e is ValueTooLarge
                } else {
                    match spec_intern(p, label) {
                        None => e matches Error::InvalidUtf8 { context, .. } && context
                            == "serializing string pool (Shift-JIS encode failed)",
                        Some(_) => e is ValueTooLarge,
                    }
                }
            },
        }
    }
}

/// Once a prefix of the slots cannot be recorded, the error is that of the prefix.
proof fn lemma_records_fail_prefix(
    slots: Seq<(int, Seq<char>)>,
    offs: Seq<usize>,
    pool: StringPoolView,
    k: int,
    e: Error,
)
    requires
        0 <= k <= slots.len(),
        records_of(slots.take(k), offs, pool) is None,
    ensures
        records_fail_with(slots, offs, pool, e) == records_fail_with(slots.take(k), offs, pool, e),
    decreases slots.len(),
{
    if k < slots.len() {
        let d = slots.drop_last();
        assert(d.take(k) =~= slots.take(k));
        if records_of(d, offs, pool) is Some {
            lemma_records_prefix(d, offs, pool, k);
        }
        lemma_records_fail_prefix(d, offs, pool, k, e);
    } else {
        assert(slots.take(k) =~= slots);
    }
}

/// `e` is the error that writing `v` gives when its sections cannot be made:
/// that of laying out the tables, or else that of recording the table of
/// contents, or else that of recording the other one.
pub open spec fn parts_fail_with(v: RLBFileView, e: Error) -> bool {
    match serialize_tables(v.tables) {
        None => serialize_fails_with(v.tables, e),
        Some((d, offs, rl)) => match records_of(v.toc, offs, empty_pool()) {
            None => records_fail_with(v.toc, offs, empty_pool(), e),
            Some((rs, p)) => records_fail_with(v.other_toc, offs, p, e),
        },
    }
}

/// The sections of the container that writing a file gives: the data blob, the
/// relocation sites, the records of both tables of contents and the label pool,
/// in which the labels of the table of contents are interned first.
pub open spec fn raw_parts(v: RLBFileView) -> Option<(Seq<u8>, Seq<u32>, Seq<TableRecord>, Seq<TableRecord>, Seq<u8>)> {
    match serialize_tables(v.tables) {
        None => None,
        Some((d, offs, rl)) => match records_of(v.toc, offs, empty_pool()) {
            None => None,
            Some((rs, p)) => match records_of(v.other_toc, offs, p) {
                None => None,
                Some((os, q)) => Some((d, rl, rs, os, q.data)),
            },
        },
    }
}

/// The length of each section fits in 32 bits.
pub open spec fn parts_lengths_fit(p: (Seq<u8>, Seq<u32>, Seq<TableRecord>, Seq<TableRecord>, Seq<u8>)) -> bool {
    p.0.len() <= u32::MAX && p.1.len() <= u32::MAX && p.2.len() <= u32::MAX && p.3.len() <= u32::MAX
        && p.4.len() <= u32::MAX
}

/// The size of the file that holds the sections.
pub open spec fn parts_file_size(p: (Seq<u8>, Seq<u32>, Seq<TableRecord>, Seq<TableRecord>, Seq<u8>)) -> int {
    spec_sections_end(p.0.len() as int, p.1.len() as int, p.2.len() as int, p.3.len() as int)
        + p.4.len()
}

/// The container of the sections, with a header that describes them and zero
/// reserved bytes.
pub open spec fn container_of(p: (Seq<u8>, Seq<u32>, Seq<TableRecord>, Seq<TableRecord>, Seq<u8>)) -> RawFileView {
    RawFileView {
        header: HeaderView {
            file_size: parts_file_size(p) as u32,
            data_size: p.0.len() as u32,
            num_relocs: p.1.len() as u32,
            num_entries: p.2.len() as u32,
            num_other_entries: p.3.len() as u32,
            reserved: Seq::new(12, |i: int| 0u8),
        },
        data: p.0,
        relocation_table: p.1,
        records: p.2,
        other_records: p.3,
        table_labels: p.4,
    }
}

/// The records of the slots, with each label interned into `labels`.
fn make_records(slots: &Vec<TocSlot>, tables: &SerializedTableContext, labels: &mut StringPool) -> (r: Result<Vec<TableRecord>>)
    requires
        old(labels).inv(),
    ensures
        final(labels).inv(),
        records_of(slots_view(slots@), tables@.1, old(labels)@) matches Some((rs, q)) ==> (r matches Ok(v)
            && v@ == rs && final(labels)@ == q),
        records_of(slots_view(slots@), tables@.1, old(labels)@) is None ==> (r matches Err(e)
            && records_fail_with(slots_view(slots@), tables@.1, old(labels)@, e)),
{
    let ghost sv = slots_view(slots@);
    let ghost offs = tables@.1;
    let ghost p0 = labels@;
    let mut out: Vec<TableRecord> = Vec::new();
    let mut i: usize = 0;
    assert(sv.take(0) =~= Seq::<(int, Seq<char>)>::empty());
    while i < slots.len()
        invariant
            sv == slots_view(slots@),
            offs == tables@.1,
            p0 == old(labels)@,
            0 <= i <= slots@.len(),
            labels.inv(),
            records_of(sv.take(i as int), offs, p0) == Some((out@, labels@)),
        decreases slots@.len() - i,
    {
        let slot = &slots[i];
        assert(sv.take(i + 1).drop_last() =~= sv.take(i as int));
        assert(sv.take(i + 1).last() == (slot.table.0 as int, slot.label@));
        let offset = match tables.offset_of(slot.table) {
            Some(o) => o,
            None => {
                let e = validation_naming(
                    "table ID ",
                    table_id_string(slot.table).as_str(),
                    " not found in serialized table pool",
                );
                proof {
                    assert(records_of(sv.take(i + 1), offs, p0) is None);
                    lemma_records_fail_prefix(sv, offs, p0, i + 1, e);
                    if records_of(sv, offs, p0) is Some {
                        lemma_records_prefix(sv, offs, p0, i + 1);
                    }
                }
                return Err(e);
            },
        };
        let address = match checked_u32(offset, "converting table offset") {
            Ok(a) => a,
            Err(e) => {
                proof {
                    assert(records_of(sv.take(i + 1), offs, p0) is None);
                    lemma_records_fail_prefix(sv, offs, p0, i + 1, e);
                    if records_of(sv, offs, p0) is Some {
                        lemma_records_prefix(sv, offs, p0, i + 1);
                    }
                }
                return Err(e);
            },
        };
        let ghost before = labels@;
        let lo = match labels.intern(slot.label.as_str()) {
            Ok(o) => o,
            Err(e) => {
                proof {
                    assert(spec_intern(before, slot.label@) is None);
                    assert(records_of(sv.take(i + 1), offs, p0) is None);
                    lemma_records_fail_prefix(sv, offs, p0, i + 1, e);
                    if records_of(sv, offs, p0) is Some {
                        lemma_records_prefix(sv, offs, p0, i + 1);
                    }
                }
                return Err(e);
            },
        };
        assert(spec_intern(before, slot.label@) == Some(labels@));
        assert(labels@.offsets[slot.label@] == lo);
        let label_offset = match checked_u32(lo, "converting label offset") {
            Ok(l) => l,
            Err(e) => {
                proof {
                    assert(records_of(sv.take(i + 1), offs, p0) is None);
                    lemma_records_fail_prefix(sv, offs, p0, i + 1, e);
                    if records_of(sv, offs, p0) is Some {
                        lemma_records_prefix(sv, offs, p0, i + 1);
                    }
                }
                return Err(e);
            },
        };
        out.push(TableRecord { address, label_offset });
        i = i + 1;
    }
    assert(sv.take(sv.len() as int) =~= sv);
    Ok(out)
}

proof fn lemma_read_tables_len(all: Seq<(Seq<char>, usize)>, order: Seq<int>, data: Seq<u8>, relocs: Seq<u32>)
    requires
        read_tables(all, order, data, relocs) is Some,
    ensures
        read_tables(all, order, data, relocs).unwrap().len() == order.len(),
    decreases order.len(),
{
    if order.len() > 0 {
        lemma_read_tables_len(all, order.drop_last(), data, relocs);
    }
}

/// Each record of a list reads as its label, read from the label pool, and its
/// address.
proof fn lemma_pending_index(records: Seq<TableRecord>, labels: Seq<u8>)
    requires
        pending_of(records, labels) is Some,
    ensures
        pending_of(records, labels).unwrap().len() == records.len(),
        forall|i: int|
            0 <= i < records.len() ==> pointed_string(labels, #[trigger] records[i].label_offset) == Some(
                pending_of(records, labels).unwrap()[i].0,
            ) && pending_of(records, labels).unwrap()[i].1 == records[i].address as usize,
    decreases records.len(),
{
    if records.len() > 0 {
        let d = records.drop_last();
        lemma_pending_index(d, labels);
        let p = pending_of(records, labels).unwrap();
        let q = pending_of(d, labels).unwrap();
        assert forall|i: int| 0 <= i < records.len() implies pointed_string(labels, #[trigger] records[i].label_offset)
            == Some(p[i].0) && p[i].1 == records[i].address as usize by {
            if i < d.len() {
                assert(records[i] == d[i]);
                assert(p[i] == q[i]);
            }
        }
    }
}

/// Reading a file gives one table for each slot of its two tables of contents:
/// each slot names a table of its own, and its label is the label of its record,
/// read from the label pool.
pub proof fn lemma_read_file_slots(raw: RawFileView)
    requires
        file_of_raw(raw) is Some,
    ensures
        ({
            let f = file_of_raw(raw).unwrap();
            let s = f.toc + f.other_toc;
            &&& f.toc.len() == raw.records.len()
            &&& f.other_toc.len() == raw.other_records.len()
            &&& f.tables.len() == s.len()
            &&& forall|i: int|
                0 <= i < f.toc.len() ==> pointed_string(raw.table_labels, #[trigger] raw.records[i].label_offset)
                    == Some(f.toc[i].1)
            &&& forall|i: int|
                0 <= i < f.other_toc.len() ==> pointed_string(
                    raw.table_labels,
                    #[trigger] raw.other_records[i].label_offset,
                ) == Some(f.other_toc[i].1)
            &&& forall|i: int| 0 <= i < s.len() ==> 0 <= #[trigger] s[i].0 < f.tables.len()
            &&& forall|i: int, j: int| 0 <= i < j < s.len() ==> #[trigger] s[i].0 != #[trigger] s[j].0
        }),
{
    let t = pending_of(raw.records, raw.table_labels).unwrap();
    let o = pending_of(raw.other_records, raw.table_labels).unwrap();
    lemma_pending_index(raw.records, raw.table_labels);
    lemma_pending_index(raw.other_records, raw.table_labels);
    let all = all_pending(t, o);
    let order = read_order(all);
    let n = all.len();
    lemma_parse_order_perm(roots_of(all), n);
    lemma_read_tables_len(all, order, raw.data, raw.relocation_table);
    let f = file_of_raw(raw).unwrap();
    let s = f.toc + f.other_toc;
    assert forall|i: int| 0 <= i < s.len() implies s[i].0 == slot_index(order, i) && 0 <= #[trigger] s[i].0 < n
        && order[s[i].0] == i by {
        assert(order.contains(i));
        if i < t.len() {
            assert(s[i] == f.toc[i]);
        } else {
            assert(s[i] == f.other_toc[i - t.len()]);
        }
    }
    assert forall|i: int, j: int| 0 <= i < j < s.len() implies #[trigger] s[i].0 != #[trigger] s[j].0 by {
        assert(order[s[i].0] == i);
        assert(order[s[j].0] == j);
    }
}

} // verus!
