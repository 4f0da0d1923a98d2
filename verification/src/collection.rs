//! The tables of a file, and how they are laid out together with their strings
//! in the data blob.
use vstd::prelude::*;
use crate::be::{lemma_u32_be_roundtrip, u32_be};
use crate::entry::{encode_slots, EntryView};
use crate::codec::encode_field;
use crate::schema::{field_count, Slot};
use crate::codec::{fixups_view, RelocatableTable};
use crate::error::{Error, Result};
use crate::sjis::shift_jis_encoded;
use crate::string_pool::{StringPool, StringPoolView};
use crate::table::{
    encode_entries, encode_sized, encode_table, model_set_field, set_field_message, table_write_message, Table,
    TableModel,
};
use crate::util::checked_u32;
use crate::value::validation;
use crate::util::{debug_text, decimal, decimal_string};

verus! {

/// Identifies a table of a file: its position among the tables of the
/// collection, in the order in which they were added. The table is held in the
/// collection's slot map under the key with index one past that position and
/// version 1.
#[derive(Debug, Clone, Copy, PartialEq, Eq, Hash, Structural)]
pub struct TableId(pub usize);

/// How the table `id` is named in messages: `TableId(<k>v1)`, the index and
/// version of its key in the slot map, as a slot map key prints them.
pub open spec fn table_id_text(id: int) -> Seq<char> {
    "TableId("@ + decimal((id + 1) as nat) + "v1)"@
}

/// The name of the table `id` in messages.
pub(crate) fn table_id_string(id: TableId) -> (r: String)
    ensures
        r@ == table_id_text(id.0 as int),
{
    String::from_str("TableId(").concat(decimal_string(id.0 as u128 + 1).as_str()).concat("v1)")
}

/// The pool after interning `s`; `None` when `s` cannot be encoded.
pub open spec fn spec_intern(pool: StringPoolView, s: Seq<char>) -> Option<StringPoolView> {
    if pool.offsets.contains_key(s) {
        Some(pool)
    } else {
        match shift_jis_encoded(s) {
            None => None,
            Some(b) => Some(
                StringPoolView {
                    data: pool.data + b + seq![0u8],
                    offsets: pool.offsets.insert(s, pool.data.len() as usize),
                },
            ),
        }
    }
}

/// The pool after interning each of `strs` in turn.
pub open spec fn intern_all(pool: StringPoolView, strs: Seq<Seq<char>>) -> Option<StringPoolView>
    decreases strs.len(),
{
    if strs.len() == 0 {
        Some(pool)
    } else {
        match intern_all(pool, strs.drop_last()) {
            None => None,
            Some(p) => spec_intern(p, strs.last()),
        }
    }
}

/// The bytes and fixups of each table; `None` when one cannot be written.
pub open spec fn encode_all(ts: Seq<TableModel>) -> Option<Seq<(Seq<u8>, Seq<(int, Seq<char>)>)>>
    decreases ts.len(),
{
    if ts.len() == 0 {
        Some(Seq::empty())
    } else {
        match encode_all(ts.drop_last()) {
            None => None,
            Some(es) => match encode_table(ts.last()) {
                Some(e) => Some(es.push(e)),
                None => None,
            },
        }
    }
}

/// The strings of all fixups, table by table.
pub open spec fn fixup_strings(encs: Seq<(Seq<u8>, Seq<(int, Seq<char>)>)>) -> Seq<Seq<char>>
    decreases encs.len(),
{
    if encs.len() == 0 {
        Seq::empty()
    } else {
        fixup_strings(encs.drop_last()) + Seq::new(
            encs.last().1.len(),
            |j: int| encs.last().1[j].1,
        )
    }
}

/// `b` with the four bytes at `o` replaced by `w`.
pub open spec fn patch(b: Seq<u8>, o: int, w: Seq<u8>) -> Seq<u8> {
    b.subrange(0, o) + w + b.subrange(o + 4, b.len() as int)
}

/// A table's bytes with each pointer field set to its string's offset in the
/// pool, and the relocation sites of those fields when the table starts at
/// `base`; `None` when an offset does not fit in 32 bits.
pub open spec fn patch_fixups(
    pool: StringPoolView,
    base: int,
    b: Seq<u8>,
    f: Seq<(int, Seq<char>)>,
) -> Option<(Seq<u8>, Seq<u32>)>
    decreases f.len(),
{
    if f.len() == 0 {
        Some((b, Seq::empty()))
    } else {
        match patch_fixups(pool, base, b, f.drop_last()) {
            None => None,
            Some((pb, rs)) => {
                let o = f.last().0;
                let t = f.last().1;
                if !pool.offsets.contains_key(t) || pool.offsets[t] > u32::MAX || o < 0 || o + 4
                    > pb.len() || base + o > u32::MAX {
                    None
                } else {
                    Some((patch(pb, o, u32_be(pool.offsets[t] as u32)), rs.push((base + o) as u32)))
                }
            },
        }
    }
}

/// The data blob (the pool, then each table), the relocation sites and the
/// offset of each table.
pub open spec fn place_tables(pool: StringPoolView, encs: Seq<(Seq<u8>, Seq<(int, Seq<char>)>)>) -> Option<
    (Seq<u8>, Seq<u32>, Seq<usize>),
>
    decreases encs.len(),
{
    if encs.len() == 0 {
        Some((pool.data, Seq::empty(), Seq::empty()))
    } else {
        match place_tables(pool, encs.drop_last()) {
            None => None,
            Some((d, rl, offs)) => match patch_fixups(pool, d.len() as int, encs.last().0, encs.last().1) {
                None => None,
                Some((pb, rs)) => Some((d + pb, rl + rs, offs.push(d.len() as usize))),
            },
        }
    }
}

proof fn lemma_encode_all_prefix(ts: Seq<TableModel>, k: int)
    requires
        0 <= k <= ts.len(),
        encode_all(ts) is Some,
    ensures
        encode_all(ts.take(k)) is Some,
    decreases ts.len(),
{
    if k < ts.len() {
        assert(ts.drop_last().take(k) =~= ts.take(k));
        lemma_encode_all_prefix(ts.drop_last(), k);
    } else {
        assert(ts.take(k) =~= ts);
    }
}

proof fn lemma_intern_all_prefix(pool: StringPoolView, strs: Seq<Seq<char>>, k: int)
    requires
        0 <= k <= strs.len(),
        intern_all(pool, strs) is Some,
    ensures
        intern_all(pool, strs.take(k)) is Some,
    decreases strs.len(),
{
    if k < strs.len() {
        assert(strs.drop_last().take(k) =~= strs.take(k));
        lemma_intern_all_prefix(pool, strs.drop_last(), k);
    } else {
        assert(strs.take(k) =~= strs);
    }
}

proof fn lemma_fixup_strings_prefix(encs: Seq<(Seq<u8>, Seq<(int, Seq<char>)>)>, i: int)
    requires
        0 <= i <= encs.len(),
    ensures
        fixup_strings(encs).len() >= fixup_strings(encs.take(i)).len(),
        fixup_strings(encs.take(i)) == fixup_strings(encs).take(fixup_strings(encs.take(i)).len() as int),
    decreases encs.len(),
{
    if i < encs.len() {
        assert(encs.drop_last().take(i) =~= encs.take(i));
        lemma_fixup_strings_prefix(encs.drop_last(), i);
        let a = fixup_strings(encs.take(i));
        let b = fixup_strings(encs.drop_last());
        assert(fixup_strings(encs).take(b.len() as int) =~= b);
        assert(fixup_strings(encs).take(a.len() as int) =~= b.take(a.len() as int));
    } else {
        assert(encs.take(i) =~= encs);
        assert(fixup_strings(encs).take(fixup_strings(encs).len() as int) =~= fixup_strings(encs));
    }
}

/// When interning the `j`-th string of table `i` fails, interning all fails.
proof fn lemma_intern_fails_on(encs: Seq<(Seq<u8>, Seq<(int, Seq<char>)>)>, i: int, j: int)
    requires
        0 <= i < encs.len(),
        0 <= j < encs[i].1.len(),
        intern_all(
            empty_pool(),
            fixup_strings(encs.take(i)) + Seq::new((j + 1) as nat, |k: int| encs[i].1[k].1),
        ) is None,
    ensures
        intern_all(empty_pool(), fixup_strings(encs)) is None,
{
    let pre = fixup_strings(encs.take(i)) + Seq::new((j + 1) as nat, |k: int| encs[i].1[k].1);
    lemma_fixup_strings_prefix(encs, i + 1);
    assert(encs.take(i + 1).drop_last() =~= encs.take(i));
    let upto = fixup_strings(encs.take(i + 1));
    assert(upto.take(pre.len() as int) =~= pre);
    if intern_all(empty_pool(), fixup_strings(encs)) is Some {
        lemma_intern_all_prefix(empty_pool(), fixup_strings(encs), pre.len() as int);
        assert(fixup_strings(encs).take(pre.len() as int) =~= pre);
    }
}

proof fn lemma_patch_prefix(
    pool: StringPoolView,
    base: int,
    b: Seq<u8>,
    f: Seq<(int, Seq<char>)>,
    k: int,
)
    requires
        0 <= k <= f.len(),
        patch_fixups(pool, base, b, f) is Some,
    ensures
        patch_fixups(pool, base, b, f.take(k)) is Some,
    decreases f.len(),
{
    if k < f.len() {
        assert(f.drop_last().take(k) =~= f.take(k));
        lemma_patch_prefix(pool, base, b, f.drop_last(), k);
    } else {
        assert(f.take(k) =~= f);
    }
}

/// When patching the `j`-th fixup fails, patching the table fails.
proof fn lemma_patch_fails_on(
    pool: StringPoolView,
    base: int,
    b: Seq<u8>,
    f: Seq<(int, Seq<char>)>,
    j: int,
)
    requires
        0 <= j < f.len(),
        patch_fixups(pool, base, b, f.take(j + 1)) is None,
    ensures
        patch_fixups(pool, base, b, f) is None,
{
    if patch_fixups(pool, base, b, f) is Some {
        lemma_patch_prefix(pool, base, b, f, j + 1);
    }
}

proof fn lemma_place_prefix(pool: StringPoolView, encs: Seq<(Seq<u8>, Seq<(int, Seq<char>)>)>, k: int)
    requires
        0 <= k <= encs.len(),
        place_tables(pool, encs) is Some,
    ensures
        place_tables(pool, encs.take(k)) is Some,
    decreases encs.len(),
{
    if k < encs.len() {
        assert(encs.drop_last().take(k) =~= encs.take(k));
        lemma_place_prefix(pool, encs.drop_last(), k);
    } else {
        assert(encs.take(k) =~= encs);
    }
}

/// When patching table `i` fails, laying out all the tables fails.
proof fn lemma_place_fails_on(pool: StringPoolView, encs: Seq<(Seq<u8>, Seq<(int, Seq<char>)>)>, i: int)
    requires
        0 <= i < encs.len(),
        place_tables(pool, encs.take(i)) is Some,
        patch_fixups(pool, place_tables(pool, encs.take(i)).unwrap().0.len() as int, encs[i].0, encs[i].1)
            is None,
    ensures
        place_tables(pool, encs) is None,
{
    if place_tables(pool, encs) is Some {
        lemma_place_prefix(pool, encs, i + 1);
        assert(encs.take(i + 1).drop_last() =~= encs.take(i));
        assert(encs.take(i + 1).last() == encs[i]);
    }
}

/// Interning keeps the strings the pool had and adds `s`.
proof fn lemma_spec_intern_holds(p: StringPoolView, s: Seq<char>)
    requires
        spec_intern(p, s) is Some,
    ensures
        spec_intern(p, s).unwrap().offsets.contains_key(s),
        forall|t: Seq<char>| #[trigger] p.offsets.contains_key(t) ==> spec_intern(p, s).unwrap().offsets.contains_key(t),
{
}

/// Interning all the strings leaves each of them in the pool.
proof fn lemma_intern_all_holds(p: StringPoolView, strs: Seq<Seq<char>>)
    requires
        intern_all(p, strs) is Some,
    ensures
        forall|n: int| 0 <= n < strs.len() ==> intern_all(p, strs).unwrap().offsets.contains_key(#[trigger] strs[n]),
    decreases strs.len(),
{
    if strs.len() > 0 {
        let d = strs.drop_last();
        lemma_intern_all_holds(p, d);
        let q = intern_all(p, d).unwrap();
        lemma_spec_intern_holds(q, strs.last());
        assert forall|n: int| 0 <= n < strs.len() implies intern_all(p, strs).unwrap().offsets.contains_key(
            #[trigger] strs[n],
        ) by {
            if n < d.len() {
                assert(d[n] == strs[n]);
                assert(q.offsets.contains_key(d[n]));
            }
        }
    }
}

/// The string of each fixup of each table is among the fixup strings.
proof fn lemma_fixup_strings_has(encs: Seq<(Seq<u8>, Seq<(int, Seq<char>)>)>, i: int, j: int)
    requires
        0 <= i < encs.len(),
        0 <= j < encs[i].1.len(),
    ensures
        exists|n: int| 0 <= n < fixup_strings(encs).len() && #[trigger] fixup_strings(encs)[n] == encs[i].1[j].1,
    decreases encs.len(),
{
    let d = encs.drop_last();
    let pre = fixup_strings(d);
    if i < d.len() {
        assert(d[i] == encs[i]);
        lemma_fixup_strings_has(d, i, j);
        let n = choose|n: int| 0 <= n < pre.len() && #[trigger] pre[n] == d[i].1[j].1;
        assert(fixup_strings(encs)[n] == pre[n]);
    } else {
        let n = pre.len() + j;
        assert(fixup_strings(encs)[n] == encs.last().1[j].1);
    }
}

/// Each fixup of an encoded entry lies within its bytes.
proof fn lemma_encode_slots_bounds(slots: Seq<Slot>, e: EntryView)
    requires
        encode_slots(slots, e) is Some,
    ensures
        forall|j: int|
            0 <= j < encode_slots(slots, e).unwrap().1.len() ==> 0 <= #[trigger] encode_slots(slots, e).unwrap().1[j].0
                && encode_slots(slots, e).unwrap().1[j].0 + 4 <= encode_slots(slots, e).unwrap().0.len(),
    decreases slots.len(),
{
    if slots.len() > 0 {
        let s = slots.drop_last();
        lemma_encode_slots_bounds(s, e);
        let (b, f) = encode_slots(s, e).unwrap();
        let (b2, f2) = encode_slots(slots, e).unwrap();
        match slots.last() {
            Slot::Field { codec, .. } => {
                let k = field_count(s) as int;
                let (fb, t) = encode_field(codec, e.values[k]).unwrap();
                lemma_u32_be_roundtrip(0);
                assert forall|j: int| 0 <= j < f2.len() implies 0 <= #[trigger] f2[j].0 && f2[j].0 + 4 <= b2.len() by {
                    if j < f.len() {
                        assert(f2[j] == f[j]);
                    }
                }
            },
            Slot::Pad(_) => {},
        }
    }
}

/// Each fixup of encoded entries lies within their bytes.
proof fn lemma_encode_entries_bounds(slots: Seq<Slot>, size: nat, es: Seq<EntryView>)
    requires
        encode_entries(slots, size, es) is Some,
    ensures
        forall|j: int|
            0 <= j < encode_entries(slots, size, es).unwrap().1.len() ==> 0 <= #[trigger] encode_entries(slots, size, es).unwrap().1[j].0
                && encode_entries(slots, size, es).unwrap().1[j].0 + 4 <= encode_entries(slots, size, es).unwrap().0.len(),
    decreases es.len(),
{
    if es.len() > 0 {
        let d = es.drop_last();
        lemma_encode_entries_bounds(slots, size, d);
        lemma_encode_slots_bounds(slots, es.last());
        let (b, f) = encode_entries(slots, size, d).unwrap();
        let (c, g) = encode_sized(slots, size, es.last()).unwrap();
        let (bc, h) = encode_entries(slots, size, es).unwrap();
        assert forall|j: int| 0 <= j < h.len() implies 0 <= #[trigger] h[j].0 && h[j].0 + 4 <= bc.len() by {
            if j < f.len() {
                assert(h[j] == f[j]);
            } else {
                assert(h[j].0 == g[j - f.len()].0 + b.len());
            }
        }
    }
}

/// Patching keeps the length of the bytes.
proof fn lemma_patch_len(pool: StringPoolView, base: int, b: Seq<u8>, f: Seq<(int, Seq<char>)>)
    requires
        patch_fixups(pool, base, b, f) is Some,
    ensures
        patch_fixups(pool, base, b, f).unwrap().0.len() == b.len(),
    decreases f.len(),
{
    if f.len() > 0 {
        lemma_patch_len(pool, base, b, f.drop_last());
        lemma_u32_be_roundtrip(pool.offsets[f.last().1] as u32);
    }
}

/// Each fixup of each encoded table lies within that table's bytes.
proof fn lemma_encoded_fixups_fit(ts: Seq<TableModel>, encs: Seq<(Seq<u8>, Seq<(int, Seq<char>)>)>)
    requires
        encode_all(ts) == Some(encs),
    ensures
        forall|k: int, j: int|
            0 <= k < encs.len() && 0 <= j < encs[k].1.len() ==> 0 <= #[trigger] encs[k].1[j].0 && encs[k].1[j].0 + 4
                <= encs[k].0.len(),
    decreases ts.len(),
{
    if ts.len() > 0 {
        let d = encode_all(ts.drop_last()).unwrap();
        lemma_encoded_fixups_fit(ts.drop_last(), d);
        let m = ts.last();
        let all = match m.terminator {
            Some(t) => m.entries.push(t),
            None => m.entries,
        };
        lemma_encode_entries_bounds(crate::schema::spec_slots(m.schema), crate::schema::spec_entry_size(m.schema), all);
        assert forall|k: int, j: int| 0 <= k < encs.len() && 0 <= j < encs[k].1.len() implies 0 <= #[trigger] encs[k].1[j].0
            && encs[k].1[j].0 + 4 <= encs[k].0.len() by {
            if k < d.len() {
                assert(encs[k] == d[k]);
            }
        }
    }
}

/// After interning all the fixup strings, the pool holds the string of each fixup.
proof fn lemma_pool_has_fixups(encs: Seq<(Seq<u8>, Seq<(int, Seq<char>)>)>, pool: StringPoolView)
    requires
        intern_all(empty_pool(), fixup_strings(encs)) == Some(pool),
    ensures
        forall|k: int, j: int|
            0 <= k < encs.len() && 0 <= j < encs[k].1.len() ==> pool.offsets.contains_key(#[trigger] encs[k].1[j].1),
{
    lemma_intern_all_holds(empty_pool(), fixup_strings(encs));
    assert forall|k: int, j: int| 0 <= k < encs.len() && 0 <= j < encs[k].1.len() implies pool.offsets.contains_key(
        #[trigger] encs[k].1[j].1,
    ) by {
        lemma_fixup_strings_has(encs, k, j);
        let n = choose|n: int| 0 <= n < fixup_strings(encs).len() && #[trigger] fixup_strings(encs)[n] == encs[k].1[j].1;
        assert(pool.offsets.contains_key(fixup_strings(encs)[n]));
    }
}

/// The number of bytes of the given tables together.
pub open spec fn total_len(encs: Seq<(Seq<u8>, Seq<(int, Seq<char>)>)>) -> int
    decreases encs.len(),
{
    if encs.len() == 0 {
        0
    } else {
        total_len(encs.drop_last()) + encs.last().0.len()
    }
}

/// The tables before `k` take no more bytes than all of them.
proof fn lemma_total_len_prefix(encs: Seq<(Seq<u8>, Seq<(int, Seq<char>)>)>, k: int)
    requires
        0 <= k <= encs.len(),
    ensures
        0 <= total_len(encs.take(k)) <= total_len(encs),
        k < encs.len() ==> total_len(encs.take(k + 1)) == total_len(encs.take(k)) + encs[k].0.len(),
    decreases encs.len(),
{
    if k < encs.len() {
        assert(encs.take(k + 1).drop_last() =~= encs.take(k));
        lemma_total_len_prefix(encs.drop_last(), k);
        assert(encs.drop_last().take(k) =~= encs.take(k));
        if k + 1 < encs.len() {
            lemma_total_len_prefix(encs.drop_last(), k + 1);
            assert(encs.drop_last().take(k + 1) =~= encs.take(k + 1));
        } else {
            assert(encs.take(k + 1) =~= encs);
        }
    } else {
        assert(encs.take(k) =~= encs);
        if encs.len() > 0 {
            lemma_total_len_prefix(encs.drop_last(), 0);
        }
    }
}

/// The relocation sites of tables placed at `offs`: the positions of their
/// pointer fields, table by table and field by field.
pub open spec fn all_sites(encs: Seq<(Seq<u8>, Seq<(int, Seq<char>)>)>, offs: Seq<usize>) -> Seq<u32>
    decreases encs.len(),
{
    if encs.len() == 0 {
        Seq::empty()
    } else {
        let n = encs.len() - 1;
        all_sites(encs.drop_last(), offs) + Seq::new(encs.last().1.len(), |j: int| (offs[n] + encs.last().1[j].0) as u32)
    }
}

/// Patching gives a relocation site for each fixup, at its position from `base`.
proof fn lemma_patch_sites(pool: StringPoolView, base: int, b: Seq<u8>, f: Seq<(int, Seq<char>)>)
    requires
        patch_fixups(pool, base, b, f) is Some,
    ensures
        patch_fixups(pool, base, b, f).unwrap().1 == Seq::new(f.len(), |j: int| (base + f[j].0) as u32),
    decreases f.len(),
{
    if f.len() > 0 {
        lemma_patch_sites(pool, base, b, f.drop_last());
        let rs = patch_fixups(pool, base, b, f).unwrap().1;
        assert(rs =~= Seq::new(f.len(), |j: int| (base + f[j].0) as u32));
    }
}

/// The tables laid out after the pool: each at the end of the ones before it,
/// the data blob being the pool and then each patched table, and the relocation
/// sites being those of the tables in order.
proof fn lemma_place_contiguous(pool: StringPoolView, encs: Seq<(Seq<u8>, Seq<(int, Seq<char>)>)>)
    requires
        place_tables(pool, encs) is Some,
        place_tables(pool, encs).unwrap().0.len() <= usize::MAX,
    ensures
        total_len(encs) >= 0,
        ({
            let (d, rl, offs) = place_tables(pool, encs).unwrap();
            &&& offs.len() == encs.len()
            &&& d.len() == pool.data.len() + total_len(encs)
            &&& d.take(pool.data.len() as int) == pool.data
            &&& forall|i: int| 0 <= i < encs.len() ==> #[trigger] offs[i] == pool.data.len() + total_len(encs.take(i))
            &&& forall|i: int|
                0 <= i < encs.len() ==> {
                    &&& patch_fixups(pool, offs[i] as int, encs[i].0, encs[i].1) is Some
                    &&& d.subrange(#[trigger] offs[i] as int, offs[i] + encs[i].0.len()) == patch_fixups(
                        pool,
                        offs[i] as int,
                        encs[i].0,
                        encs[i].1,
                    ).unwrap().0
                }
            &&& rl == all_sites(encs, offs)
        }),
    decreases encs.len(),
{
    let (d, rl, offs) = place_tables(pool, encs).unwrap();
    if encs.len() == 0 {
        assert(d.take(pool.data.len() as int) =~= pool.data);
    } else {
        let e = encs.drop_last();
        lemma_place_contiguous(pool, e);
        let (d0, rl0, offs0) = place_tables(pool, e).unwrap();
        let n = e.len() as int;
        let (b, f) = encs.last();
        lemma_patch_len(pool, d0.len() as int, b, f);
        lemma_patch_sites(pool, d0.len() as int, b, f);
        let (pb, rs) = patch_fixups(pool, d0.len() as int, b, f).unwrap();
        assert(d == d0 + pb);
        assert(d0.len() <= d.len());
        assert(offs == offs0.push(d0.len() as usize));
        assert(d.take(pool.data.len() as int) =~= d0.take(pool.data.len() as int));
        assert(encs.take(n) =~= e);
        assert forall|i: int| 0 <= i < encs.len() implies #[trigger] offs[i] == pool.data.len() + total_len(encs.take(i)) by {
            if i < n {
                assert(e.take(i) =~= encs.take(i));
                assert(e[i] == encs[i]);
            }
        }
        assert forall|i: int| 0 <= i < encs.len() implies {
            &&& patch_fixups(pool, offs[i] as int, encs[i].0, encs[i].1) is Some
            &&& d.subrange(#[trigger] offs[i] as int, offs[i] + encs[i].0.len()) == patch_fixups(
                pool,
                offs[i] as int,
                encs[i].0,
                encs[i].1,
            ).unwrap().0
        } by {
            if i < n {
                assert(e[i] == encs[i]);
                assert(offs[i] == offs0[i]);
                lemma_total_len_prefix(e, i);
                lemma_total_len_prefix(e, i + 1);
                assert(d.subrange(offs[i] as int, offs[i] + encs[i].0.len()) =~= d0.subrange(
                    offs0[i] as int,
                    offs0[i] + e[i].0.len(),
                ));
            } else {
                assert(d.subrange(offs[i] as int, offs[i] + encs[i].0.len()) =~= pb);
            }
        }
        lemma_all_sites_prefix(e, offs0, offs);
        assert(rs =~= Seq::new(encs.last().1.len(), |j: int| (offs[n] + encs.last().1[j].0) as u32));
    }
}

/// The sites of tables depend only on the offsets of those tables.
proof fn lemma_all_sites_prefix(encs: Seq<(Seq<u8>, Seq<(int, Seq<char>)>)>, a: Seq<usize>, b: Seq<usize>)
    requires
        encs.len() <= a.len(),
        encs.len() <= b.len(),
        forall|i: int| 0 <= i < encs.len() ==> a[i] == b[i],
    ensures
        all_sites(encs, a) == all_sites(encs, b),
    decreases encs.len(),
{
    if encs.len() > 0 {
        lemma_all_sites_prefix(encs.drop_last(), a, b);
        let n = encs.len() - 1;
        assert(Seq::new(encs.last().1.len(), |j: int| (a[n] + encs.last().1[j].0) as u32) =~= Seq::new(
            encs.last().1.len(),
            |j: int| (b[n] + encs.last().1[j].0) as u32,
        ));
    }
}

/// The encoding of each table, in order.
proof fn lemma_encode_all_each(ts: Seq<TableModel>)
    requires
        encode_all(ts) is Some,
    ensures
        encode_all(ts).unwrap().len() == ts.len(),
        forall|i: int| 0 <= i < ts.len() ==> encode_table(#[trigger] ts[i]) == Some(encode_all(ts).unwrap()[i]),
    decreases ts.len(),
{
    if ts.len() > 0 {
        let d = ts.drop_last();
        lemma_encode_all_each(d);
        assert forall|i: int| 0 <= i < ts.len() implies encode_table(#[trigger] ts[i]) == Some(encode_all(ts).unwrap()[i]) by {
            if i < d.len() {
                assert(d[i] == ts[i]);
            }
        }
    }
}

/// Writing tables lays out, after a pool that holds the string of every pointer
/// field, each table in turn right after the one before it, with its pointer
/// fields patched; the relocation sites are the positions of those fields, table
/// by table and field by field.
pub proof fn lemma_serialize_layout(ts: Seq<TableModel>)
    requires
        serialize_tables(ts) is Some,
        serialize_tables(ts).unwrap().0.len() <= usize::MAX,
    ensures
        ({
            let encs = encode_all(ts).unwrap();
            let pool = intern_all(empty_pool(), fixup_strings(encs)).unwrap();
            let (d, offs, rl) = serialize_tables(ts).unwrap();
            &&& encs.len() == ts.len()
            &&& forall|i: int| 0 <= i < ts.len() ==> encode_table(#[trigger] ts[i]) == Some(encs[i])
            &&& forall|k: int, j: int|
                0 <= k < encs.len() && 0 <= j < encs[k].1.len() ==> pool.offsets.contains_key(
                    #[trigger] encs[k].1[j].1,
                )
            &&& offs.len() == ts.len()
            &&& d.len() == pool.data.len() + total_len(encs)
            &&& d.take(pool.data.len() as int) == pool.data
            &&& forall|i: int| 0 <= i < ts.len() ==> #[trigger] offs[i] == pool.data.len() + total_len(encs.take(i))
            &&& forall|i: int|
                0 <= i < ts.len() ==> d.subrange(#[trigger] offs[i] as int, offs[i] + encs[i].0.len())
                    == patch_fixups(pool, offs[i] as int, encs[i].0, encs[i].1).unwrap().0
            &&& rl == all_sites(encs, offs)
        }),
{
    let encs = encode_all(ts).unwrap();
    let pool = intern_all(empty_pool(), fixup_strings(encs)).unwrap();
    lemma_encode_all_each(ts);
    lemma_pool_has_fixups(encs, pool);
    lemma_place_contiguous(pool, encs);
}

/// The message of the error that writing the tables gives when one cannot be
/// written: that of the first such table.
pub open spec fn tables_write_message(ts: Seq<TableModel>) -> Seq<char>
    decreases ts.len(),
{
    if ts.len() == 0 {
        Seq::empty()
    } else if encode_all(ts.drop_last()) is None {
        tables_write_message(ts.drop_last())
    } else {
        table_write_message(ts.last())
    }
}

/// Once a prefix of the tables cannot be written, the message is that of the prefix.
proof fn lemma_tables_message_prefix(ts: Seq<TableModel>, k: int)
    requires
        0 <= k <= ts.len(),
        encode_all(ts.take(k)) is None,
    ensures
        tables_write_message(ts) == tables_write_message(ts.take(k)),
    decreases ts.len(),
{
    if k < ts.len() {
        let d = ts.drop_last();
        assert(d.take(k) =~= ts.take(k));
        if encode_all(d) is Some {
            lemma_encode_all_prefix(d, k);
        }
        lemma_tables_message_prefix(d, k);
    } else {
        assert(ts.take(k) =~= ts);
    }
}

/// `e` is the error that laying out tables gives when it fails: a value that
/// does not fit its field, a string that Shift-JIS cannot encode, or an offset
/// that does not fit in 32 bits.
pub open spec fn serialize_fails_with(ts: Seq<TableModel>, e: Error) -> bool {
    match encode_all(ts) {
        None => e matches Error::Validation(m) && m@ == tables_write_message(ts),
        Some(encs) => match intern_all(empty_pool(), fixup_strings(encs)) {
            None => e matches Error::InvalidUtf8 { context, .. } && context == "serializing string pool (Shift-JIS encode failed)",
            Some(_) => e is ValueTooLarge,
        },
    }
}

/// The empty pool.
pub open spec fn empty_pool() -> StringPoolView {
    StringPoolView { data: Seq::empty(), offsets: Map::empty() }
}

/// The data blob, table offsets and relocation sites that writing the tables
/// gives; `None` when it fails.
pub open spec fn serialize_tables(ts: Seq<TableModel>) -> Option<(Seq<u8>, Seq<usize>, Seq<u32>)> {
    match encode_all(ts) {
        None => None,
        Some(encs) => match intern_all(empty_pool(), fixup_strings(encs)) {
            None => None,
            Some(pool) => match place_tables(pool, encs) {
                None => None,
                Some((d, rl, offs)) => Some((d, offs, rl)),
            },
        },
    }
}

/// The tables laid out in the data blob: the data, where each table starts and
/// the relocation sites.
#[derive(Debug)]
pub struct SerializedTableContext {
    data: Vec<u8>,
    offsets: Vec<usize>,
    relocations: Vec<u32>,
}

impl View for SerializedTableContext {
    /// The data blob, the table offsets and the relocation sites.
    type V = (Seq<u8>, Seq<usize>, Seq<u32>);

    closed spec fn view(&self) -> (Seq<u8>, Seq<usize>, Seq<u32>) {
        (self.data@, self.offsets@, self.relocations@)
    }
}

impl SerializedTableContext {
    /// The data blob.
    pub fn data(&self) -> (r: &Vec<u8>)
        ensures
            r@ == self@.0,
    {
        &self.data
    }

    /// Where the table `id` starts in the data blob.
    pub fn offset_of(&self, id: TableId) -> (r: Option<usize>)
        ensures
            id.0 < self@.1.len() ==> r == Some(self@.1[id.0 as int]),
            id.0 >= self@.1.len() ==> r is None,
    {
        if id.0 < self.offsets.len() {
            Some(self.offsets[id.0])
        } else {
            None
        }
    }

    /// The relocation sites: the offsets of the pointer fields, table by table.
    pub fn relocations(&self) -> (r: &Vec<u32>)
        ensures
            r@ == self@.2,
    {
        &self.relocations
    }
}

/// The bytes and fixups of serialized tables.
pub open spec fn relocatable_views(v: Seq<RelocatableTable>) -> Seq<(Seq<u8>, Seq<(int, Seq<char>)>)> {
    Seq::new(v.len(), |i: int| (v[i].data@, fixups_view(v[i].string_fixups@)))
}

/// Sets the four bytes at `o` of `bytes` to the big-endian form of `v`.
fn patch_be_u32(bytes: &mut Vec<u8>, o: usize, v: u32)
    requires
        o + 4 <= old(bytes)@.len() <= usize::MAX,
    ensures
        final(bytes)@ == patch(old(bytes)@, o as int, u32_be(v)),
{
    bytes.set(o, (v >> 24u32) as u8);
    bytes.set(o + 1, ((v >> 16u32) & 0xffu32) as u8);
    bytes.set(o + 2, ((v >> 8u32) & 0xffu32) as u8);
    bytes.set(o + 3, (v & 0xffu32) as u8);
    assert(bytes@ =~= patch(old(bytes)@, o as int, u32_be(v)));
}

/// A copy of `s`.
fn copy_bytes(s: &[u8]) -> (r: Vec<u8>)
    ensures
        r@ == s@,
{
    vstd::slice::slice_to_vec(s)
}

/// The tables of a collection, held in a `slotmap::SlotMap` under its default
/// key. Tables are only ever added, never removed, so the `k`-th table added is
/// at index `k + 1` of the map (index 0 is the map's sentinel) with version 1.
#[verifier::external_body]
#[derive(Debug)]
pub struct TableSlots {
    map: slotmap::SlotMap<slotmap::DefaultKey, Table>,
}

impl Clone for TableSlots {
    /// Clones the map with `SlotMap::clone`.
    #[verifier::external_body]
    fn clone(&self) -> (r: Self) {
        TableSlots { map: self.map.clone() }
    }
}

/// The tables that the map holds, in the order in which they were added.
pub uninterp spec fn slot_tables(s: TableSlots) -> Seq<TableModel>;

/// The key of the `k`-th table added, as `slotmap::KeyData::as_ffi` writes it:
/// version 1 in the high 32 bits, index `k + 1` in the low ones.
pub open spec fn slot_key(k: int) -> int {
    0x1_0000_0001 + k
}

/// Whether `key` is the key of a table that may have been added: its index lies
/// between 1 and `u32::MAX`, and its version is 1.
pub open spec fn is_slot_key(key: u64) -> bool {
    0x1_0000_0001 <= key <= 0x1_ffff_ffff
}

/// An empty map: `SlotMap::new`.
#[verifier::external_body]
fn slots_new() -> (r: TableSlots)
    ensures
        slot_tables(r) == Seq::<TableModel>::empty(),
{
    TableSlots { map: slotmap::SlotMap::new() }
}

/// The number of tables: `SlotMap::len`. A slot map holds fewer than
/// `u32::MAX` values, since its slots, the sentinel included, number at most
/// `u32::MAX`.
#[verifier::external_body]
fn slots_len(s: &TableSlots) -> (r: usize)
    ensures
        r == slot_tables(*s).len(),
        r < u32::MAX,
{
    s.map.len()
}

/// Adds a table with `SlotMap::insert`, which panics when the map already has
/// `u32::MAX` slots, and returns its key through `KeyData::as_ffi`. With no
/// slot ever freed, the new table takes the next index with version 1.
#[verifier::external_body]
fn slots_insert(s: &mut TableSlots, t: Table) -> (key: u64)
    requires
        slot_tables(*old(s)).len() + 1 < u32::MAX,
    ensures
        slot_tables(*final(s)) == slot_tables(*old(s)).push(t@),
        key == slot_key(slot_tables(*old(s)).len() as int),
{
    slotmap::Key::data(&s.map.insert(t)).as_ffi()
}

/// The table under `key`: `SlotMap::get` with the key that `KeyData::from_ffi`
/// makes of `key`.
#[verifier::external_body]
fn slots_get(s: &TableSlots, key: u64) -> (r: Option<&Table>)
    requires
        is_slot_key(key),
    ensures
        r is Some <==> key - 0x1_0000_0001 < slot_tables(*s).len(),
        r matches Some(t) ==> t@ == slot_tables(*s)[key - 0x1_0000_0001],
{
    s.map.get(slotmap::DefaultKey::from(slotmap::KeyData::from_ffi(key)))
}

/// The table under `key`, to change in place: `SlotMap::get_mut` with the key
/// that `KeyData::from_ffi` makes of `key`; the map holds that table.
#[verifier::external_body]
fn slots_get_mut(s: &mut TableSlots, key: u64) -> (r: &mut Table)
    requires
        is_slot_key(key),
        key - 0x1_0000_0001 < slot_tables(*old(s)).len(),
    ensures
        (*r)@ == slot_tables(*old(s))[key - 0x1_0000_0001],
        slot_tables(*final(s)) == slot_tables(*old(s)).update(key - 0x1_0000_0001, (*final(r))@),
{
    s.map.get_mut(slotmap::DefaultKey::from(slotmap::KeyData::from_ffi(key))).unwrap()
}

/// The tables in the map's order, which is that of their indices and so the
/// order in which they were added: `SlotMap::values`.
#[verifier::external_body]
fn slots_values(s: &TableSlots) -> (r: Vec<&Table>)
    ensures
        r@.len() == slot_tables(*s).len(),
        forall|i: int| 0 <= i < r@.len() ==> (#[trigger] r@[i])@ == slot_tables(*s)[i],
{
    s.map.values().collect()
}

/// The tables of a file, in the order in which they were added.
#[derive(Debug, Clone)]
pub struct TableCollection {
    tables: TableSlots,
}

/// The tables with field `field` of entry `index` of table `id` set to `value`;
/// `None` when there is no such table, entry or field.
pub open spec fn collection_set_field(
    ts: Seq<TableModel>,
    id: int,
    index: int,
    field: Seq<char>,
    value: crate::value::ValueView,
) -> Option<Seq<TableModel>> {
    if id < 0 || id >= ts.len() {
        None
    } else {
        match model_set_field(ts[id], index, field, value) {
            Some(m) => Some(ts.update(id, m)),
            None => None,
        }
    }
}

/// The message of the error for setting a field of entry `index` of table `id`
/// when there is no such table, entry or field.
pub open spec fn collection_set_message(ts: Seq<TableModel>, id: int, index: int, field: Seq<char>) -> Seq<char> {
    if id < 0 || id >= ts.len() {
        "unknown TableId "@ + table_id_text(id)
    } else {
        set_field_message(ts[id], index, field)
    }
}

impl View for TableCollection {
    type V = Seq<TableModel>;

    closed spec fn view(&self) -> Seq<TableModel> {
        slot_tables(self.tables)
    }
}

impl TableCollection {
    /// An empty collection.
    pub fn new() -> (r: Self)
        ensures
            r@ == Seq::<TableModel>::empty(),
    {
        TableCollection { tables: slots_new() }
    }

    /// The number of tables.
    pub fn len(&self) -> (r: usize)
        ensures
            r == self@.len(),
            r < u32::MAX,
    {
        slots_len(&self.tables)
    }

    /// Adds a table and returns its id. The map that holds the tables has room
    /// for fewer than `u32::MAX - 1` of them.
    pub fn insert(&mut self, table: Table) -> (r: TableId)
        requires
            old(self)@.len() + 1 < u32::MAX,
        ensures
            final(self)@ == old(self)@.push(table@),
            r.0 == old(self)@.len(),
    {
        let id = TableId(slots_len(&self.tables));
        let _ = slots_insert(&mut self.tables, table);
        id
    }

    /// The key in the map of the table `id`, when `id` may name a table.
    fn key_of(&self, id: TableId) -> (r: Option<u64>)
        ensures
            id.0 < self@.len() ==> (r matches Some(k) && is_slot_key(k) && k - 0x1_0000_0001 == id.0),
            id.0 >= self@.len() ==> r is None,
    {
        let n = slots_len(&self.tables);
        if id.0 < n {
            let k: u64 = 0x1_0000_0001u64 + id.0 as u64;
            Some(k)
        } else {
            None
        }
    }

    /// The table `id`, if there is one.
    pub fn get(&self, id: TableId) -> (r: Option<&Table>)
        ensures
            id.0 < self@.len() ==> (r matches Some(t) && t@ == self@[id.0 as int]),
            id.0 >= self@.len() ==> r is None,
    {
        match self.key_of(id) {
            Some(k) => slots_get(&self.tables, k),
            None => None,
        }
    }

    /// Lays the tables out in the data blob: first a pool holding each string that
    /// a pointer field refers to, then each table in turn with its pointer fields
    /// set to the offsets of their strings, which are listed as relocation sites.
    ///
    /// Fails when a table cannot be written, a string cannot be encoded, or an
    /// offset does not fit in 32 bits.
    pub fn serialize(&self) -> (r: Result<SerializedTableContext>)
        ensures
            serialize_tables(self@) matches Some(out) ==> (r matches Ok(c) && c@ == out),
            serialize_tables(self@) is None ==> (r matches Err(e) && serialize_fails_with(self@, e)),
    {
        let tables = slots_values(&self.tables);
        let mut encoded: Vec<RelocatableTable> = Vec::new();
        let mut i: usize = 0;
        assert(self@.take(0) =~= Seq::<TableModel>::empty());
        assert(relocatable_views(encoded@) =~= Seq::empty());
        while i < tables.len()
            invariant
                0 <= i <= self@.len(),
                self@.len() == tables@.len(),
                forall|k: int| 0 <= k < tables@.len() ==> (#[trigger] tables@[k])@ == self@[k],
                encode_all(self@.take(i as int)) == Some(relocatable_views(encoded@)),
            decreases self@.len() - i,
        {
            assert(self@.take(i + 1).drop_last() =~= self@.take(i as int));
            assert(self@.take(i + 1).last() == tables@[i as int]@);
            let t = match tables[i].serialize() {
                Ok(t) => t,
                Err(e) => {
                    proof {
                        if encode_all(self@) is Some {
                            lemma_encode_all_prefix(self@, i + 1);
                        }
                        lemma_tables_message_prefix(self@, i + 1);
                    }
                    return Err(e);
                },
            };
            let ghost before = relocatable_views(encoded@);
            encoded.push(t);
            assert(relocatable_views(encoded@) =~= before.push((t.data@, fixups_view(t.string_fixups@))));
            i = i + 1;
        }
        assert(self@.take(self@.len() as int) =~= self@);
        let ghost encs = relocatable_views(encoded@);

        let mut strings = StringPool::new();
        assert(strings@ == empty_pool());
        let mut i: usize = 0;
        assert(encs.take(0) =~= Seq::empty());
        while i < encoded.len()
            invariant
                0 <= i <= encoded@.len(),
                encs == relocatable_views(encoded@),
                encode_all(self@) == Some(encs),
                strings.inv(),
                intern_all(empty_pool(), fixup_strings(encs.take(i as int))) == Some(strings@),
            decreases encoded@.len() - i,
        {
            let fx = &encoded[i].string_fixups;
            let ghost prev = fixup_strings(encs.take(i as int));
            let mut j: usize = 0;
            assert(prev + Seq::new(0, |k: int| encs[i as int].1[k].1) =~= prev);
            while j < fx.len()
                invariant
                    0 <= j <= fx@.len(),
                    fx@ == encoded@[i as int].string_fixups@,
                    encs == relocatable_views(encoded@),
                    encode_all(self@) == Some(encs),
                    0 <= i < encoded@.len(),
                    prev == fixup_strings(encs.take(i as int)),
                    strings.inv(),
                    intern_all(
                        empty_pool(),
                        prev + Seq::new(j as nat, |k: int| encs[i as int].1[k].1),
                    ) == Some(strings@),
                decreases fx@.len() - j,
            {
                let ghost cur = prev + Seq::new(j as nat, |k: int| encs[i as int].1[k].1);
                let ghost nxt = prev + Seq::new((j + 1) as nat, |k: int| encs[i as int].1[k].1);
                assert(nxt.drop_last() =~= cur);
                assert(nxt.last() == fx@[j as int].value@);
                match strings.intern(fx[j].value.as_str()) {
                    Ok(_) => {},
                    Err(e) => {
                        proof {
                            assert(intern_all(empty_pool(), nxt) is None);
                            lemma_intern_fails_on(encs, i as int, j as int);
                        }
                        return Err(e);
                    },
                }
                j = j + 1;
            }
            proof {
                assert(encs.take(i + 1).drop_last() =~= encs.take(i as int));
                assert(fixup_strings(encs.take(i + 1)) =~= prev + Seq::new(
                    fx@.len(),
                    |k: int| encs[i as int].1[k].1,
                ));
            }
            i = i + 1;
        }
        assert(encs.take(encs.len() as int) =~= encs);
        let ghost pool = strings@;
        proof {
            lemma_encoded_fixups_fit(self@, encs);
            lemma_pool_has_fixups(encs, pool);
        }

        let mut data = copy_bytes(strings.data());
        let mut offsets: Vec<usize> = Vec::new();
        let mut relocations: Vec<u32> = Vec::new();
        let mut i: usize = 0;
        assert(encs.take(0) =~= Seq::empty());
        while i < encoded.len()
            invariant
                0 <= i <= encoded@.len(),
                encs == relocatable_views(encoded@),
                encode_all(self@) == Some(encs),
                intern_all(empty_pool(), fixup_strings(encs)) == Some(pool),
                strings.inv(),
                strings@ == pool,
                place_tables(pool, encs.take(i as int)) == Some((data@, relocations@, offsets@)),
                forall|k: int, j: int|
                    0 <= k < encs.len() && 0 <= j < encs[k].1.len() ==> 0 <= #[trigger] encs[k].1[j].0
                        && encs[k].1[j].0 + 4 <= encs[k].0.len(),
                forall|k: int, j: int|
                    0 <= k < encs.len() && 0 <= j < encs[k].1.len() ==> pool.offsets.contains_key(
                        #[trigger] encs[k].1[j].1,
                    ),
            decreases encoded@.len() - i,
        {
            let base = data.len();
            let t = &encoded[i];
            let mut bytes = copy_bytes(t.data.as_slice());
            let ghost rl0 = relocations@;
            let ghost f = fixups_view(t.string_fixups@);
            let mut j: usize = 0;
            assert(f.take(0) =~= Seq::empty());
            assert(rl0 + Seq::<u32>::empty() =~= rl0);
            assert(encs[i as int] == (t.data@, f));
            assert forall|jj: int| #![trigger f[jj]] 0 <= jj < f.len() implies 0 <= f[jj].0 && f[jj].0 + 4 <= t.data@.len()
                && pool.offsets.contains_key(f[jj].1) by {
                assert(f[jj] == encs[i as int].1[jj]);
            }
            while j < t.string_fixups.len()
                invariant
                    0 <= j <= t.string_fixups@.len(),
                    f == fixups_view(t.string_fixups@),
                    0 <= i < encoded@.len(),
                    encs == relocatable_views(encoded@),
                    encode_all(self@) == Some(encs),
                    intern_all(empty_pool(), fixup_strings(encs)) == Some(pool),
                    place_tables(pool, encs.take(i as int)) == Some((data@, rl0, offsets@)),
                    base == data@.len(),
                    *t == encoded@[i as int],
                    strings.inv(),
                    strings@ == pool,
                    patch_fixups(pool, base as int, t.data@, f.take(j as int)) == Some(
                        (bytes@, relocations@.subrange(rl0.len() as int, relocations@.len() as int)),
                    ),
                    rl0 == relocations@.subrange(0, rl0.len() as int),
                    rl0.len() <= relocations@.len(),
                    bytes@.len() == t.data@.len(),
                    forall|jj: int|
                        #![trigger f[jj]]
                        0 <= jj < f.len() ==> 0 <= f[jj].0 && f[jj].0 + 4 <= t.data@.len()
                            && pool.offsets.contains_key(f[jj].1),
                decreases t.string_fixups@.len() - j,
            {
                let fixup = &t.string_fixups[j];
                assert(f.take(j + 1).drop_last() =~= f.take(j as int));
                assert(f.take(j + 1).last() == (fixup.offset as int, fixup.value@));
                assert(f[j as int] == (fixup.offset as int, fixup.value@));
                assert(strings@.offsets.contains_key(fixup.value@));
                let string_offset = match strings.offset_of(fixup.value.as_str()) {
                    Some(o) => o,
                    None => {
                        return Err(
                            Error::Validation(
                                String::from_str("string ").concat(debug_text(fixup.value.as_str()).as_str()).concat(
                                    " is missing from the serialized string pool",
                                ),
                            ),
                        );
                    },
                };
                let pointer = match checked_u32(string_offset, "converting string pool offset") {
                    Ok(p) => p,
                    Err(e) => {
                        proof {
                            lemma_patch_fails_on(pool, base as int, t.data@, f, j as int);
                            lemma_place_fails_on(pool, encs, i as int);
                        }
                        return Err(e);
                    },
                };
                if fixup.offset > bytes.len() || bytes.len() - fixup.offset < 4 {
                    return Err(validation("string pointer lies outside its table"));
                }
                let site = match base.checked_add(fixup.offset) {
                    Some(s) => s,
                    None => {
                        proof {
                            lemma_patch_fails_on(pool, base as int, t.data@, f, j as int);
                            lemma_place_fails_on(pool, encs, i as int);
                        }
                        return Err(
                            Error::ValueTooLarge {
                                context: "converting string pointer relocation offset",
                                value: base,
                            },
                        );
                    },
                };
                let site32 = match checked_u32(site, "converting string pointer relocation offset") {
                    Ok(s) => s,
                    Err(e) => {
                        proof {
                            lemma_patch_fails_on(pool, base as int, t.data@, f, j as int);
                            lemma_place_fails_on(pool, encs, i as int);
                        }
                        return Err(e);
                    },
                };
                patch_be_u32(&mut bytes, fixup.offset, pointer);
                let ghost before = relocations@;
                relocations.push(site32);
                proof {
                    assert(relocations@.subrange(0, rl0.len() as int) =~= before.subrange(0, rl0.len() as int));
                    assert(relocations@.subrange(rl0.len() as int, relocations@.len() as int) =~= before.subrange(
                        rl0.len() as int,
                        before.len() as int,
                    ).push(site32));
                }
                j = j + 1;
            }
            assert(f.take(f.len() as int) =~= f);
            let ghost d0 = data@;
            let ghost o0 = offsets@;
            crate::raw_file::extend_bytes(&mut data, bytes.as_slice());
            offsets.push(base);
            proof {
                assert(encs.take(i + 1).drop_last() =~= encs.take(i as int));
                assert(rl0 + relocations@.subrange(rl0.len() as int, relocations@.len() as int) =~= relocations@);
            }
            i = i + 1;
        }
        assert(encs.take(encs.len() as int) =~= encs);
        Ok(SerializedTableContext { data, offsets, relocations })
    }

    /// Sets field `field` of entry `index` of table `id` to `value`.
    ///
    /// Fails with `Validation` when there is no such table, entry or field; the
    /// collection is then unchanged.
    pub fn set_field(&mut self, id: TableId, index: usize, field: &str, value: crate::value::Value) -> (r: Result<()>)
        ensures
            collection_set_field(old(self)@, id.0 as int, index as int, field@, value@) matches Some(ts)
                ==> (r is Ok && final(self)@ == ts),
            collection_set_field(old(self)@, id.0 as int, index as int, field@, value@) is None ==> (
            r matches Err(Error::Validation(m)) && m@ == collection_set_message(
                old(self)@,
                id.0 as int,
                index as int,
                field@,
            ) && final(self)@ == old(self)@),
    {
        let key = match self.key_of(id) {
            Some(k) => k,
            None => {
                return Err(Error::Validation(String::from_str("unknown TableId ").concat(table_id_string(id).as_str())));
            },
        };
        let t = slots_get_mut(&mut self.tables, key);
        let r = t.set_field(index, field, value);
        proof {
            assert(self@ =~= old(self)@.update(id.0 as int, t@));
            if r is Err {
                assert(self@ =~= old(self)@);
            }
        }
        r
    }
}

} // verus!
