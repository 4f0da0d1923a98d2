//! A row given by field name, used to create tables and append entries.
use vstd::prelude::*;
use crate::value::{Value, ValueView};

verus! {

/// The field values that a list of pairs gives: a later pair for a name
/// replaces an earlier one.
pub open spec fn row_map(s: Seq<(String, Value)>) -> Map<Seq<char>, ValueView>
    decreases s.len(),
{
    if s.len() == 0 {
        Map::empty()
    } else {
        row_map(s.drop_last()).insert(s.last().0@, s.last().1@)
    }
}

/// The position of the last pair named `name` in the first `n` pairs, if any.
pub open spec fn last_position(s: Seq<(String, Value)>, name: Seq<char>, n: int) -> Option<int>
    decreases n,
{
    if n <= 0 {
        None
    } else if s[n - 1].0@ == name {
        Some(n - 1)
    } else {
        last_position(s, name, n - 1)
    }
}

proof fn lemma_row_map_lookup(s: Seq<(String, Value)>, name: Seq<char>)
    ensures
        last_position(s, name, s.len() as int) is None ==> !row_map(s).contains_key(name),
        last_position(s, name, s.len() as int) matches Some(i) ==> (0 <= i < s.len()
            && row_map(s).contains_key(name) && row_map(s)[name] == s[i].1@),
    decreases s.len(),
{
    if s.len() > 0 {
        let d = s.drop_last();
        lemma_row_map_lookup(d, name);
        lemma_last_position_take(s, name, d.len() as int);
        assert(s.take(d.len() as int) =~= d);
    }
}

/// The last position below `n` depends only on the first `n` pairs.
proof fn lemma_last_position_take(s: Seq<(String, Value)>, name: Seq<char>, n: int)
    requires
        0 <= n <= s.len(),
    ensures
        last_position(s, name, n) == last_position(s.take(n), name, n),
    decreases n,
{
    if n > 0 {
        lemma_last_position_take(s, name, n - 1);
        lemma_last_position_take(s.take(n), name, n - 1);
        assert(s.take(n).take(n - 1) =~= s.take(n - 1));
    }
}

/// Replacing the value of the last pair for a name replaces the name's value.
proof fn lemma_row_map_update(s: Seq<(String, Value)>, i: int, p: (String, Value))
    requires
        0 <= i < s.len(),
        p.0@ == s[i].0@,
        forall|j: int| i < j < s.len() ==> s[j].0@ != s[i].0@,
    ensures
        row_map(s.update(i, p)) == row_map(s).insert(p.0@, p.1@),
    decreases s.len(),
{
    let t = s.update(i, p);
    if i == s.len() - 1 {
        assert(t.drop_last() =~= s.drop_last());
    } else {
        lemma_row_map_update(s.drop_last(), i, p);
        assert(t.drop_last() =~= s.drop_last().update(i, p));
        assert(row_map(t) =~= row_map(s).insert(p.0@, p.1@));
    }
}

/// A row: a value for each field name.
#[derive(Debug)]
pub struct Row {
    fields: Vec<(String, Value)>,
}

impl View for Row {
    type V = Map<Seq<char>, ValueView>;

    closed spec fn view(&self) -> Map<Seq<char>, ValueView> {
        row_map(self.fields@)
    }
}

impl Row {
    /// An empty row.
    pub fn new() -> (r: Row)
        ensures
            r@ == Map::<Seq<char>, ValueView>::empty(),
    {
        Row { fields: Vec::new() }
    }

    /// The row with `field` set to `value`.
    pub fn with(self, field: &str, value: Value) -> (r: Row)
        ensures
            r@ == self@.insert(field@, value@),
    {
        let mut row = self;
        row.insert(field, value);
        row
    }

    /// Sets `field` to `value`, and returns the value it had, if any.
    pub fn insert(&mut self, field: &str, value: Value) -> (r: Option<Value>)
        ensures
            final(self)@ == old(self)@.insert(field@, value@),
            old(self)@.contains_key(field@) ==> (r matches Some(v) && v@ == old(self)@[field@]),
            !old(self)@.contains_key(field@) ==> r is None,
    {
        let name: String = field.to_owned();
        match self.position(field) {
            Some(i) => {
                let ghost before = self.fields@;
                let old_value = self.fields[i].1.duplicate();
                proof {
                    lemma_row_map_lookup(before, field@);
                    lemma_row_map_update(before, i as int, (name, value));
                }
                self.fields.set(i, (name, value));
                Some(old_value)
            },
            None => {
                proof {
                    lemma_row_map_lookup(self.fields@, field@);
                }
                let ghost before = self.fields@;
                self.fields.push((name, value));
                assert(self.fields@.drop_last() =~= before);
                None
            },
        }
    }

    /// The value of `field`, if the row has one.
    pub fn get(&self, field: &str) -> (r: Option<&Value>)
        ensures
            self@.contains_key(field@) ==> (r matches Some(v) && v@ == self@[field@]),
            !self@.contains_key(field@) ==> r is None,
    {
        proof {
            lemma_row_map_lookup(self.fields@, field@);
        }
        match self.position(field) {
            Some(i) => Some(&self.fields[i].1),
            None => None,
        }
    }

    /// The position of the last pair named `field`.
    fn position(&self, field: &str) -> (r: Option<usize>)
        ensures
            r matches Some(i) ==> i < self.fields@.len() && self.fields@[i as int].0@ == field@,
            r matches Some(i) ==> last_position(self.fields@, field@, self.fields@.len() as int)
                == Some(i as int) && (forall|j: int|
                i < j < self.fields@.len() ==> (#[trigger] self.fields@[j]).0@ != field@),
            r is None ==> last_position(self.fields@, field@, self.fields@.len() as int) is None,
    {
        let mut n = self.fields.len();
        while n > 0
            invariant
                0 <= n <= self.fields@.len(),
                last_position(self.fields@, field@, self.fields@.len() as int) == last_position(
                    self.fields@,
                    field@,
                    n as int,
                ),
                forall|j: int| n <= j < self.fields@.len() ==> (#[trigger] self.fields@[j]).0@ != field@,
            decreases n,
        {
            if crate::schema::str_eq(self.fields[n - 1].0.as_str(), field) {
                return Some(n - 1);
            }
            n = n - 1;
        }
        None
    }
}

} // verus!
