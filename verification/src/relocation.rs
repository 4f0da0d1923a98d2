//! The relocation table: the offsets in the data blob that hold pointers.
use vstd::prelude::*;
use std::collections::HashSet;

verus! {

broadcast use vstd::std_specs::hash::group_hash_axioms;

/// The offsets of the data blob that hold pointers, in the order in which the
/// file lists them, with a set for fast membership tests.
#[derive(Debug)]
pub struct RelocationTable {
    sites: Vec<u32>,
    lookup: HashSet<u32>,
}

impl View for RelocationTable {
    type V = Seq<u32>;

    /// The sites, in file order.
    closed spec fn view(&self) -> Seq<u32> {
        self.sites@
    }
}

impl RelocationTable {
    #[verifier::type_invariant]
    spec fn inv(self) -> bool {
        self.lookup@ == self.sites@.to_set()
    }

    /// Builds the table from the sites as the file lists them.
    pub fn from_raw(sites: &[u32]) -> (r: Self)
        ensures
            r@ == sites@,
    {
        let mut lookup: HashSet<u32> = HashSet::new();
        let mut i: usize = 0;
        while i < sites.len()
            invariant
                0 <= i <= sites@.len(),
                lookup@ == sites@.subrange(0, i as int).to_set(),
            decreases sites@.len() - i,
        {
            lookup.insert(sites[i]);
            proof {
                assert(sites@.subrange(0, i + 1) =~= sites@.subrange(0, i as int).push(sites@[i as int]));
                sites@.subrange(0, i as int).lemma_push_to_set_commute(sites@[i as int]);
            }
            i = i + 1;
        }
        assert(sites@.subrange(0, sites@.len() as int) =~= sites@);
        let mut v: Vec<u32> = Vec::new();
        let mut j: usize = 0;
        while j < sites.len()
            invariant
                0 <= j <= sites@.len(),
                v@ == sites@.subrange(0, j as int),
            decreases sites@.len() - j,
        {
            v.push(sites[j]);
            j = j + 1;
            assert(v@ =~= sites@.subrange(0, j as int));
        }
        RelocationTable { sites: v, lookup }
    }

    /// The number of sites.
    pub fn len(&self) -> (r: usize)
        ensures
            r == self@.len(),
    {
        self.sites.len()
    }

    /// Whether the table lists no site.
    pub fn is_empty(&self) -> (r: bool)
        ensures
            r == (self@.len() == 0),
    {
        self.sites.len() == 0
    }

    /// The sites, in the order in which the file lists them.
    pub fn sites(&self) -> (r: Vec<u32>)
        ensures
            r@ == self@,
    {
        let mut v: Vec<u32> = Vec::new();
        let mut j: usize = 0;
        while j < self.sites.len()
            invariant
                0 <= j <= self.sites@.len(),
                v@ == self.sites@.subrange(0, j as int),
            decreases self.sites@.len() - j,
        {
            v.push(self.sites[j]);
            j = j + 1;
            assert(v@ =~= self.sites@.subrange(0, j as int));
        }
        assert(self.sites@.subrange(0, self.sites@.len() as int) =~= self.sites@);
        v
    }

    /// The sites, in the order in which the file lists them.
    pub fn as_slice(&self) -> (r: &[u32])
        ensures
            r@ == self@,
    {
        self.sites.as_slice()
    }

    /// Whether the file lists `offset` as a pointer site.
    pub fn is_relocated(&self, offset: u32) -> (r: bool)
        ensures
            r == self@.contains(offset),
    {
        proof {
            use_type_invariant(self);
        }
        self.lookup.contains(&offset)
    }
}

impl Default for RelocationTable {
    fn default() -> (r: Self)
        ensures
            r@ == Seq::<u32>::empty(),
    {
        let sites: Vec<u32> = Vec::new();
        let lookup: HashSet<u32> = HashSet::new();
        assert(sites@.to_set() =~= lookup@);
        RelocationTable { sites, lookup }
    }
}

} // verus!
