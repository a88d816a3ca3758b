//! The terms that occur, by their position in the dictionary.

use std::collections::HashSet;

use vstd::prelude::*;

verus! {

broadcast use vstd::std_specs::hash::group_hash_axioms;

/// A set of positions in the dictionary of a segment.
pub struct TermOrdSet {
    ords: HashSet<u64>,
}

impl View for TermOrdSet {
    type V = Set<u64>;

    closed spec fn view(&self) -> Set<u64> {
        self.ords@
    }
}

impl TermOrdSet {
    /// The empty set.
    pub fn new() -> (set: TermOrdSet)
        ensures
            set@ == Set::<u64>::empty(),
    {
        TermOrdSet { ords: HashSet::new() }
    }

    /// The number of positions.
    pub fn len(&self) -> (len: usize)
        ensures
            len == self@.len(),
    {
        self.ords.len()
    }

    /// Adds `values`.
    pub fn extend_from_values(&mut self, values: &Vec<u64>)
        ensures
            final(self)@ == old(self)@.union(values@.to_set()),
    {
        let mut next: usize = 0;
        assert(self@ =~= old(self)@.union(values@.take(0).to_set()));
        while next < values.len()
            invariant
                next <= values@.len(),
                self@ == old(self)@.union(values@.take(next as int).to_set()),
            decreases values@.len() - next,
        {
            let value: u64 = values[next];
            self.ords.insert(value);
            proof {
                let shorter = values@.take(next as int);
                assert(values@.take(next + 1) =~= shorter.push(value));
                crate::sorting::lemma_push_to_set(shorter, value);
                assert(self@ =~= old(self)@.union(values@.take(next + 1).to_set()));
            }
            next = next + 1;
        }
        assert(values@.take(values@.len() as int) =~= values@);
    }

    /// The positions, each once, in no particular order.
    pub fn iter_ords(&self) -> (ords: Vec<u64>)
        ensures
            ords@.to_set() == self@,
            ords@.no_duplicates(),
    {
        let ghost listed = vstd::std_specs::iter::IteratorSpec::remaining(
            &vstd::std_specs::hash::spec_hash_keys_iter(&self.ords),
        );
        let mut ords: Vec<u64> = Vec::new();
        for ord in entries: self.ords.iter()
            invariant
                entries.seq() == listed,
                ords@.len() == entries.index(),
                forall|i: int| 0 <= i < ords@.len() ==> #[trigger] ords@[i] == *listed[i],
        {
            ords.push(*ord);
        }
        proof {
            assert(ords@ =~= listed.unref());
        }
        ords
    }
}

} // verus!
