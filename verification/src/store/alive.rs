//! Which documents of a segment have not been deleted.

use vstd::prelude::*;

verus! {

/// Which documents of a segment have not been deleted.
#[derive(Clone, Debug)]
pub struct AliveBitSet {
    alive: Vec<bool>,
}

impl View for AliveBitSet {
    type V = Seq<bool>;

    closed spec fn view(&self) -> Seq<bool> {
        self.alive@
    }
}

impl AliveBitSet {
    /// The documents below `max_doc` without `deleted_docs`.
    pub fn from_deleted_docs(deleted_docs: &[u32], max_doc: u32) -> (alive: AliveBitSet)
        requires
            forall|i: int| 0 <= i < deleted_docs@.len() ==> deleted_docs@[i] < max_doc,
        ensures
            alive@.len() == max_doc,
            forall|doc: u32|
                doc < max_doc ==> (#[trigger] alive@[doc as int] <==> !deleted_docs@.contains(doc)),
    {
        let mut alive: Vec<bool> = vec![true; max_doc as usize];
        let mut next: usize = 0;
        while next < deleted_docs.len()
            invariant
                next <= deleted_docs@.len(),
                alive@.len() == max_doc,
                forall|i: int| 0 <= i < deleted_docs@.len() ==> deleted_docs@[i] < max_doc,
                forall|doc: u32|
                    doc < max_doc ==> (#[trigger] alive@[doc as int] <==> !deleted_docs@.take(
                        next as int,
                    ).contains(doc)),
            decreases deleted_docs@.len() - next,
        {
            let doc: u32 = deleted_docs[next];
            alive[doc as usize] = false;
            proof {
                let before = deleted_docs@.take(next as int);
                let after = deleted_docs@.take(next + 1);
                assert(after =~= before.push(doc));
                assert forall|other: u32| after.contains(other) <==> before.contains(other) || other
                    == doc by {
                    if before.contains(other) {
                        let k = choose|k: int| 0 <= k < before.len() && before[k] == other;
                        assert(after[k] == other);
                    }
                    assert(after[next as int] == doc);
                }
            }
            next = next + 1;
        }
        assert(deleted_docs@.take(deleted_docs@.len() as int) =~= deleted_docs@);
        AliveBitSet { alive }
    }

    /// The number of documents, deleted or not.
    pub fn max_doc(&self) -> (max_doc: usize)
        ensures
            max_doc == self@.len(),
    {
        self.alive.len()
    }

    /// `doc` has not been deleted.
    pub fn is_alive(&self, doc: u32) -> (alive: bool)
        requires
            doc < self@.len(),
        ensures
            alive == self@[doc as int],
    {
        self.alive[doc as usize]
    }

    /// `doc` has been deleted.
    pub fn is_deleted(&self, doc: u32) -> (deleted: bool)
        requires
            doc < self@.len(),
        ensures
            deleted == !self@[doc as int],
    {
        !self.alive[doc as usize]
    }
}

} // verus!
