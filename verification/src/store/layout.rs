//! Where the blocks of a store are.

use vstd::prelude::*;

use crate::store::codec::Decompressor;
use crate::store::version::DocStoreVersion;

verus! {

/// The documents and the bytes of one block.
#[derive(Clone, Copy, Debug, PartialEq, Eq, Structural)]
pub struct Checkpoint {
    /// The first document of the block.
    pub doc_start: u32,
    /// The document behind the last one of the block.
    pub doc_end: u32,
    /// Where the block starts.
    pub byte_start: usize,
    /// Where the block ends.
    pub byte_end: usize,
}

/// The bytes of all blocks and the list of blocks.
pub struct StoreLayout {
    pub data: Seq<u8>,
    pub checkpoints: Seq<Checkpoint>,
}

impl StoreLayout {
    /// Nothing stored yet.
    pub open spec fn empty() -> StoreLayout {
        StoreLayout { data: Seq::empty(), checkpoints: Seq::empty() }
    }

    /// The number of stored documents.
    pub open spec fn num_docs(self) -> u32 {
        if self.checkpoints.len() == 0 {
            0
        } else {
            self.checkpoints.last().doc_end
        }
    }

    /// Blocks hold consecutive, non-empty runs of documents, and their bytes follow each other
    /// without overlapping.
    pub open spec fn wf(self) -> bool {
        &&& self.checkpoints.len() > 0 ==> self.checkpoints[0].doc_start == 0
        &&& forall|i: int|
            0 <= i < self.checkpoints.len() ==> {
                let checkpoint = #[trigger] self.checkpoints[i];
                &&& checkpoint.doc_start < checkpoint.doc_end
                &&& checkpoint.byte_start <= checkpoint.byte_end <= self.data.len()
            }
        &&& forall|i: int, j: int|
            0 <= i < j < self.checkpoints.len() ==> {
                let earlier = #[trigger] self.checkpoints[i];
                let later = #[trigger] self.checkpoints[j];
                &&& earlier.doc_end <= later.doc_start
                &&& j == i + 1 ==> earlier.doc_end == later.doc_start
                &&& earlier.byte_end <= later.byte_start
            }
    }

    /// The bytes of block `index`.
    pub open spec fn block(self, index: int) -> Seq<u8> {
        self.data.subrange(
            self.checkpoints[index].byte_start as int,
            self.checkpoints[index].byte_end as int,
        )
    }

    /// `doc` is in block `index`.
    pub open spec fn doc_in_block(self, doc: u32, index: int) -> bool {
        &&& 0 <= index < self.checkpoints.len()
        &&& self.checkpoints[index].doc_start <= doc < self.checkpoints[index].doc_end
    }

    /// The block that `doc` is in.
    pub open spec fn block_of(self, doc: u32) -> int {
        choose|index: int| self.doc_in_block(doc, index)
    }

    /// The layout with one more block of `num_docs` documents.
    pub open spec fn append_block(self, bytes: Seq<u8>, num_docs: u32) -> StoreLayout {
        StoreLayout {
            data: self.data + bytes,
            checkpoints: self.checkpoints.push(
                Checkpoint {
                    doc_start: self.num_docs(),
                    doc_end: (self.num_docs() + num_docs) as u32,
                    byte_start: self.data.len() as usize,
                    byte_end: (self.data.len() + bytes.len()) as usize,
                },
            ),
        }
    }

    /// Every block lies within the data.
    pub proof fn lemma_block_bounds(self, checkpoint: Checkpoint)
        requires
            self.wf(),
            self.checkpoints.contains(checkpoint),
        ensures
            checkpoint.byte_start <= checkpoint.byte_end <= self.data.len(),
    {
        let i = choose|i: int| 0 <= i < self.checkpoints.len() && self.checkpoints[i] == checkpoint;
        assert(self.checkpoints[i] == checkpoint);
    }

    /// A document is in one block at most.
    pub proof fn lemma_block_of_unique(self, doc: u32, index: int)
        requires
            self.wf(),
            self.doc_in_block(doc, index),
        ensures
            self.block_of(doc) == index,
    {
        let chosen = self.block_of(doc);
        assert(self.doc_in_block(doc, chosen));
        if chosen < index {
            assert(self.checkpoints[chosen].doc_end <= self.checkpoints[index].doc_start);
        } else if index < chosen {
            assert(self.checkpoints[index].doc_end <= self.checkpoints[chosen].doc_start);
        }
    }

    /// Appending a block keeps the layout in order and leaves the earlier blocks alone.
    pub proof fn lemma_append_block(self, bytes: Seq<u8>, num_docs: u32)
        requires
            self.wf(),
            num_docs > 0,
            self.num_docs() + num_docs <= u32::MAX,
            self.data.len() + bytes.len() <= usize::MAX,
        ensures
            self.append_block(bytes, num_docs).wf(),
            self.append_block(bytes, num_docs).num_docs() == self.num_docs() + num_docs,
            self.append_block(bytes, num_docs).block(self.checkpoints.len() as int) == bytes,
            forall|i: int|
                0 <= i < self.checkpoints.len() ==> #[trigger] self.append_block(
                    bytes,
                    num_docs,
                ).block(i) == self.block(i),
    {
        let longer = self.append_block(bytes, num_docs);
        let last = self.checkpoints.len() as int;
        assert forall|i: int| 0 <= i < last implies longer.checkpoints[i]
            == #[trigger] self.checkpoints[i] by {}
        assert forall|i: int, j: int| 0 <= i < j < longer.checkpoints.len() implies {
            let earlier = #[trigger] longer.checkpoints[i];
            let later = #[trigger] longer.checkpoints[j];
            &&& earlier.doc_end <= later.doc_start
            &&& j == i + 1 ==> earlier.doc_end == later.doc_start
            &&& earlier.byte_end <= later.byte_start
        } by {
            assert(longer.checkpoints[i] == self.checkpoints[i]);
            if j < last {
                assert(longer.checkpoints[j] == self.checkpoints[j]);
            } else if i < last - 1 {
                assert(self.checkpoints[i].doc_end <= self.checkpoints[last - 1].doc_start);
            }
        }
        assert(longer.block(last) =~= bytes);
        assert forall|i: int| 0 <= i < last implies #[trigger] longer.block(i) == self.block(i) by {
            assert(longer.checkpoints[i] == self.checkpoints[i]);
            assert(longer.block(i) =~= self.block(i));
        }
    }
}

/// What stands behind the blocks of a store.
#[derive(Clone, Copy, Debug, PartialEq, Eq, Structural)]
pub struct DocStoreFooter {
    /// Where the blocks end.
    pub offset: u64,
    /// The compression of the blocks.
    pub decompressor: Decompressor,
    /// The format of the blocks.
    pub doc_store_version: DocStoreVersion,
}

/// A complete store.
#[derive(Clone, Debug)]
pub struct StoreFile {
    /// The blocks.
    pub data: Vec<u8>,
    /// Which documents and which bytes belong to which block.
    pub checkpoints: Vec<Checkpoint>,
    /// Format and compression of the blocks.
    pub footer: DocStoreFooter,
}

impl View for StoreFile {
    type V = StoreLayout;

    open spec fn view(&self) -> StoreLayout {
        StoreLayout { data: self.data@, checkpoints: self.checkpoints@ }
    }
}

/// The checkpoint of the block that holds `doc`.
pub(crate) fn seek(checkpoints: &Vec<Checkpoint>, doc: u32, Ghost(data): Ghost<Seq<u8>>) -> (found: Option<
    Checkpoint,
>)
    requires
        (StoreLayout { data, checkpoints: checkpoints@ }).wf(),
    ensures
        ({
            let layout = StoreLayout { data, checkpoints: checkpoints@ };
            match found {
                Some(checkpoint) => {
                    &&& layout.doc_in_block(doc, layout.block_of(doc))
                    &&& checkpoint == layout.checkpoints[layout.block_of(doc)]
                    &&& doc < layout.num_docs()
                },
                None => doc >= layout.num_docs() && forall|i: int| !layout.doc_in_block(doc, i),
            }
        }),
{
    let ghost layout = StoreLayout { data, checkpoints: checkpoints@ };
    let mut low: usize = 0;
    let mut high: usize = checkpoints.len();
    // Blocks below `low` end at or before `doc`, blocks from `high` on end behind it.
    while low < high
        invariant
            layout == (StoreLayout { data, checkpoints: checkpoints@ }),
            layout.wf(),
            low <= high <= checkpoints@.len(),
            forall|i: int| 0 <= i < low ==> (#[trigger] checkpoints@[i]).doc_end <= doc,
            forall|i: int|
                high <= i < checkpoints@.len() ==> doc < (#[trigger] checkpoints@[i]).doc_end,
        decreases high - low,
    {
        let middle: usize = low + (high - low) / 2;
        let ghost pivot = layout.checkpoints[middle as int];
        if checkpoints[middle].doc_end <= doc {
            assert forall|i: int| 0 <= i < middle + 1 implies (#[trigger] checkpoints@[i]).doc_end
                <= doc by {
                if i < middle {
                    assert(layout.checkpoints[i].doc_end <= pivot.doc_start);
                }
            }
            low = middle + 1;
        } else {
            assert forall|i: int| middle <= i < checkpoints@.len() implies doc < (
            #[trigger] checkpoints@[i]).doc_end by {
                if i > middle {
                    assert(pivot.doc_end <= layout.checkpoints[i].doc_start);
                }
            }
            high = middle;
        }
    }
    if low < checkpoints.len() {
        proof {
            if low > 0 {
                assert(layout.checkpoints[low - 1].doc_end == layout.checkpoints[low as int].doc_start);
            }
            assert(layout.doc_in_block(doc, low as int));
            layout.lemma_block_of_unique(doc, low as int);
            let last = layout.checkpoints.len() - 1;
            assert(layout.checkpoints[last].doc_end > doc);
        }
        Some(checkpoints[low])
    } else {
        proof {
            assert forall|i: int| !layout.doc_in_block(doc, i) by {
                if 0 <= i < layout.checkpoints.len() {
                    assert(checkpoints@[i].doc_end <= doc);
                }
            }
        }
        None
    }
}

} // verus!
