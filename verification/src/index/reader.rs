//! Reading an index.

use vstd::prelude::*;

use crate::error::TantivyError;
use crate::index::directory::Directory;
use crate::index::index::Index;
use crate::index::meta::Segment;

verus! {

/// When a reader takes notice of new commits.
#[derive(Clone, Copy, Debug, PartialEq, Eq, Structural)]
pub enum ReloadPolicy {
    /// When it is told to.
    Manual,
    /// Soon after each commit.
    OnCommitWithDelay,
}

/// Collects how an index should be read.
pub struct IndexReaderBuilder<'a, D: Directory> {
    index: &'a Index<D>,
    reload_policy: ReloadPolicy,
}

impl<'a, D: Directory> IndexReaderBuilder<'a, D> {
    /// The index.
    pub closed spec fn spec_index(self) -> Index<D> {
        *self.index
    }

    /// When the reader takes notice of new commits.
    pub closed spec fn spec_reload_policy(self) -> ReloadPolicy {
        self.reload_policy
    }

    /// Reads `index`, and takes notice of new commits.
    pub(crate) fn new(index: &'a Index<D>) -> (builder: Self)
        ensures
            builder.spec_index() == *index,
            builder.spec_reload_policy() == ReloadPolicy::OnCommitWithDelay,
    {
        IndexReaderBuilder { index, reload_policy: ReloadPolicy::OnCommitWithDelay }
    }

    /// Sets when the reader takes notice of new commits.
    pub fn reload_policy(self, reload_policy: ReloadPolicy) -> (builder: Self)
        ensures
            builder.spec_index() == self.spec_index(),
            builder.spec_reload_policy() == reload_policy,
    {
        IndexReaderBuilder { index: self.index, reload_policy }
    }

    /// Opens a reader of the segments of the last commit.
    pub fn open_reader(self) -> (result: Result<IndexReader, TantivyError>)
        ensures
            opened_reader(self.spec_index(), self.spec_reload_policy(), result),
    {
        match self.index.committed_segments() {
            Ok(segments) => Ok(IndexReader { segments, reload_policy: self.reload_policy }),
            Err(error) => Err(error),
        }
    }
}

/// The segments of a commit.
#[derive(Debug)]
pub struct IndexReader {
    pub segments: Vec<Segment>,
    pub reload_policy: ReloadPolicy,
}

/// What opening a reader gives.
pub open spec fn opened_reader<D: Directory>(
    index: Index<D>,
    reload_policy: ReloadPolicy,
    result: Result<IndexReader, TantivyError>,
) -> bool {
    match result {
        Ok(reader) => {
            &&& reader.reload_policy == reload_policy
            &&& crate::index::index::loaded(index.dir().state().meta) matches Ok(meta)
                && reader.segments@.len() == meta.segments.len() && forall|i: int|
                0 <= i < meta.segments.len() ==> crate::index::meta::is_segment(
                    #[trigger] reader.segments@[i],
                    index.spec_schema(),
                    index.spec_settings(),
                    meta.segments[i],
                )
        },
        Err(error) => crate::index::index::load_fails(
            index.dir().state(),
            index.dir().reliable(),
            error,
        ),
    }
}

impl IndexReader {
    /// The number of documents, deleted ones left out, if it can be counted with eight bytes.
    pub fn num_docs(&self) -> (num_docs: u64)
        requires
            self.segments@.len() <= u32::MAX,
        ensures
            num_docs == alive_docs(self.segments@),
    {
        let mut num_docs: u64 = 0;
        let mut next: usize = 0;
        while next < self.segments.len()
            invariant
                next <= self.segments@.len(),
                self.segments@.len() <= u32::MAX,
                num_docs == alive_docs(self.segments@.take(next as int)),
                num_docs <= next * u32::MAX,
            decreases self.segments@.len() - next,
        {
            assert(self.segments@.take(next + 1).drop_last() =~= self.segments@.take(next as int));
            assert(self.segments@.take(next + 1).last() == self.segments@[next as int]);
            let max_doc: u32 = self.segments[next].meta.max_doc;
            let deleted: u32 = match self.segments[next].meta.deletes {
                Some(deletes) => deletes.num_deleted_docs,
                None => 0,
            };
            let alive: u32 = if deleted < max_doc {
                max_doc - deleted
            } else {
                0
            };
            assert(num_docs + alive <= u64::MAX) by (nonlinear_arith)
                requires
                    num_docs <= next * u32::MAX,
                    next < u32::MAX,
                    alive <= u32::MAX,
            ;
            assert((next + 1) * u32::MAX == next * u32::MAX + u32::MAX) by (nonlinear_arith);
            num_docs = num_docs + alive as u64;
            next = next + 1;
        }
        assert(self.segments@.take(self.segments@.len() as int) =~= self.segments@);
        num_docs
    }
}

/// The number of documents of all segments, deleted ones left out.
pub open spec fn alive_docs(segments: Seq<Segment>) -> nat
    decreases segments.len(),
{
    if segments.len() == 0 {
        0
    } else {
        let meta = segments.last().meta;
        let deleted = match meta.deletes {
            Some(deletes) => deletes.num_deleted_docs,
            None => 0,
        };
        alive_docs(segments.drop_last()) + if deleted < meta.max_doc {
            (meta.max_doc - deleted) as nat
        } else {
            0
        }
    }
}

} // verus!
