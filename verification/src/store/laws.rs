//! What holds of stores that were written, stacked and read.

use vstd::prelude::*;

use crate::error::{StoreError, TantivyError};
use crate::store::contents::StoreContents;
use crate::store::layout::StoreLayout;
use crate::store::version::DocStoreVersion;

verus! {

/// A block that was loaded, with its remap changed.
pub open spec fn with_map(
    loaded: Result<(Seq<u8>, Map<u32, u32>), StoreError>,
    changed: spec_fn(Map<u32, u32>) -> Map<u32, u32>,
) -> Result<(Seq<u8>, Map<u32, u32>), StoreError> {
    match loaded {
        Ok((data, map)) => Ok((data, changed(map))),
        Err(error) => Err(error),
    }
}

/// A document that was read, with the remap of its block changed.
pub open spec fn doc_with_map(
    document: Result<(Seq<u8>, Map<u32, u32>), TantivyError>,
    changed: spec_fn(Map<u32, u32>) -> Map<u32, u32>,
) -> Result<(Seq<u8>, Map<u32, u32>), TantivyError> {
    match document {
        Ok((bytes, map)) => Ok((bytes, changed(map))),
        Err(error) => Err(error),
    }
}

/// Reading a document is cutting it out of the block that holds it.
proof fn lemma_doc_at(contents: StoreContents, index: int, doc: u32)
    requires
        contents.layout.wf(),
        contents.layout.doc_in_block(doc, index),
    ensures
        doc < contents.layout.num_docs(),
        contents.doc(doc) == crate::store::contents::doc_of_loaded(
            contents.load(contents.layout.checkpoints[index]),
            (doc - contents.layout.checkpoints[index].doc_start) as u32,
        ),
        contents.doc_readable(doc) == (contents.unambiguous(contents.layout.checkpoints[index]) && (
        contents.load(contents.layout.checkpoints[index]) matches Ok((data, _))
            ==> crate::store::contents::can_cut(
            data,
            (doc - contents.layout.checkpoints[index].doc_start) as u32,
        ))),
{
    contents.layout.lemma_block_of_unique(doc, index);
    let last = contents.layout.checkpoints.len() - 1;
    assert(contents.layout.checkpoints[index].doc_end <= contents.layout.checkpoints[last].doc_end);
}

/// In a sound store no two blocks start at the same byte.
proof fn lemma_sound_is_unambiguous(contents: StoreContents, index: int)
    requires
        contents.sound(),
        0 <= index < contents.layout.checkpoints.len(),
    ensures
        contents.unambiguous(contents.layout.checkpoints[index]),
{
    let checkpoint = contents.layout.checkpoints[index];
    assert(contents.has_payload(checkpoint));
    assert forall|i: int|
        0 <= i < contents.layout.checkpoints.len() && (
        #[trigger] contents.layout.checkpoints[i]).byte_start == checkpoint.byte_start
            && contents.layout.checkpoints[i] != checkpoint implies contents.load(
        contents.layout.checkpoints[i],
    ) is Err by {
        let other = contents.layout.checkpoints[i];
        assert(contents.has_payload(other));
        if i < index {
            assert(other.byte_end <= checkpoint.byte_start);
        } else if index < i {
            assert(checkpoint.byte_end <= other.byte_start);
        }
    }
}

/// Every document below the number of documents is in some block.
proof fn lemma_has_block(layout: StoreLayout, doc: u32) -> (index: int)
    requires
        layout.wf(),
        doc < layout.num_docs(),
    ensures
        layout.doc_in_block(doc, index),
{
    lemma_has_block_below(layout, doc, layout.checkpoints.len() as int)
}

proof fn lemma_has_block_below(layout: StoreLayout, doc: u32, end: int) -> (index: int)
    requires
        layout.wf(),
        0 < end <= layout.checkpoints.len(),
        doc < layout.checkpoints[end - 1].doc_end,
    ensures
        layout.doc_in_block(doc, index),
    decreases end,
{
    if layout.checkpoints[end - 1].doc_start <= doc {
        end - 1
    } else {
        assert(end > 1);
        assert(layout.checkpoints[end - 2].doc_end == layout.checkpoints[end - 1].doc_start);
        lemma_has_block_below(layout, doc, end - 1)
    }
}

/// A block that is not empty, and has a payload if it can be cut.
pub open spec fn is_block_with_payload(version: DocStoreVersion, block: Seq<u8>) -> bool {
    &&& block.len() > 0
    &&& crate::store::contents::split_block(version, block) matches Ok((payload, _))
        ==> payload.len() > 0
}

/// Appending a block keeps the documents that are there, and adds those of the block. A store
/// stays sound if the block is not empty or without payload, and valid if in addition the block
/// can be cut into documents.
pub proof fn lemma_append_docs(contents: StoreContents, block: Seq<u8>, num_docs: u32)
    requires
        contents.layout.wf(),
        num_docs > 0,
        contents.layout.num_docs() + num_docs <= u32::MAX,
        contents.layout.data.len() + block.len() <= usize::MAX,
    ensures
        ({
            let result = StoreContents {
                layout: contents.layout.append_block(block, num_docs),
                ..contents
            };
            let loaded = crate::store::contents::load_block(
                contents.version,
                contents.decompressor,
                block,
            );
            &&& result.layout.wf()
            &&& result.layout.num_docs() == contents.layout.num_docs() + num_docs
            &&& forall|doc: u32|
                doc < contents.layout.num_docs() ==> #[trigger] result.doc(doc) == contents.doc(doc)
            &&& forall|doc: u32|
                contents.layout.num_docs() <= doc < result.layout.num_docs()
                    ==> #[trigger] result.doc(doc) == crate::store::contents::doc_of_loaded(
                    loaded,
                    (doc - contents.layout.num_docs()) as u32,
                )
            &&& contents.sound() && is_block_with_payload(contents.version, block) ==> result.sound()
            &&& contents.valid() && is_block_with_payload(contents.version, block) && (
            loaded matches Ok((data, _)) ==> crate::store::contents::is_readable_block(data))
                ==> result.valid()
        }),
{
    let result = StoreContents { layout: contents.layout.append_block(block, num_docs), ..contents };
    contents.layout.lemma_append_block(block, num_docs);
    let last = contents.layout.checkpoints.len() as int;
    assert(result.layout.block(last) == block);
    assert forall|i: int| 0 <= i < last implies {
        &&& #[trigger] result.layout.checkpoints[i] == contents.layout.checkpoints[i]
        &&& result.block_at(result.layout.checkpoints[i]) == contents.block_at(
            contents.layout.checkpoints[i],
        )
    } by {
        assert(result.layout.block(i) == contents.layout.block(i));
    }
    assert forall|doc: u32| doc < contents.layout.num_docs() implies #[trigger] result.doc(doc)
        == contents.doc(doc) by {
        let index = lemma_has_block(contents.layout, doc);
        assert(result.layout.checkpoints[index] == contents.layout.checkpoints[index]);
        assert(result.layout.doc_in_block(doc, index));
        lemma_doc_at(contents, index, doc);
        lemma_doc_at(result, index, doc);
    }
    assert forall|doc: u32|
        contents.layout.num_docs() <= doc < result.layout.num_docs() implies #[trigger] result.doc(
        doc,
    ) == crate::store::contents::doc_of_loaded(
        crate::store::contents::load_block(contents.version, contents.decompressor, block),
        (doc - contents.layout.num_docs()) as u32,
    ) by {
        assert(result.layout.doc_in_block(doc, last));
        lemma_doc_at(result, last, doc);
    }
}

/// Blocks behind each other: those of `target`, then those of `source` with changed remaps.
spec fn blocks_follow(
    result: StoreContents,
    target: StoreContents,
    source: StoreContents,
    count: int,
    changed: spec_fn(Map<u32, u32>) -> Map<u32, u32>,
) -> bool {
    let first = target.layout.checkpoints.len();
    &&& result.layout.wf()
    &&& result.layout.checkpoints.len() == first + count
    &&& forall|i: int|
        0 <= i < first ==> {
            let kept = #[trigger] result.layout.checkpoints[i];
            &&& kept == target.layout.checkpoints[i]
            &&& result.block_at(kept) == target.block_at(kept)
        }
    &&& forall|i: int|
        0 <= i < count ==> {
            let from = #[trigger] source.layout.checkpoints[i];
            let copied = result.layout.checkpoints[first + i];
            &&& copied.doc_start == target.layout.num_docs() + from.doc_start
            &&& copied.doc_end == target.layout.num_docs() + from.doc_end
            &&& crate::store::contents::split_block(result.version, result.block_at(copied))
                == with_map(
                crate::store::contents::split_block(source.version, source.block_at(from)),
                changed,
            )
            &&& source.has_payload(from) ==> copied.byte_start < copied.byte_end
        }
}

/// Blocks that follow each other stay sound and valid.
proof fn lemma_follow_valid(
    result: StoreContents,
    target: StoreContents,
    source: StoreContents,
    changed: spec_fn(Map<u32, u32>) -> Map<u32, u32>,
)
    requires
        target.version == result.version,
        target.decompressor == result.decompressor,
        source.decompressor == result.decompressor,
        blocks_follow(
            result,
            target,
            source,
            source.layout.checkpoints.len() as int,
            changed,
        ),
    ensures
        target.sound() && source.sound() ==> result.sound(),
        target.valid() && source.valid() ==> result.valid(),
{
    let first = target.layout.checkpoints.len() as int;
    if target.sound() && source.sound() {
        assert forall|i: int| 0 <= i < result.layout.checkpoints.len() implies result.has_payload(
            #[trigger] result.layout.checkpoints[i],
        ) by {
            if i < first {
                assert(result.layout.checkpoints[i] == target.layout.checkpoints[i]);
            } else {
                assert(source.has_payload(source.layout.checkpoints[i - first]));
            }
        }
    }
    if target.valid() && source.valid() {
        assert forall|i: int| 0 <= i < result.layout.checkpoints.len() implies (result.load(
            #[trigger] result.layout.checkpoints[i],
        ) matches Ok((data, _)) ==> crate::store::contents::is_readable_block(data)) by {
            if i < first {
                assert(result.layout.checkpoints[i] == target.layout.checkpoints[i]);
            } else {
                let from = source.layout.checkpoints[i - first];
                assert(source.load(from) matches Ok((data, _))
                    ==> crate::store::contents::is_readable_block(data));
            }
        }
    }
}

/// Documents follow each other as their blocks do, and the blocks stay sound and valid.
proof fn lemma_docs_follow(
    result: StoreContents,
    target: StoreContents,
    source: StoreContents,
    changed: spec_fn(Map<u32, u32>) -> Map<u32, u32>,
)
    requires
        target.layout.wf(),
        source.layout.wf(),
        target.version == result.version,
        target.decompressor == result.decompressor,
        source.decompressor == result.decompressor,
        target.layout.num_docs() + source.layout.num_docs() <= u32::MAX,
        blocks_follow(
            result,
            target,
            source,
            source.layout.checkpoints.len() as int,
            changed,
        ),
    ensures
        result.layout.num_docs() == target.layout.num_docs() + source.layout.num_docs(),
        forall|doc: u32|
            doc < target.layout.num_docs() ==> #[trigger] result.doc(doc) == target.doc(doc),
        forall|doc: u32|
            doc < source.layout.num_docs() ==> result.doc((target.layout.num_docs() + doc) as u32)
                == doc_with_map(#[trigger] source.doc(doc), changed),
        target.sound() && source.sound() ==> result.sound(),
        target.valid() && source.valid() ==> result.valid(),
{
    let first = target.layout.checkpoints.len() as int;
    let count = source.layout.checkpoints.len() as int;
    if count > 0 {
        assert(source.layout.checkpoints[count - 1].doc_end == source.layout.num_docs());
    } else if first > 0 {
        assert(result.layout.checkpoints[first - 1].doc_end == target.layout.num_docs());
    }
    assert forall|doc: u32| doc < target.layout.num_docs() implies #[trigger] result.doc(doc)
        == target.doc(doc) by {
        let index = lemma_has_block(target.layout, doc);
        assert(result.layout.checkpoints[index].doc_start
            == target.layout.checkpoints[index].doc_start);
        assert(result.layout.doc_in_block(doc, index));
        lemma_doc_at(target, index, doc);
        lemma_doc_at(result, index, doc);
    }
    assert forall|doc: u32| doc < source.layout.num_docs() implies result.doc(
        (target.layout.num_docs() + doc) as u32,
    ) == doc_with_map(#[trigger] source.doc(doc), changed) by {
        let moved = (target.layout.num_docs() + doc) as u32;
        let index = lemma_has_block(source.layout, doc);
        assert(source.layout.checkpoints[index].doc_start <= doc);
        assert(result.layout.doc_in_block(moved, first + index));
        lemma_doc_at(source, index, doc);
        lemma_doc_at(result, first + index, moved);
    }
    lemma_follow_valid(result, target, source, changed);
}

/// A document of the target is readable afterwards if it was.
proof fn lemma_target_readable(
    result: StoreContents,
    target: StoreContents,
    source: StoreContents,
    changed: spec_fn(Map<u32, u32>) -> Map<u32, u32>,
    doc: u32,
)
    requires
        target.version == result.version,
        target.decompressor == result.decompressor,
        target.sound(),
        result.sound(),
        doc < target.layout.num_docs(),
        blocks_follow(
            result,
            target,
            source,
            source.layout.checkpoints.len() as int,
            changed,
        ),
    ensures
        result.doc_readable(doc) == target.doc_readable(doc),
{
    let index = lemma_has_block(target.layout, doc);
    assert(result.layout.checkpoints[index].doc_start == target.layout.checkpoints[index].doc_start);
    assert(result.layout.doc_in_block(doc, index));
    lemma_doc_at(target, index, doc);
    lemma_doc_at(result, index, doc);
    lemma_sound_is_unambiguous(target, index);
    lemma_sound_is_unambiguous(result, index);
}

/// A document of the source is readable afterwards if it was.
proof fn lemma_source_readable(
    result: StoreContents,
    target: StoreContents,
    source: StoreContents,
    changed: spec_fn(Map<u32, u32>) -> Map<u32, u32>,
    doc: u32,
)
    requires
        source.decompressor == result.decompressor,
        target.layout.num_docs() + source.layout.num_docs() <= u32::MAX,
        source.sound(),
        result.sound(),
        doc < source.layout.num_docs(),
        blocks_follow(
            result,
            target,
            source,
            source.layout.checkpoints.len() as int,
            changed,
        ),
    ensures
        result.doc_readable((target.layout.num_docs() + doc) as u32) == source.doc_readable(doc),
{
    let first = target.layout.checkpoints.len() as int;
    let moved = (target.layout.num_docs() + doc) as u32;
    let index = lemma_has_block(source.layout, doc);
    assert(source.layout.checkpoints[index].doc_start <= doc);
    assert(result.layout.doc_in_block(moved, first + index));
    lemma_doc_at(source, index, doc);
    lemma_doc_at(result, first + index, moved);
    lemma_sound_is_unambiguous(source, index);
    lemma_sound_is_unambiguous(result, first + index);
}

/// Documents that follow each other are readable if they were.
proof fn lemma_readable_follows(
    result: StoreContents,
    target: StoreContents,
    source: StoreContents,
    changed: spec_fn(Map<u32, u32>) -> Map<u32, u32>,
)
    requires
        target.version == result.version,
        target.decompressor == result.decompressor,
        source.decompressor == result.decompressor,
        target.layout.num_docs() + source.layout.num_docs() <= u32::MAX,
        target.sound(),
        source.sound(),
        result.sound(),
        blocks_follow(
            result,
            target,
            source,
            source.layout.checkpoints.len() as int,
            changed,
        ),
    ensures
        forall|doc: u32|
            doc < target.layout.num_docs() ==> #[trigger] result.doc_readable(doc)
                == target.doc_readable(doc),
        forall|doc: u32|
            doc < source.layout.num_docs() ==> result.doc_readable(
                (target.layout.num_docs() + doc) as u32,
            ) == #[trigger] source.doc_readable(doc),
{
    assert forall|doc: u32| doc < target.layout.num_docs() implies #[trigger] result.doc_readable(
        doc,
    ) == target.doc_readable(doc) by {
        lemma_target_readable(result, target, source, changed, doc);
    }
    assert forall|doc: u32| doc < source.layout.num_docs() implies result.doc_readable(
        (target.layout.num_docs() + doc) as u32,
    ) == #[trigger] source.doc_readable(doc) by {
        lemma_source_readable(result, target, source, changed, doc);
    }
}

/// The contents after stacking, in the format of the target.
pub open spec fn stacked_contents(
    target: StoreContents,
    stacked: crate::store::store_compressor::Stacked,
) -> StoreContents {
    StoreContents { layout: stacked.layout, ..target }
}

/// What becomes of the remap of a block when its store is stacked without renaming fields: it is
/// kept where both formats have remaps, else it is empty.
pub open spec fn map_after_stacking(
    target: DocStoreVersion,
    source: DocStoreVersion,
) -> spec_fn(Map<u32, u32>) -> Map<u32, u32> {
    if target.spec_number() >= 3 && source.spec_number() >= 3 {
        |map: Map<u32, u32>| map
    } else {
        |map: Map<u32, u32>| Map::empty()
    }
}

/// What becomes of the remap of a block when its store is stacked and fields are renamed.
pub open spec fn map_after_renaming(renames: Map<u32, u32>) -> spec_fn(Map<u32, u32>) -> Map<
    u32,
    u32,
> {
    |map: Map<u32, u32>| crate::store::block_trailer::composed_map(map, renames)
}

proof fn lemma_bytes_follow(result: StoreContents, target: StoreContents, source: StoreContents)
    requires
        target.layout.wf(),
        source.layout.wf(),
        target.layout.num_docs() + source.layout.num_docs() <= u32::MAX,
        target.layout.data.len() + source.layout.data.len() <= usize::MAX,
        result.layout == crate::store::store_compressor::stack_bytes(target.layout, source.layout),
        result.version == source.version,
    ensures
        blocks_follow(
            result,
            target,
            source,
            source.layout.checkpoints.len() as int,
            |map: Map<u32, u32>| map,
        ),
{
    crate::store::store_compressor::lemma_stack_bytes_wf(target.layout, source.layout);
    let first = target.layout.checkpoints.len() as int;
    let count = source.layout.checkpoints.len() as int;
    let same = |map: Map<u32, u32>| map;
    assert forall|i: int| 0 <= i < first implies {
        let kept = #[trigger] result.layout.checkpoints[i];
        &&& kept == target.layout.checkpoints[i]
        &&& result.block_at(kept) == target.block_at(kept)
    } by {
        let kept = result.layout.checkpoints[i];
        assert(kept == target.layout.checkpoints[i]);
        assert(result.block_at(kept) =~= target.block_at(kept));
    }
    assert forall|i: int| 0 <= i < count implies {
        let from = #[trigger] source.layout.checkpoints[i];
        let copied = result.layout.checkpoints[first + i];
        &&& copied.doc_start == target.layout.num_docs() + from.doc_start
        &&& copied.doc_end == target.layout.num_docs() + from.doc_end
        &&& crate::store::contents::split_block(result.version, result.block_at(copied))
            == with_map(
            crate::store::contents::split_block(source.version, source.block_at(from)),
            same,
        )
        &&& source.has_payload(from) ==> copied.byte_start < copied.byte_end
    } by {
        let from = source.layout.checkpoints[i];
        let copied = result.layout.checkpoints[first + i];
        assert(result.block_at(copied) =~= source.block_at(from));
    }
}

proof fn lemma_blocks_follow(
    result: StoreContents,
    target: StoreContents,
    source: StoreContents,
    renames: Option<Map<u32, u32>>,
    count: nat,
    changed: spec_fn(Map<u32, u32>) -> Map<u32, u32>,
)
    requires
        target.layout.wf(),
        source.layout.wf(),
        target.version == result.version,
        target.layout.num_docs() + source.layout.num_docs() <= u32::MAX,
        count <= source.layout.checkpoints.len(),
        ({
            let stacked = crate::store::store_compressor::stack_blocks(
                target.layout,
                target.version,
                source,
                renames,
                count,
            );
            &&& result.layout == stacked.layout
            &&& stacked.error is None
            &&& stacked.layout.data.len() <= usize::MAX
        }),
        forall|map: Map<u32, u32>| #[trigger]
            changed(map) == (if target.version.spec_number() < 3 {
                Map::empty()
            } else {
                crate::store::store_compressor::copied_map(map, renames)
            }),
    ensures
        blocks_follow(result, target, source, count as int, changed),
        result.layout.num_docs() == target.layout.num_docs() + (if count == 0 {
            0
        } else {
            source.layout.checkpoints[count - 1].doc_end as int
        }),
    decreases count,
{
    let first = target.layout.checkpoints.len() as int;
    if count > 0 {
        let version = target.version;
        let stacked = crate::store::store_compressor::stack_blocks(
            target.layout,
            version,
            source,
            renames,
            (count - 1) as nat,
        );
        let before = StoreContents { layout: stacked.layout, ..result };
        lemma_blocks_follow(before, target, source, renames, (count - 1) as nat, changed);
        let from = source.layout.checkpoints[count - 1];
        let cut = crate::store::contents::split_block(source.version, source.block_at(from));
        let payload = cut->Ok_0.0;
        let map = cut->Ok_0.1;
        let new_map = crate::store::store_compressor::copied_map(map, renames);
        let trailer = crate::store::store_compressor::trailer_for(version, new_map);
        let block = payload + trailer;
        let num_docs = (from.doc_end - from.doc_start) as u32;
        let last = source.layout.checkpoints.len() - 1;
        assert(from.doc_end <= source.layout.checkpoints[last].doc_end);
        if count > 1 {
            assert(source.layout.checkpoints[count - 2].doc_end == from.doc_start);
        }
        assert(result.layout == before.layout.append_block(block, num_docs));
        before.layout.lemma_append_block(block, num_docs);
        assert forall|i: int| 0 <= i < before.layout.checkpoints.len() implies {
            let kept = #[trigger] result.layout.checkpoints[i];
            &&& kept == before.layout.checkpoints[i]
            &&& result.block_at(kept) == before.block_at(kept)
        } by {
            assert(result.layout.checkpoints[i] == before.layout.checkpoints[i]);
            assert(result.layout.block(i) == before.layout.block(i));
        }
        assert forall|i: int| 0 <= i < first implies {
            let kept = #[trigger] result.layout.checkpoints[i];
            &&& kept == target.layout.checkpoints[i]
            &&& result.block_at(kept) == target.block_at(kept)
        } by {
            assert(before.layout.checkpoints[i] == target.layout.checkpoints[i]);
        }
        assert forall|i: int| 0 <= i < count implies {
            let other = #[trigger] source.layout.checkpoints[i];
            let copied = result.layout.checkpoints[first + i];
            &&& copied.doc_start == target.layout.num_docs() + other.doc_start
            &&& copied.doc_end == target.layout.num_docs() + other.doc_end
            &&& crate::store::contents::split_block(result.version, result.block_at(copied))
                == with_map(
                crate::store::contents::split_block(source.version, source.block_at(other)),
                changed,
            )
            &&& source.has_payload(other) ==> copied.byte_start < copied.byte_end
        } by {
            let other = source.layout.checkpoints[i];
            if i < count - 1 {
                assert(result.layout.checkpoints[first + i] == before.layout.checkpoints[first
                    + i]);
                assert(source.layout.checkpoints[i] == other);
            } else {
                assert(result.layout.block(first + i) == block);
                assert(changed(map) == (if version.spec_number() < 3 {
                    Map::empty()
                } else {
                    new_map
                }));
                if version.spec_number() >= 3 {
                    crate::store::block_trailer::lemma_trailer_roundtrip(payload, new_map);
                    assert(block.take(block.len() - trailer.len()) =~= payload);
                } else {
                    assert(block =~= payload);
                }
            }
        }
    }
}

/// Blocks of this format are not stacked on those of a target, whatever they hold.
pub open spec fn stacking_is_refused(
    target: DocStoreVersion,
    source: DocStoreVersion,
    renames: Option<Map<u32, u32>>,
) -> bool {
    source.spec_number() < 2 || (renames is Some && target.spec_number() < 3)
}

/// What stacking `source` on `target` leads to, with its fields renamed if asked for.
pub open spec fn stack_outcome(
    target: StoreContents,
    source: StoreContents,
    renames: Option<Map<u32, u32>>,
) -> crate::store::store_compressor::Stacked {
    match renames {
        None => crate::store::store_compressor::stack_result(target.layout, target.version, source),
        Some(renames) => crate::store::store_compressor::stack_with_remap_result(
            target.layout,
            target.version,
            source,
            renames,
        ),
    }
}

/// Bytes behind the last block do not matter.
proof fn lemma_more_bytes(contents: StoreContents, bytes: Seq<u8>)
    requires
        contents.layout.wf(),
    ensures
        ({
            let result = StoreContents {
                layout: StoreLayout {
                    data: contents.layout.data + bytes,
                    ..contents.layout
                },
                ..contents
            };
            &&& result.layout.wf()
            &&& result.layout.num_docs() == contents.layout.num_docs()
            &&& forall|doc: u32|
                doc < contents.layout.num_docs() ==> #[trigger] result.doc(doc) == contents.doc(doc)
            &&& contents.sound() ==> result.sound()
        }),
{
    let result = StoreContents {
        layout: StoreLayout { data: contents.layout.data + bytes, ..contents.layout },
        ..contents
    };
    assert forall|i: int| 0 <= i < contents.layout.checkpoints.len() implies result.block_at(
        #[trigger] result.layout.checkpoints[i],
    ) == contents.block_at(contents.layout.checkpoints[i]) by {
        let checkpoint = contents.layout.checkpoints[i];
        assert(checkpoint.byte_end <= contents.layout.data.len());
        assert(result.block_at(checkpoint) =~= contents.block_at(checkpoint));
    }
    assert forall|doc: u32| doc < contents.layout.num_docs() implies #[trigger] result.doc(doc)
        == contents.doc(doc) by {
        let index = lemma_has_block(contents.layout, doc);
        assert(result.layout.checkpoints[index] == contents.layout.checkpoints[index]);
        assert(result.layout.doc_in_block(doc, index));
        lemma_doc_at(contents, index, doc);
        lemma_doc_at(result, index, doc);
    }
}

/// However many blocks were copied, the documents of the target are kept.
proof fn lemma_copying_keeps_target(
    target: StoreContents,
    source: StoreContents,
    renames: Option<Map<u32, u32>>,
    count: nat,
)
    requires
        target.layout.wf(),
        source.layout.wf(),
        target.layout.num_docs() + source.layout.num_docs() <= u32::MAX,
        count <= source.layout.checkpoints.len(),
        crate::store::store_compressor::stack_blocks(
            target.layout,
            target.version,
            source,
            renames,
            count,
        ).layout.data.len() <= usize::MAX,
    ensures
        ({
            let stacked = crate::store::store_compressor::stack_blocks(
                target.layout,
                target.version,
                source,
                renames,
                count,
            );
            let result = stacked_contents(target, stacked);
            &&& result.layout.wf()
            &&& target.layout.num_docs() <= result.layout.num_docs()
            &&& stacked.error is None ==> result.layout.num_docs() == target.layout.num_docs() + (
            if count == 0 {
                0
            } else {
                source.layout.checkpoints[count - 1].doc_end as int
            })
            &&& forall|doc: u32|
                doc < target.layout.num_docs() ==> #[trigger] result.doc(doc) == target.doc(doc)
            &&& target.sound() && source.sound() ==> result.sound()
        }),
    decreases count,
{
    if count > 0 {
        let version = target.version;
        let stacked = crate::store::store_compressor::stack_blocks(
            target.layout,
            version,
            source,
            renames,
            count,
        );
        let earlier = crate::store::store_compressor::stack_blocks(
            target.layout,
            version,
            source,
            renames,
            (count - 1) as nat,
        );
        let before = stacked_contents(target, earlier);
        let result = stacked_contents(target, stacked);
        lemma_copying_keeps_target(target, source, renames, (count - 1) as nat);
        if earlier.error is None {
            let from = source.layout.checkpoints[count - 1];
            let last = source.layout.checkpoints.len() - 1;
            assert(from.doc_end <= source.layout.checkpoints[last].doc_end);
            if count > 1 {
                assert(source.layout.checkpoints[count - 2].doc_end == from.doc_start);
            }
            let cut = crate::store::contents::split_block(source.version, source.block_at(from));
            if cut is Ok {
                let payload = cut->Ok_0.0;
                let new_map = crate::store::store_compressor::copied_map(cut->Ok_0.1, renames);
                if stacked.error is Some {
                    lemma_more_bytes(before, payload);
                } else {
                    let trailer = crate::store::store_compressor::trailer_for(version, new_map);
                    let block = payload + trailer;
                    let num_docs = (from.doc_end - from.doc_start) as u32;
                    lemma_append_docs(before, block, num_docs);
                    if version.spec_number() >= 3 {
                        crate::store::block_trailer::lemma_trailer_roundtrip(payload, new_map);
                        assert(block.take(block.len() - trailer.len()) =~= payload);
                    } else {
                        assert(block =~= payload);
                    }
                    if source.sound() {
                        assert(source.has_payload(from));
                        assert(is_block_with_payload(version, block));
                    }
                }
            }
            assert forall|doc: u32|
                doc < target.layout.num_docs() implies #[trigger] result.doc(doc) == target.doc(
                doc,
            ) by {
                assert(before.doc(doc) == target.doc(doc));
                assert(result.doc(doc) == before.doc(doc));
            }
        }
    }
}

/// Whether or not stacking a store succeeds, and whatever its compression, the documents of the
/// target are kept, and sound stores lead to a sound store. If it succeeds, there are as many
/// documents as in both.
pub proof fn lemma_stacking_keeps_target(
    target: StoreContents,
    source: StoreContents,
    renames: Option<Map<u32, u32>>,
)
    requires
        target.layout.wf(),
        source.layout.wf(),
        stacking_is_refused(target.version, source.version, renames) || target.layout.num_docs()
            + source.layout.num_docs() <= u32::MAX,
        target.layout.data.len() <= usize::MAX,
        stack_outcome(target, source, renames).layout.data.len() <= usize::MAX,
    ensures
        ({
            let stacked = stack_outcome(target, source, renames);
            let result = stacked_contents(target, stacked);
            &&& result.layout.wf()
            &&& target.layout.num_docs() <= result.layout.num_docs()
            &&& stacked.error is None ==> result.layout.num_docs() == target.layout.num_docs()
                + source.layout.num_docs()
            &&& forall|doc: u32|
                doc < target.layout.num_docs() ==> #[trigger] result.doc(doc) == target.doc(doc)
            &&& target.sound() && source.sound() ==> result.sound()
        }),
{
    let result = stacked_contents(target, stack_outcome(target, source, renames));
    if source.version.spec_number() >= 3 && target.version.spec_number() >= 3 && renames is None {
        let alike = StoreContents { decompressor: target.decompressor, ..source };
        assert(source.version == target.version);
        lemma_bytes_follow(result, target, alike);
        lemma_docs_follow(result, target, alike, |map: Map<u32, u32>| map);
        if source.sound() {
            assert forall|i: int| 0 <= i < alike.layout.checkpoints.len() implies alike.has_payload(
                #[trigger] alike.layout.checkpoints[i],
            ) by {
                assert(source.has_payload(source.layout.checkpoints[i]));
            }
        }
    } else if source.version.spec_number() >= 2 && (renames is None || target.version.spec_number()
        >= 3) {
        lemma_copying_keeps_target(target, source, renames, source.layout.checkpoints.len());
    }
}

/// Stacking a store keeps every document, those of the source behind those of the target. A
/// block keeps its field-id remap where both formats have remaps; else its remap is empty
/// afterwards. Sound stores lead to a sound store, in which documents stay readable, and valid ones
/// to a valid one.
pub proof fn lemma_stack_keeps_docs(target: StoreContents, source: StoreContents)
    requires
        target.layout.wf(),
        source.layout.wf(),
        target.decompressor == source.decompressor,
        target.layout.num_docs() + source.layout.num_docs() <= u32::MAX,
        ({
            let stacked = crate::store::store_compressor::stack_result(
                target.layout,
                target.version,
                source,
            );
            &&& stacked.error is None
            &&& stacked.layout.data.len() <= usize::MAX
        }),
    ensures
        ({
            let result = stacked_contents(
                target,
                crate::store::store_compressor::stack_result(
                    target.layout,
                    target.version,
                    source,
                ),
            );
            &&& result.layout.wf()
            &&& result.layout.num_docs() == target.layout.num_docs() + source.layout.num_docs()
            &&& forall|doc: u32|
                doc < target.layout.num_docs() ==> #[trigger] result.doc(doc) == target.doc(doc)
            &&& forall|doc: u32|
                doc < source.layout.num_docs() ==> result.doc(
                    (target.layout.num_docs() + doc) as u32,
                ) == doc_with_map(
                    #[trigger] source.doc(doc),
                    map_after_stacking(target.version, source.version),
                )
            &&& target.sound() && source.sound() ==> forall|doc: u32|
                doc < target.layout.num_docs() ==> #[trigger] result.doc_readable(doc)
                    == target.doc_readable(doc)
            &&& target.sound() && source.sound() ==> forall|doc: u32|
                doc < source.layout.num_docs() ==> result.doc_readable(
                    (target.layout.num_docs() + doc) as u32,
                ) == #[trigger] source.doc_readable(doc)
            &&& target.sound() && source.sound() ==> result.sound()
            &&& target.valid() && source.valid() ==> result.valid()
        }),
{
    let result = stacked_contents(
        target,
        crate::store::store_compressor::stack_result(target.layout, target.version, source),
    );
    let changed = map_after_stacking(target.version, source.version);
    if source.version.spec_number() >= 3 && target.version.spec_number() >= 3 {
        assert(source.version == target.version);
        lemma_bytes_follow(result, target, source);
    } else {
        lemma_blocks_follow(
            result,
            target,
            source,
            None,
            source.layout.checkpoints.len(),
            changed,
        );
    }
    lemma_docs_follow(result, target, source, changed);
    if target.sound() && source.sound() {
        lemma_readable_follows(result, target, source, changed);
    }
}

/// Stacking a store with renamed fields keeps the bytes of every document, those of the source
/// behind those of the target, and composes the renaming with the remap of each block: a field
/// is looked up in the remap of the source first and in `renames` then. Sound stores
/// lead to a sound store, in which documents stay readable, and valid ones to a valid one.
pub proof fn lemma_stack_with_remap_renames(
    target: StoreContents,
    source: StoreContents,
    renames: Map<u32, u32>,
)
    requires
        target.layout.wf(),
        source.layout.wf(),
        target.decompressor == source.decompressor,
        target.layout.num_docs() + source.layout.num_docs() <= u32::MAX,
        ({
            let stacked = crate::store::store_compressor::stack_with_remap_result(
                target.layout,
                target.version,
                source,
                renames,
            );
            &&& stacked.error is None
            &&& stacked.layout.data.len() <= usize::MAX
        }),
    ensures
        ({
            let result = stacked_contents(
                target,
                crate::store::store_compressor::stack_with_remap_result(
                    target.layout,
                    target.version,
                    source,
                    renames,
                ),
            );
            &&& result.layout.wf()
            &&& result.layout.num_docs() == target.layout.num_docs() + source.layout.num_docs()
            &&& forall|doc: u32|
                doc < target.layout.num_docs() ==> #[trigger] result.doc(doc) == target.doc(doc)
            &&& forall|doc: u32|
                doc < source.layout.num_docs() ==> result.doc(
                    (target.layout.num_docs() + doc) as u32,
                ) == doc_with_map(#[trigger] source.doc(doc), map_after_renaming(renames))
            &&& target.sound() && source.sound() ==> forall|doc: u32|
                doc < target.layout.num_docs() ==> #[trigger] result.doc_readable(doc)
                    == target.doc_readable(doc)
            &&& target.sound() && source.sound() ==> forall|doc: u32|
                doc < source.layout.num_docs() ==> result.doc_readable(
                    (target.layout.num_docs() + doc) as u32,
                ) == #[trigger] source.doc_readable(doc)
            &&& target.sound() && source.sound() ==> result.sound()
            &&& target.valid() && source.valid() ==> result.valid()
        }),
        forall|map: Map<u32, u32>, field: u32|
            crate::store::block_trailer::lookup_in(
                #[trigger] map_after_renaming(renames)(map),
                field,
            ) == crate::store::block_trailer::lookup_in(
                renames,
                #[trigger] crate::store::block_trailer::lookup_in(map, field),
            ),
{
    let result = stacked_contents(
        target,
        crate::store::store_compressor::stack_with_remap_result(
            target.layout,
            target.version,
            source,
            renames,
        ),
    );
    let changed = map_after_renaming(renames);
    lemma_blocks_follow(
        result,
        target,
        source,
        Some(renames),
        source.layout.checkpoints.len(),
        changed,
    );
    lemma_docs_follow(result, target, source, changed);
    if target.sound() && source.sound() {
        lemma_readable_follows(result, target, source, changed);
    }
    assert forall|map: Map<u32, u32>, field: u32|
        crate::store::block_trailer::lookup_in(#[trigger] changed(map), field)
            == crate::store::block_trailer::lookup_in(
            renames,
            #[trigger] crate::store::block_trailer::lookup_in(map, field),
        ) by {
        crate::store::block_trailer::lemma_composed_lookup(map, renames, field);
    }
}

/// All documents of a valid store are readable.
pub proof fn lemma_valid_is_readable(contents: StoreContents, alive: Option<Seq<bool>>)
    requires
        contents.valid(),
    ensures
        forall|doc: u32| #[trigger] contents.doc_readable(doc),
        contents.docs_readable(alive),
{
    assert forall|doc: u32| #[trigger] contents.doc_readable(doc) by {
        if doc < contents.layout.num_docs() {
            let index = lemma_has_block(contents.layout, doc);
            lemma_doc_at(contents, index, doc);
            lemma_sound_is_unambiguous(contents, index);
            assert(contents.load(contents.layout.checkpoints[index]) matches Ok((data, _))
                ==> crate::store::contents::is_readable_block(data));
        }
    }
}

/// A block in format `V3` is the block in format `V2` with four bytes behind it.
pub proof fn lemma_v3_adds_four_bytes(payload: Seq<u8>)
    ensures
        ({
            let without_trailer = crate::store::store_compressor::written_block(
                DocStoreVersion::V2,
                payload,
            );
            let with_trailer = crate::store::store_compressor::written_block(
                DocStoreVersion::V3,
                payload,
            );
            &&& with_trailer.len() == without_trailer.len() + 4
            &&& with_trailer.take(without_trailer.len() as int) == without_trailer
        }),
{
    let without_trailer = crate::store::store_compressor::written_block(
        DocStoreVersion::V2,
        payload,
    );
    let with_trailer = crate::store::store_compressor::written_block(DocStoreVersion::V3, payload);
    crate::store::store_compressor::lemma_empty_trailer_fits();
    assert(with_trailer.take(without_trailer.len() as int) =~= without_trailer);
}

/// Where no block may rename fields, no document that can be read has renamed fields.
pub proof fn lemma_nothing_renamed(contents: StoreContents, doc: u32)
    requires
        contents.layout.wf(),
        !contents.may_rename_fields(),
    ensures
        contents.doc(doc) matches Ok((_, map)) ==> crate::store::block_trailer::is_identity_map(map),
{
    if doc < contents.layout.num_docs() {
        let index = lemma_has_block(contents.layout, doc);
        lemma_doc_at(contents, index, doc);
        let checkpoint = contents.layout.checkpoints[index];
        assert(contents.layout.checkpoints[index] == checkpoint);
    }
}

/// The number of documents below `end` that are alive.
pub open spec fn num_alive(alive: Option<Seq<bool>>, end: nat) -> nat
    decreases end,
{
    if end == 0 {
        0
    } else {
        num_alive(alive, (end - 1) as nat) + (if crate::store::contents::is_alive(
            alive,
            (end - 1) as u32,
        ) {
            1nat
        } else {
            0nat
        })
    }
}

/// A listing of a store has one item for each document that is alive, in their order. The item is
/// what reading the document gives; where its block cannot be loaded, both give an error, of which
/// the listing keeps the class.
pub proof fn lemma_listing(contents: StoreContents, alive: Option<Seq<bool>>, end: nat)
    requires
        end <= contents.layout.num_docs(),
    ensures
        contents.listed(alive, end).len() == num_alive(alive, end),
        forall|doc: u32|
            doc < end && #[trigger] crate::store::contents::is_alive(alive, doc) ==> {
                let position = num_alive(alive, doc as nat);
                &&& position < num_alive(alive, end)
                &&& match contents.load(contents.checkpoint_of(doc)) {
                    Ok(_) => contents.listed(alive, end)[position as int] == contents.doc(doc),
                    Err(error) => {
                        &&& contents.doc(doc) == Err::<(Seq<u8>, Map<u32, u32>), TantivyError>(
                            TantivyError::IoError(error),
                        )
                        &&& contents.listed(alive, end)[position as int] == Err::<
                            (Seq<u8>, Map<u32, u32>),
                            TantivyError,
                        >(TantivyError::BlockRead(error.spec_kind()))
                    },
                }
            },
    decreases end,
{
    if end > 0 {
        lemma_listing(contents, alive, (end - 1) as nat);
    }
}

} // verus!
