//! What holds of documents, from the bytes that are stored to those that are read, copied and
//! listed.

use vstd::prelude::*;

use crate::error::{ErrorKind, StoreError, TantivyError};
use crate::schema::FieldView;
use crate::store::alive::AliveBitSet;
use crate::store::block_cache::CacheState;
use crate::store::block_trailer::BlockFieldRemap;
use crate::store::codec::{Compressor, Decompressor};
use crate::store::contents::StoreContents;
use crate::store::reader::StoredDocument;
use crate::store::version::DocStoreVersion;
use crate::store::writer::WriterState;

verus! {

/// The documents below `end` whose bit is set.
spec fn set_bits(alive_bitset: Option<&AliveBitSet>, end: u32) -> Set<u32> {
    Set::new(|doc: u32| doc < end && (alive_bitset matches Some(bits) ==> bits@[doc as int]))
}

proof fn lemma_set_bits(contents: StoreContents, alive_bitset: Option<&AliveBitSet>, end: u32)
    requires
        end <= contents.layout.num_docs(),
    ensures
        set_bits(alive_bitset, end).finite(),
        contents.listed(crate::store::reader::alive_view(alive_bitset), end as nat).len()
            == set_bits(alive_bitset, end).len(),
    decreases end,
{
    if end == 0 {
        assert(set_bits(alive_bitset, 0) =~= Set::empty());
    } else {
        let last = (end - 1) as u32;
        lemma_set_bits(contents, alive_bitset, last);
        if alive_bitset matches Some(bits) ==> bits@[last as int] {
            assert(set_bits(alive_bitset, end) =~= set_bits(alive_bitset, last).insert(last));
        } else {
            assert(set_bits(alive_bitset, end) =~= set_bits(alive_bitset, last));
        }
    }
}

/// A listing has as many items as there are documents whose bit is set, or as there are documents
/// if there is no bit set. The item of a document whose bit is set is at the position given by the
/// number of set bits below it, so that no other document is listed. It is what reading the
/// document gives; where its block cannot be loaded, both give an error.
pub proof fn lemma_deleted_documents_are_not_listed(
    contents: StoreContents,
    alive_bitset: Option<&AliveBitSet>,
    doc: u32,
)
    ensures
        ({
            let listed = contents.listed(
                crate::store::reader::alive_view(alive_bitset),
                contents.layout.num_docs() as nat,
            );
            let num_docs = contents.layout.num_docs();
            &&& alive_bitset is None ==> listed.len() == num_docs
            &&& alive_bitset matches Some(bits) ==> listed.len() == Set::new(
                |other: u32| other < num_docs && bits@[other as int],
            ).len()
            &&& doc < num_docs && (alive_bitset matches Some(bits) ==> bits@[doc as int]) ==> {
                let position = match alive_bitset {
                    Some(bits) => Set::new(
                        |other: u32| other < doc && bits@[other as int],
                    ).len() as int,
                    None => doc as int,
                };
                &&& position < listed.len()
                &&& contents.doc(doc) is Ok ==> listed[position] == contents.doc(doc)
                &&& contents.doc(doc) is Err ==> listed[position] is Err
                &&& contents.load(contents.checkpoint_of(doc)) is Ok ==> listed[position]
                    == contents.doc(doc)
            }
        }),
{
    let num_docs = contents.layout.num_docs();
    let alive = crate::store::reader::alive_view(alive_bitset);
    lemma_set_bits(contents, alive_bitset, num_docs);
    crate::store::laws::lemma_listing(contents, alive, num_docs as nat);
    if let Some(bits) = alive_bitset {
        assert(set_bits(alive_bitset, num_docs) =~= Set::new(
            |other: u32| other < num_docs && bits@[other as int],
        ));
        assert(set_bits(alive_bitset, doc) =~= Set::new(
            |other: u32| other < doc && bits@[other as int],
        ));
    } else {
        lemma_all_below(num_docs);
        lemma_all_below(doc);
        assert(set_bits(alive_bitset, num_docs) =~= Set::new(|other: u32| other < num_docs));
        assert(set_bits(alive_bitset, doc) =~= Set::new(|other: u32| other < doc));
    }
    if doc < num_docs && (alive_bitset matches Some(bits) ==> bits@[doc as int]) {
        lemma_set_bits(contents, alive_bitset, doc);
        crate::store::laws::lemma_listing(contents, alive, doc as nat);
        assert(crate::store::contents::is_alive(alive, doc));
    }
}

proof fn lemma_all_below(end: u32)
    ensures
        Set::new(|doc: u32| doc < end).finite(),
        Set::new(|doc: u32| doc < end).len() == end,
    decreases end,
{
    let all = Set::new(|doc: u32| doc < end);
    if end == 0 {
        assert(all =~= Set::empty());
    } else {
        let last = (end - 1) as u32;
        lemma_all_below(last);
        assert(all =~= Set::new(|doc: u32| doc < last).insert(last));
    }
}

/// A listing is refused only because of a document whose bit is set.
pub proof fn lemma_deleted_documents_need_not_be_readable(
    contents: StoreContents,
    alive_bitset: Option<&AliveBitSet>,
)
    ensures
        contents.docs_readable(crate::store::reader::alive_view(alive_bitset)) <==> forall|doc: u32|
            doc < contents.layout.num_docs() && (alive_bitset matches Some(bits)
                ==> bits@[doc as int]) ==> #[trigger] contents.doc_readable(doc),
{
    let alive = crate::store::reader::alive_view(alive_bitset);
    if contents.docs_readable(alive) {
        assert forall|doc: u32|
            doc < contents.layout.num_docs() && (alive_bitset matches Some(bits)
                ==> bits@[doc as int]) implies #[trigger] contents.doc_readable(doc) by {
            assert(crate::store::contents::is_alive(alive, doc));
        }
    }
    if forall|doc: u32|
        doc < contents.layout.num_docs() && (alive_bitset matches Some(bits) ==> bits@[doc as int])
            ==> #[trigger] contents.doc_readable(doc) {
        assert forall|doc: u32|
            doc < contents.layout.num_docs() && crate::store::contents::is_alive(
                alive,
                doc,
            ) implies #[trigger] contents.doc_readable(doc) by {}
    }
}

/// Items of a listing are what they stand for, one by one: bytes and remaps that were read, or the
/// error.
pub proof fn lemma_listed_items(
    results: Seq<Result<(Vec<u8>, std::sync::Arc<BlockFieldRemap>), TantivyError>>,
    index: int,
)
    requires
        0 <= index < results.len(),
    ensures
        crate::store::reader::raw_views(results).len() == results.len(),
        results[index] matches Ok((bytes, remap)) ==> crate::store::reader::raw_views(results)[index]
            == Ok::<(Seq<u8>, Map<u32, u32>), TantivyError>((bytes@, remap@)),
        results[index] matches Err(error) ==> crate::store::reader::raw_views(results)[index]
            == Err::<(Seq<u8>, Map<u32, u32>), TantivyError>(error),
{
}

/// The bytes of a listing are those of the documents, item by item.
pub proof fn lemma_listed_bytes(
    documents: Seq<Result<Vec<u8>, TantivyError>>,
    listed: Seq<Result<(Seq<u8>, Map<u32, u32>), TantivyError>>,
    index: int,
)
    requires
        crate::store::reader::are_doc_bytes(documents, listed),
        0 <= index < listed.len(),
    ensures
        documents.len() == listed.len(),
        listed[index] matches Ok((bytes, _)) ==> (documents[index] matches Ok(document) && document@
            == bytes),
        listed[index] matches Err(error) ==> documents[index] == Err::<Vec<u8>, TantivyError>(error),
{
    assert(crate::store::reader::bytes_view(documents[index])
        == crate::store::reader::without_remap(listed[index]));
}

/// A document that was read has the bytes that are stored, and looking a field up with what comes
/// with it is looking it up in the remap of its block.
pub proof fn lemma_read_document_is_the_stored_one(
    result: Result<StoredDocument, TantivyError>,
    version: DocStoreVersion,
    stored: Result<(Seq<u8>, Map<u32, u32>), TantivyError>,
    field: u32,
)
    requires
        crate::store::reader::is_stored_doc(result, version, stored),
    ensures
        stored matches Ok((bytes, map)) ==> (result matches Ok(document) && {
            &&& document.bytes@ == bytes
            &&& document.doc_store_version == version
            &&& (match document.remap {
                Some(remap) => crate::store::block_trailer::lookup_in(remap@, field),
                None => field,
            }) == (if map.contains_key(field) {
                map[field]
            } else {
                field
            })
        }),
        stored matches Err(error) ==> result == Err::<StoredDocument, TantivyError>(error),
{
}

/// The same of all documents of a listing.
pub proof fn lemma_listed_documents(
    documents: Seq<Result<StoredDocument, TantivyError>>,
    version: DocStoreVersion,
    listed: Seq<Result<(Seq<u8>, Map<u32, u32>), TantivyError>>,
    index: int,
)
    requires
        crate::store::reader::are_stored_docs(documents, version, listed),
        0 <= index < listed.len(),
    ensures
        documents.len() == listed.len(),
        listed[index] matches Ok((bytes, map)) ==> (documents[index] matches Ok(document)
            && document.bytes@ == bytes && document.doc_store_version == version
            && document.renames() == map),
        listed[index] matches Err(error) ==> documents[index] == Err::<StoredDocument, TantivyError>(
            error,
        ),
{
    assert(crate::store::reader::is_stored_doc(documents[index], version, listed[index]));
}

/// A remap is identity exactly if looking any field up in it gives that field back: each entry maps
/// a field to itself, and a field without entry stays as it is.
pub proof fn lemma_identity_renames_nothing(map: Map<u32, u32>)
    ensures
        crate::store::block_trailer::is_identity_map(map) <==> forall|field: u32|
            map.dom().contains(field) ==> #[trigger] map[field] == field,
        crate::store::block_trailer::is_identity_map(map) <==> forall|field: u32| #[trigger]
            crate::store::block_trailer::lookup_in(map, field) == field,
{
    if forall|field: u32| map.dom().contains(field) ==> #[trigger] map[field] == field {
        assert forall|field: u32| #[trigger] map.contains_key(field) implies map[field] == field by {
            assert(map.dom().contains(field));
        }
    }
    if forall|field: u32| #[trigger]
        crate::store::block_trailer::lookup_in(map, field) == field {
        assert forall|field: u32| #[trigger] map.contains_key(field) implies map[field] == field by {
            assert(crate::store::block_trailer::lookup_in(map, field) == field);
        }
    }
    if crate::store::block_trailer::is_identity_map(map) {
        assert forall|field: u32| map.dom().contains(field) implies #[trigger] map[field]
            == field by {
            assert(map.contains_key(field));
        }
    }
}

/// Looking a field up gives its target, or the field itself where it has none; and so it does in
/// both of two remaps that are composed, one after the other.
pub proof fn lemma_lookups(map: Map<u32, u32>, outer: Map<u32, u32>, field: u32)
    ensures
        map.contains_key(field) ==> crate::store::block_trailer::lookup_in(map, field)
            == map[field],
        !map.contains_key(field) ==> crate::store::block_trailer::lookup_in(map, field) == field,
        ({
            let inner = if map.contains_key(field) {
                map[field]
            } else {
                field
            };
            let composed = crate::store::block_trailer::composed_map(map, outer);
            (if composed.contains_key(field) {
                composed[field]
            } else {
                field
            }) == (if outer.contains_key(inner) {
                outer[inner]
            } else {
                inner
            })
        }),
{
    crate::store::block_trailer::lemma_composed_lookup(map, outer, field);
}

/// A remap that is built from pairs maps each field as its last pair says.
pub proof fn lemma_last_pair_counts(pairs: Seq<(u32, u32)>, index: int)
    requires
        0 <= index < pairs.len(),
        forall|later: int|
            index < later < pairs.len() ==> (#[trigger] pairs[later]).0 != pairs[index].0,
    ensures
        crate::store::block_trailer::map_of_pairs(pairs).contains_key(pairs[index].0),
        crate::store::block_trailer::map_of_pairs(pairs)[pairs[index].0] == pairs[index].1,
    decreases pairs.len(),
{
    let rest = pairs.drop_last();
    if index < rest.len() {
        assert forall|later: int| index < later < rest.len() implies (#[trigger] rest[later]).0
            != rest[index].0 by {
            assert(pairs[later].0 != pairs[index].0);
        }
        lemma_last_pair_counts(rest, index);
        assert(pairs[pairs.len() - 1].0 != pairs[index].0);
    }
}

/// And it maps no other field.
pub proof fn lemma_only_pairs_count(pairs: Seq<(u32, u32)>, field: u32)
    requires
        forall|i: int| 0 <= i < pairs.len() ==> (#[trigger] pairs[i]).0 != field,
    ensures
        !crate::store::block_trailer::map_of_pairs(pairs).contains_key(field),
    decreases pairs.len(),
{
    if pairs.len() > 0 {
        let rest = pairs.drop_last();
        assert forall|i: int| 0 <= i < rest.len() implies (#[trigger] rest[i]).0 != field by {
            assert(pairs[i].0 != field);
        }
        lemma_only_pairs_count(rest, field);
        assert(pairs[pairs.len() - 1].0 != field);
    }
}

/// Where no block may rename fields, every field of a document that can be read is looked up as
/// itself. Where some block may, its trailer is unreadable or maps some field to another one.
pub proof fn lemma_precheck_finds_renamed_fields(contents: StoreContents, doc: u32)
    requires
        contents.layout.wf(),
    ensures
        !contents.may_rename_fields() ==> (contents.doc(doc) matches Ok((_, map)) ==> forall|
            field: u32,
        |
            map.dom().contains(field) ==> #[trigger] map[field] == field),
        contents.may_rename_fields() ==> contents.version == DocStoreVersion::V3 && exists|i: int|
            0 <= i < contents.layout.checkpoints.len() && (
            crate::store::contents::split_block(
                contents.version,
                contents.block_at(#[trigger] contents.layout.checkpoints[i]),
            ) matches Ok((_, map)) ==> exists|field: u32|
                map.dom().contains(field) && #[trigger] map[field] != field),
{
    if !contents.may_rename_fields() {
        crate::store::laws::lemma_nothing_renamed(contents, doc);
        if let Ok((_, map)) = contents.doc(doc) {
            lemma_identity_renames_nothing(map);
        }
    } else {
        let i = choose|i: int|
            0 <= i < contents.layout.checkpoints.len() && match crate::store::contents::split_block(
                contents.version,
                contents.block_at(#[trigger] contents.layout.checkpoints[i]),
            ) {
                Ok((_, map)) => !crate::store::block_trailer::is_identity_map(map),
                Err(_) => true,
            };
        assert(contents.layout.checkpoints[i] == contents.layout.checkpoints[i]);
        if let Ok((_, map)) = crate::store::contents::split_block(
            contents.version,
            contents.block_at(contents.layout.checkpoints[i]),
        ) {
            lemma_identity_renames_nothing(map);
        }
    }
}

/// A document is copied as it is only if no field of it is renamed. Else each field that was
/// decoded is encoded again under the name that its remap gives it, with its value, and all of
/// these are stored fields of the schema; a field that is not is an error.
pub proof fn lemma_translation_renames_every_field<V, Dec, Enc>(
    result: Result<Vec<u8>, TantivyError>,
    bytes: Seq<u8>,
    map: Map<u32, u32>,
    version: DocStoreVersion,
    schema: Seq<FieldView>,
    decode: Dec,
    encode: Enc,
) where
    Dec: Fn(Vec<u8>, DocStoreVersion) -> Result<Vec<(u32, V)>, TantivyError>,
    Enc: Fn(Vec<(u32, V)>) -> Result<Vec<u8>, TantivyError>,

    requires
        crate::store::reader::is_translation(
            result,
            Ok((bytes, map)),
            version,
            schema,
            decode,
            encode,
        ),
    ensures
        (forall|field: u32| map.dom().contains(field) ==> #[trigger] map[field] == field) ==> (
        result matches Ok(copied) && copied@ == bytes),
        (exists|field: u32| map.dom().contains(field) && #[trigger] map[field] != field) && result is Ok
            ==> exists|stored: Vec<u8>, fields: Vec<(u32, V)>, renamed: Vec<(u32, V)>| #[trigger]
            call_ensures(
                decode,
                (stored, version),
                Ok::<Vec<(u32, V)>, TantivyError>(fields),
            ) && #[trigger] call_ensures(encode, (renamed,), result) && stored@ == bytes
                && renamed@.len() == fields@.len() && forall|i: int|
                0 <= i < fields@.len() ==> {
                    let field = fields@[i].0;
                    &&& (#[trigger] renamed@[i]).1 == fields@[i].1
                    &&& renamed@[i].0 == (if map.contains_key(field) {
                        map[field]
                    } else {
                        field
                    })
                    &&& renamed@[i].0 < schema.len()
                    &&& schema[renamed@[i].0 as int].field_type.is_stored()
                },
{
    lemma_identity_renames_nothing(map);
    if (exists|field: u32| map.dom().contains(field) && #[trigger] map[field] != field) && result is Ok {
        let (stored, decoded) = choose|
            stored: Vec<u8>,
            decoded: Result<Vec<(u32, V)>, TantivyError>,
        |
            stored@ == bytes && #[trigger] call_ensures(decode, (stored, version), decoded)
                && match decoded {
                Err(error) => result == Err::<Vec<u8>, TantivyError>(error),
                Ok(fields) => crate::store::reader::is_reencoded(
                    result,
                    fields@,
                    map,
                    schema,
                    encode,
                ),
            };
        let fields = decoded->Ok_0;
        let renamed = choose|renamed: Vec<(u32, V)>|
            renamed@ == crate::store::translate::renamed_fields(fields@, map)
                && #[trigger] call_ensures(encode, (renamed,), result);
        lemma_flaw_of_fields(schema, map, fields@);
        assert(call_ensures(
            decode,
            (stored, version),
            Ok::<Vec<(u32, V)>, TantivyError>(fields),
        ));
        assert forall|i: int| 0 <= i < fields@.len() implies {
            let field = fields@[i].0;
            &&& (#[trigger] renamed@[i]).1 == fields@[i].1
            &&& renamed@[i].0 == (if map.contains_key(field) {
                map[field]
            } else {
                field
            })
            &&& renamed@[i].0 < schema.len()
            &&& schema[renamed@[i].0 as int].field_type.is_stored()
        } by {
            assert(fields@[i] == fields@[i]);
        }
    }
}

/// A document can have the renamed fields exactly if each of them is in the schema and stored there.
pub proof fn lemma_flaw_of_fields<V>(
    schema: Seq<FieldView>,
    renames: Map<u32, u32>,
    fields: Seq<(u32, V)>,
)
    ensures
        crate::store::translate::fields_flaw(schema, renames, fields) is None <==> forall|i: int|
            0 <= i < fields.len() ==> {
                let field = (#[trigger] fields[i]).0;
                let target = if renames.contains_key(field) {
                    renames[field]
                } else {
                    field
                };
                target < schema.len() && schema[target as int].field_type.is_stored()
            },
        crate::store::translate::fields_flaw(schema, renames, fields) matches Some(error)
            ==> error is FieldOutOfRange || error is FieldNotStored,
    decreases fields.len(),
{
    if fields.len() > 0 {
        let rest = fields.drop_last();
        lemma_flaw_of_fields(schema, renames, rest);
        let last = fields.len() - 1;
        if crate::store::translate::fields_flaw(schema, renames, fields) is None {
            assert forall|i: int| 0 <= i < fields.len() implies {
                let field = (#[trigger] fields[i]).0;
                let target = if renames.contains_key(field) {
                    renames[field]
                } else {
                    field
                };
                target < schema.len() && schema[target as int].field_type.is_stored()
            } by {
                if i < last {
                    assert(rest[i] == fields[i]);
                }
            }
        } else if crate::store::translate::fields_flaw(schema, renames, rest) is Some {
            let i = choose|i: int|
                0 <= i < rest.len() && !({
                    let field = (#[trigger] rest[i]).0;
                    let target = if renames.contains_key(field) {
                        renames[field]
                    } else {
                        field
                    };
                    target < schema.len() && schema[target as int].field_type.is_stored()
                });
            assert(fields[i] == rest[i]);
        } else {
            assert(fields[last] == fields.last());
        }
    }
}

/// Asking a cache for a block counts one hit if the block is there and one miss if not. A block
/// that is there or loads is the most recently used one afterwards, no other block is added, and
/// only the least recently used one may have to go, when there is no more room.
pub proof fn lemma_cache_keeps_recent_blocks(cache: CacheState, key: usize, loads: bool)
    requires
        cache.keys.no_duplicates(),
        cache.keys.len() <= cache.capacity,
        cache.hits < usize::MAX,
        cache.misses < usize::MAX,
    ensures
        ({
            let after = cache.after_read(key, loads);
            &&& after.capacity == cache.capacity
            &&& after.keys.len() <= after.capacity
            &&& cache.keys.contains(key) ==> after.hits == cache.hits + 1 && after.misses
                == cache.misses
            &&& !cache.keys.contains(key) ==> after.misses == cache.misses + 1 && after.hits
                == cache.hits
            &&& (cache.keys.contains(key) || (loads && cache.capacity > 0)) ==> after.keys.len() > 0
                && after.keys.last() == key
            &&& !cache.keys.contains(key) && !loads ==> after.keys == cache.keys
            &&& forall|other: usize|
                other != key && #[trigger] after.keys.contains(other) ==> cache.keys.contains(other)
            &&& forall|other: usize|
                other != key && #[trigger] cache.keys.contains(other) && !after.keys.contains(other)
                    ==> {
                    &&& cache.keys[0] == other
                    &&& cache.keys.len() == cache.capacity
                    &&& !cache.keys.contains(key)
                }
        }),
{
    let after = cache.after_read(key, loads);
    if cache.keys.contains(key) {
        let found = cache.keys.index_of(key);
        assert(0 <= found < cache.keys.len() && cache.keys[found] == key);
        assert(after.keys.len() == cache.keys.len());
        assert(after.keys.last() == key);
    }
    if !cache.keys.contains(key) && !loads {
        assert(after.keys =~= cache.keys);
    }
    assert forall|other: usize|
        other != key && #[trigger] after.keys.contains(other) implies cache.keys.contains(other) by {
        let k = choose|k: int| 0 <= k < after.keys.len() && after.keys[k] == other;
        if cache.keys.contains(key) {
            let found = cache.keys.index_of(key);
            assert(k < after.keys.len() - 1);
            let from = if k < found { k } else { k + 1 };
            assert(cache.keys[from] == other);
        } else if loads && cache.capacity > 0 {
            assert(k < after.keys.len() - 1);
            let from = if cache.keys.len() == cache.capacity { k + 1 } else { k };
            assert(cache.keys[from] == other);
        }
    }
    assert forall|other: usize|
        other != key && #[trigger] cache.keys.contains(other) && !after.keys.contains(
            other,
        ) implies {
        &&& cache.keys[0] == other
        &&& cache.keys.len() == cache.capacity
        &&& !cache.keys.contains(key)
    } by {
        let k = cache.keys.index_of(other);
        assert(cache.keys[k] == other);
        if cache.keys.contains(key) {
            let found = cache.keys.index_of(key);
            let to = if k < found { k } else { k - 1 };
            assert(after.keys[to] == other);
        } else if loads && cache.capacity > 0 {
            if cache.keys.len() == cache.capacity {
                if k > 0 {
                    assert(after.keys[k - 1] == other);
                }
            } else {
                assert(after.keys[k] == other);
            }
        }
    }
}

/// Documents that are kept are the same documents under the same numbers.
pub proof fn lemma_kept_documents(before: WriterState, after: WriterState, doc: u32)
    requires
        before.kept_in(after),
        doc < before.num_docs(),
    ensures
        before.num_docs() <= after.num_docs(),
        after.doc(doc) == before.doc(doc),
        before.num_docs() == before.contents.layout.num_docs() + before.pending.len(),
{
}

/// What is written and not in a block yet is read as it was written; the rest is read from the
/// store.
pub proof fn lemma_documents_of_a_writer(state: WriterState, doc: u32)
    requires
        state.contents.layout.num_docs() + state.pending.len() <= u32::MAX,
    ensures
        doc < state.contents.layout.num_docs() ==> state.doc(doc) == state.contents.doc(doc),
        state.contents.layout.num_docs() <= doc < state.contents.layout.num_docs()
            + state.pending.len() ==> state.doc(doc) == Ok::<
            (Seq<u8>, Map<u32, u32>),
            TantivyError,
        >((state.pending[doc - state.contents.layout.num_docs()], Map::empty())),
{
}

/// Documents that follow are those of the source, byte by byte, one behind the other.
pub proof fn lemma_following_documents(
    before: WriterState,
    after: WriterState,
    source: StoreContents,
    changed: spec_fn(Map<u32, u32>) -> Map<u32, u32>,
    doc: u32,
)
    requires
        before.followed_in(after, source, changed),
        doc < source.layout.num_docs(),
    ensures
        source.doc(doc) matches Ok((bytes, map)) ==> after.doc((before.num_docs() + doc) as u32)
            == Ok::<(Seq<u8>, Map<u32, u32>), TantivyError>((bytes, changed(map))),
        source.doc(doc) matches Err(error) ==> after.doc((before.num_docs() + doc) as u32) == Err::<
            (Seq<u8>, Map<u32, u32>),
            TantivyError,
        >(error),
{
    assert(source.doc(doc) == source.doc(doc));
}

/// Stacking without renaming keeps every lookup where both stores have remaps. Stacking with
/// renaming looks a field up in the remap of its block first, and in that of the caller then.
pub proof fn lemma_lookups_after_stacking(map: Map<u32, u32>, renames: Map<u32, u32>, field: u32)
    ensures
        crate::store::laws::map_after_stacking(DocStoreVersion::V3, DocStoreVersion::V3)(map)
            == map,
        crate::store::laws::map_after_stacking(DocStoreVersion::V3, DocStoreVersion::V2)(map)
            == Map::<u32, u32>::empty(),
        crate::store::laws::map_after_stacking(DocStoreVersion::V2, DocStoreVersion::V2)(map)
            == Map::<u32, u32>::empty(),
        crate::store::laws::map_after_stacking(DocStoreVersion::V2, DocStoreVersion::V3)(map)
            == Map::<u32, u32>::empty(),
        crate::store::block_trailer::lookup_in(
            crate::store::laws::map_after_renaming(renames)(map),
            field,
        ) == ({
            let inner = if map.contains_key(field) {
                map[field]
            } else {
                field
            };
            if renames.contains_key(inner) {
                renames[inner]
            } else {
                inner
            }
        }),
{
    crate::store::block_trailer::lemma_composed_lookup(map, renames, field);
}

/// Stores in the oldest format are not stacked, and fields are not renamed in a target that has no
/// place for it; then the target stays as it is. Between stores of the newest format all bytes are
/// copied at once.
pub proof fn lemma_which_stores_are_stacked(
    target: StoreContents,
    source: StoreContents,
    renames: Map<u32, u32>,
)
    ensures
        source.version == DocStoreVersion::V1 ==> {
            let stacked = crate::store::laws::stack_outcome(target, source, None);
            &&& stacked.error == Some(StoreError::SourceTooOld { number: 1 })
            &&& stacked.layout == target.layout
        },
        target.version != DocStoreVersion::V3 ==> {
            let stacked = crate::store::laws::stack_outcome(target, source, Some(renames));
            &&& stacked.error matches Some(StoreError::TargetTooOld { .. })
            &&& stacked.layout == target.layout
        },
        target.version == DocStoreVersion::V3 && source.version == DocStoreVersion::V1 ==> {
            let stacked = crate::store::laws::stack_outcome(target, source, Some(renames));
            &&& stacked.error == Some(StoreError::SourceTooOld { number: 1 })
            &&& stacked.layout == target.layout
        },
        target.version == DocStoreVersion::V3 && source.version == DocStoreVersion::V3 ==> {
            let stacked = crate::store::laws::stack_outcome(target, source, None);
            &&& stacked.error is None
            &&& stacked.layout.data == target.layout.data + source.layout.data
            &&& stacked.layout.checkpoints.len() == target.layout.checkpoints.len()
                + source.layout.checkpoints.len()
        },
        crate::store::laws::stacking_is_refused(target.version, source.version, None)
            <==> source.version == DocStoreVersion::V1,
        crate::store::laws::stacking_is_refused(target.version, source.version, Some(renames))
            <==> source.version == DocStoreVersion::V1 || target.version != DocStoreVersion::V3,
{
}

/// A document is kept in memory until its block is full: until the bytes of the documents and eight
/// bytes for each of them are more than the size of a block. Then all of them are written.
pub proof fn lemma_full_blocks_are_written(
    before: WriterState,
    doc: Seq<u8>,
    after: WriterState,
    compressor: Compressor,
    block_size: usize,
)
    requires
        before.with_doc_is(doc, after, compressor, block_size),
    ensures
        crate::store::writer::joined(before.pending).len() + doc.len() + 8 * (before.pending.len()
            + 1) <= block_size ==> after.contents == before.contents && after.pending
            == before.pending.push(doc),
        crate::store::writer::joined(before.pending).len() + doc.len() + 8 * (before.pending.len()
            + 1) > block_size ==> {
            &&& after.pending.len() == 0
            &&& after.contents.layout.checkpoints.len() == before.contents.layout.checkpoints.len()
                + 1
            &&& before.contents.layout.checkpoints.is_prefix_of(after.contents.layout.checkpoints)
            &&& before.contents.layout.data.is_prefix_of(after.contents.layout.data)
        },
{
    let longer = before.pending.push(doc);
    assert(longer.drop_last() =~= before.pending);
    assert(crate::store::writer::joined(longer).len() == crate::store::writer::joined(
        before.pending,
    ).len() + doc.len());
    if crate::store::writer::joined(longer).len() + 8 * longer.len() > block_size {
        let old_layout = before.contents.layout;
        let new_layout = after.contents.layout;
        assert(old_layout.checkpoints =~= new_layout.checkpoints.subrange(
            0,
            old_layout.checkpoints.len() as int,
        ));
        assert(old_layout.data =~= new_layout.data.subrange(0, old_layout.data.len() as int));
    }
}

/// A block is the documents, one behind the other, then where each of them starts, in four bytes
/// each, then how many there are.
pub proof fn lemma_block_layout(docs: Seq<Seq<u8>>, index: int)
    requires
        crate::store::writer::joined(docs).len() <= u32::MAX,
        docs.len() <= u32::MAX,
        0 <= index < docs.len(),
    ensures
        ({
            let block = crate::store::writer::encode_block(docs);
            let list = block.len() - 4 * (docs.len() + 1);
            let start = vstd::bytes::spec_u32_from_le_bytes(
                block.subrange(list + 4 * index, list + 4 * index + 4),
            );
            &&& list == crate::store::writer::joined(docs).len()
            &&& vstd::bytes::spec_u32_from_le_bytes(block.skip(block.len() - 4)) == docs.len()
            &&& index == 0 ==> start == 0
            &&& start + docs[index].len() <= list
            &&& block.subrange(start as int, start + docs[index].len()) == docs[index]
            &&& index + 1 < docs.len() ==> vstd::bytes::spec_u32_from_le_bytes(
                block.subrange(list + 4 * (index + 1), list + 4 * (index + 1) + 4),
            ) == start + docs[index].len()
            &&& index + 1 == docs.len() ==> start + docs[index].len() == list
        }),
{
    let block = crate::store::writer::encode_block(docs);
    crate::store::writer::lemma_encoded_block(docs);
    assert(block.skip(block.len() - 4) =~= block.subrange(block.len() - 4, block.len() - 4 + 4));
    assert(crate::store::contents::index_len(block) == docs.len());
    crate::store::writer::lemma_positions_of_docs(docs, index);
}

/// Documents that a block does not hold are not found in it.
pub proof fn lemma_documents_beyond_a_block(docs: Seq<Seq<u8>>, doc_pos: u32)
    requires
        crate::store::writer::joined(docs).len() <= u32::MAX,
        docs.len() <= u32::MAX,
        doc_pos >= docs.len(),
    ensures
        crate::store::contents::doc_in_block(crate::store::writer::encode_block(docs), doc_pos)
            is Err,
        doc_pos > docs.len() ==> crate::store::contents::doc_in_block(
            crate::store::writer::encode_block(docs),
            doc_pos,
        ) == Err::<Seq<u8>, TantivyError>(TantivyError::WrongBlock),
{
    crate::store::writer::lemma_encoded_block(docs);
}

/// What was compressed is decompressed as it was; without compression, both are the same.
pub proof fn lemma_payloads_hold_their_data(
    compressor: Compressor,
    payload: Seq<u8>,
    data: Seq<u8>,
)
    requires
        compressor.is_payload(payload, data),
    ensures
        compressor.spec_decompressor().data_of(payload) == Ok::<Seq<u8>, StoreError>(data),
        compressor == Compressor::Uncompressed ==> payload == data,
        compressor.spec_decompressor() == Decompressor::Lz4 <==> compressor == Compressor::Lz4,
        Decompressor::Uncompressed.data_of(payload) == Ok::<Seq<u8>, StoreError>(payload),
{
}

/// The formats are numbered from one on, and a number that is none of theirs is refused.
pub proof fn lemma_numbers_of_formats(version: DocStoreVersion, bytes: Seq<u8>)
    requires
        bytes.len() >= 4,
    ensures
        version == DocStoreVersion::V1 <==> version.spec_number() == 1,
        version == DocStoreVersion::V2 <==> version.spec_number() == 2,
        version == DocStoreVersion::V3 <==> version.spec_number() == 3,
        ({
            let number = vstd::bytes::spec_u32_from_le_bytes(bytes.take(4));
            &&& DocStoreVersion::spec_deserialize(bytes) == Ok::<DocStoreVersion, StoreError>(
                version,
            ) <==> number == version.spec_number()
            &&& DocStoreVersion::spec_deserialize(bytes) is Ok <==> 1 <= number <= 3
        }),
{
}

/// An empty trailer is the number four in four bytes; and whatever a trailer holds, it ends with its
/// own length, which is how the payload in front of it is found.
pub proof fn lemma_trailers_end_with_their_length(map: Map<u32, u32>, block: Seq<u8>)
    requires
        crate::store::block_trailer::trailer_fits(map),
    ensures
        crate::store::block_trailer::trailer_bytes(Map::empty())
            == vstd::bytes::spec_u32_to_le_bytes(4),
        ({
            let trailer = crate::store::block_trailer::trailer_bytes(map);
            vstd::bytes::spec_u32_from_le_bytes(trailer.skip(trailer.len() - 4)) == trailer.len()
        }),
        crate::store::block_trailer::trailer_read(block) matches Ok((_, len)) ==> {
            &&& 4 <= len <= block.len()
            &&& vstd::bytes::spec_u32_from_le_bytes(block.skip(block.len() - 4)) == len
        },
        block.len() < 4 ==> crate::store::block_trailer::trailer_read(block) is Err,
{
    vstd::bytes::lemma_auto_spec_u32_to_from_le_bytes();
    let trailer = crate::store::block_trailer::trailer_bytes(map);
    let body = crate::store::block_trailer::body_bytes(map);
    let length = vstd::bytes::spec_u32_to_le_bytes((body.len() + 4) as u32);
    assert(trailer.skip(trailer.len() - 4) =~= length);
    assert(crate::store::block_trailer::trailer_bytes(Map::empty())
        =~= vstd::bytes::spec_u32_to_le_bytes(4));
}

/// The entries of a remap are written once each, by increasing field.
pub proof fn lemma_entries_are_sorted(map: Map<u32, u32>)
    ensures
        ({
            let entries = crate::store::block_trailer::sorted_entries(map);
            &&& forall|i: int, j: int|
                0 <= i < j < entries.len() ==> (#[trigger] entries[i]).0 < (
                #[trigger] entries[j]).0
            &&& forall|field: u32, target: u32| #[trigger]
                entries.contains((field, target)) <==> map.dom().contains(field) && map[field]
                    == target
        }),
{
    let entries = crate::store::block_trailer::sorted_entries(map);
    crate::store::block_trailer::lemma_entries_below(map, 0x1_0000_0000);
    assert forall|field: u32, target: u32| #[trigger]
        entries.contains((field, target)) <==> map.dom().contains(field) && map[field]
            == target by {
        if entries.contains((field, target)) {
            let i = choose|i: int| 0 <= i < entries.len() && entries[i] == (field, target);
            assert(map.contains_key(entries[i].0));
        }
        if map.dom().contains(field) && map[field] == target {
            assert(map.contains_key(field) && field < 0x1_0000_0000nat);
            assert(entries.contains((field, map[field])));
        }
    }
}

/// The class of an error tells whether the input ended too early, the request cannot be served, or
/// the bytes do not follow the format.
pub proof fn lemma_classes_of_errors(error: StoreError)
    ensures
        error.spec_kind() == ErrorKind::UnexpectedEof <==> error == StoreError::BlockTooShort
            || error == StoreError::UnexpectedEof,
        error.spec_kind() == ErrorKind::InvalidInput <==> error is SourceTooOld || error
            is TargetTooOld,
{
}

/// Blocks before the newest format are all payload; from then on the trailer behind the payload is
/// cut off.
pub proof fn lemma_cutting_blocks(version: DocStoreVersion, payload: Seq<u8>, map: Map<u32, u32>)
    requires
        crate::store::block_trailer::trailer_fits(map),
    ensures
        version != DocStoreVersion::V3 ==> crate::store::contents::split_block(version, payload)
            == Ok::<(Seq<u8>, Map<u32, u32>), StoreError>((payload, Map::empty())),
        version == DocStoreVersion::V3 ==> crate::store::contents::split_block(
            version,
            payload + crate::store::block_trailer::trailer_bytes(map),
        ) == Ok::<(Seq<u8>, Map<u32, u32>), StoreError>((payload, map)),
        version != DocStoreVersion::V3 ==> crate::store::store_compressor::written_block(
            version,
            payload,
        ) == payload,
        version == DocStoreVersion::V3 ==> crate::store::store_compressor::written_block(
            version,
            payload,
        ) == payload + vstd::bytes::spec_u32_to_le_bytes(4),
{
    crate::store::block_trailer::lemma_trailer_roundtrip(payload, map);
    let trailer = crate::store::block_trailer::trailer_bytes(map);
    assert((payload + trailer).take(payload.len() as int) =~= payload);
    lemma_trailers_end_with_their_length(map, payload);
    if version != DocStoreVersion::V3 {
        assert(crate::store::store_compressor::written_block(version, payload) =~= payload);
    }
}

/// A store has the documents up to the end of its last block, and none without blocks; a block that
/// is appended adds its own, and its bytes behind the others.
pub proof fn lemma_blocks_add_documents(
    layout: crate::store::layout::StoreLayout,
    bytes: Seq<u8>,
    num_docs: u32,
)
    requires
        layout.num_docs() + num_docs <= u32::MAX,
        layout.data.len() + bytes.len() <= usize::MAX,
    ensures
        crate::store::layout::StoreLayout::empty().num_docs() == 0,
        crate::store::layout::StoreLayout::empty().data.len() == 0,
        layout.checkpoints.len() > 0 ==> layout.num_docs() == layout.checkpoints.last().doc_end,
        layout.append_block(bytes, num_docs).num_docs() == layout.num_docs() + num_docs,
        layout.append_block(bytes, num_docs).data == layout.data + bytes,
        layout.append_block(bytes, num_docs).checkpoints.drop_last() == layout.checkpoints,
        ({
            let last = layout.append_block(bytes, num_docs).checkpoints.last();
            &&& last.doc_start == layout.num_docs()
            &&& last.byte_start == layout.data.len()
            &&& last.byte_end - last.byte_start == bytes.len()
        }),
{
    assert(layout.append_block(bytes, num_docs).checkpoints.drop_last() =~= layout.checkpoints);
}

/// Reading a document asks the cache for its block, and for nothing if there is no such document.
/// Listing asks for each block once, in their order.
pub proof fn lemma_blocks_that_are_asked_for(
    contents: StoreContents,
    cache: CacheState,
    doc: u32,
    count: nat,
)
    requires
        count < contents.layout.checkpoints.len(),
    ensures
        doc >= contents.layout.num_docs() ==> contents.cache_after_doc(cache, doc) == cache,
        doc < contents.layout.num_docs() ==> contents.cache_after_doc(cache, doc)
            == cache.after_read(
            contents.checkpoint_of(doc).byte_start,
            contents.load(contents.checkpoint_of(doc)) is Ok,
        ),
        contents.cache_after_blocks(cache, 0) == cache,
        contents.cache_after_blocks(cache, count + 1) == contents.cache_after_blocks(
            cache,
            count,
        ).after_read(
            contents.layout.checkpoints[count as int].byte_start,
            contents.load(contents.layout.checkpoints[count as int]) is Ok,
        ),
{
}

/// The counters of several caches add up.
pub proof fn lemma_counters_add_up(
    stats: Seq<crate::store::block_cache::CacheStats>,
    more: crate::store::block_cache::CacheStats,
)
    ensures
        crate::store::block_cache::stats_totals(Seq::empty()) == (0int, 0int, 0int),
        crate::store::block_cache::stats_totals(stats.push(more)).0
            == crate::store::block_cache::stats_totals(stats).0 + more.num_entries,
        crate::store::block_cache::stats_totals(stats.push(more)).1
            == crate::store::block_cache::stats_totals(stats).1 + more.cache_hits,
        crate::store::block_cache::stats_totals(stats.push(more)).2
            == crate::store::block_cache::stats_totals(stats).2 + more.cache_misses,
{
    assert(stats.push(more).drop_last() =~= stats);
}

/// The error tells the first field, after renaming, that is not in the schema or not stored there.
pub proof fn lemma_first_flaw_is_reported<V>(
    schema: Seq<FieldView>,
    renames: Map<u32, u32>,
    fields: Seq<(u32, V)>,
    first: int,
    target: u32,
)
    requires
        0 <= first < fields.len(),
        target == (if renames.contains_key(fields[first].0) {
            renames[fields[first].0]
        } else {
            fields[first].0
        }),
        crate::store::translate::fields_flaw(schema, renames, fields.take(first)) is None,
    ensures
        target >= schema.len() ==> crate::store::translate::fields_flaw(schema, renames, fields)
            == Some(TantivyError::FieldOutOfRange { field_id: target }),
        target < schema.len() && !schema[target as int].field_type.is_stored()
            ==> crate::store::translate::fields_flaw(schema, renames, fields) == Some(
            TantivyError::FieldNotStored { field_id: target },
        ),
    decreases fields.len(),
{
    if first == fields.len() - 1 {
        assert(fields.take(first) =~= fields.drop_last());
    } else {
        let rest = fields.drop_last();
        assert(rest.take(first) =~= fields.take(first));
        assert(rest[first] == fields[first]);
        lemma_first_flaw_is_reported(schema, renames, rest, first, target);
    }
}

/// What a file holds is its data, its list of blocks, and what its footer says.
pub proof fn lemma_files_show_their_contents(file: crate::store::layout::StoreFile)
    ensures
        file.contents().layout.data == file.data@,
        file.contents().layout.checkpoints == file.checkpoints@,
        file.contents().decompressor == file.footer.decompressor,
        file.contents().version == file.footer.doc_store_version,
        file@ == file.contents().layout,
{
}

/// Blocks that were loaded or cut show what they hold.
pub proof fn lemma_loaded_blocks_show_their_data(
    block: crate::store::block_cache::CachedBlock,
    data: Seq<u8>,
    map: Map<u32, u32>,
    error: StoreError,
    document: StoredDocument,
)
    ensures
        crate::store::reader::loaded_view(block) == (block.0@, block.1@),
        crate::store::reader::is_data_of(Ok((data, map)), block.0@) <==> block.0@ == data,
        !crate::store::reader::is_data_of(Err(error), data),
        document.remap matches Some(remap) ==> document.renames() == remap@,
        document.remap is None ==> document.renames() == Map::<u32, u32>::empty(),
        crate::store::store_compressor::outcome(Ok(())) is None,
        crate::store::store_compressor::outcome(Err(error)) == Some(error),
{
}

/// A block that was cut is its payload and its remap, or the error.
pub proof fn lemma_cut_blocks_show_their_parts(
    result: Result<(&[u8], BlockFieldRemap), StoreError>,
)
    ensures
        result matches Ok((payload, remap)) ==> crate::store::reader::cut_view(result) == Ok::<
            (Seq<u8>, Map<u32, u32>),
            StoreError,
        >((payload@, remap@)),
        result matches Err(error) ==> crate::store::reader::cut_view(result) == Err::<
            (Seq<u8>, Map<u32, u32>),
            StoreError,
        >(error),
{
}

/// Stacking succeeds if both formats allow it, every block of the source can be cut, and every new
/// remap fits behind its block. Without renaming the new remaps always fit.
pub proof fn lemma_stacking_succeeds(
    target: StoreContents,
    source: StoreContents,
    renames: Option<Map<u32, u32>>,
)
    requires
        source.version != DocStoreVersion::V1,
        renames is Some ==> target.version == DocStoreVersion::V3,
        forall|i: int|
            0 <= i < source.layout.checkpoints.len() ==> (crate::store::contents::split_block(
                source.version,
                source.block_at(#[trigger] source.layout.checkpoints[i]),
            ) matches Ok((_, map)) && (renames matches Some(outer)
                ==> crate::store::block_trailer::trailer_fits(
                crate::store::block_trailer::composed_map(map, outer),
            ))),
    ensures
        crate::store::laws::stack_outcome(target, source, renames).error is None,
{
    if renames is Some || source.version != DocStoreVersion::V3 || target.version
        != DocStoreVersion::V3 {
        lemma_copying_succeeds(target, source, renames, source.layout.checkpoints.len());
    }
}

proof fn lemma_copying_succeeds(
    target: StoreContents,
    source: StoreContents,
    renames: Option<Map<u32, u32>>,
    count: nat,
)
    requires
        count <= source.layout.checkpoints.len(),
        forall|i: int|
            0 <= i < source.layout.checkpoints.len() ==> (crate::store::contents::split_block(
                source.version,
                source.block_at(#[trigger] source.layout.checkpoints[i]),
            ) matches Ok((_, map)) && (renames matches Some(outer)
                ==> crate::store::block_trailer::trailer_fits(
                crate::store::block_trailer::composed_map(map, outer),
            ))),
    ensures
        crate::store::store_compressor::stack_blocks(
            target.layout,
            target.version,
            source,
            renames,
            count,
        ).error is None,
    decreases count,
{
    if count > 0 {
        lemma_copying_succeeds(target, source, renames, (count - 1) as nat);
        crate::store::store_compressor::lemma_empty_trailer_fits();
        assert(source.layout.checkpoints[count - 1] == source.layout.checkpoints[count - 1]);
    }
}

/// A document that cannot be read is not translated, and keeps its error. One that is renamed fails
/// only because decoding it failed, because one of its renamed fields is not a stored field of the
/// schema, or because encoding it failed.
pub proof fn lemma_why_translation_fails<V, Dec, Enc>(
    result: Result<Vec<u8>, TantivyError>,
    expected: Result<(Seq<u8>, Map<u32, u32>), TantivyError>,
    version: DocStoreVersion,
    schema: Seq<FieldView>,
    decode: Dec,
    encode: Enc,
) where
    Dec: Fn(Vec<u8>, DocStoreVersion) -> Result<Vec<(u32, V)>, TantivyError>,
    Enc: Fn(Vec<(u32, V)>) -> Result<Vec<u8>, TantivyError>,

    requires
        crate::store::reader::is_translation(result, expected, version, schema, decode, encode),
    ensures
        expected matches Err(error) ==> result == Err::<Vec<u8>, TantivyError>(error),
        expected is Ok && result is Err ==> exists|
            stored: Vec<u8>,
            decoded: Result<Vec<(u32, V)>, TantivyError>,
        | #[trigger]
            call_ensures(decode, (stored, version), decoded) && stored@ == (expected->Ok_0).0
                && match decoded {
                Err(error) => result == Err::<Vec<u8>, TantivyError>(error),
                Ok(fields) => {
                    ||| exists|renamed: Vec<(u32, V)>| #[trigger]
                        call_ensures(encode, (renamed,), result) && renamed@.len() == fields@.len()
                    ||| exists|i: int|
                        0 <= i < fields@.len() && {
                            let field = (#[trigger] fields@[i]).0;
                            let map = (expected->Ok_0).1;
                            let target = if map.contains_key(field) {
                                map[field]
                            } else {
                                field
                            };
                            target >= schema.len() || !schema[target as int].field_type.is_stored()
                        }
                },
            },
{
    if expected is Ok && result is Err {
        let bytes = (expected->Ok_0).0;
        let map = (expected->Ok_0).1;
        let (stored, decoded) = choose|
            stored: Vec<u8>,
            decoded: Result<Vec<(u32, V)>, TantivyError>,
        |
            stored@ == bytes && #[trigger] call_ensures(decode, (stored, version), decoded)
                && match decoded {
                Err(error) => result == Err::<Vec<u8>, TantivyError>(error),
                Ok(fields) => crate::store::reader::is_reencoded(
                    result,
                    fields@,
                    map,
                    schema,
                    encode,
                ),
            };
        assert(call_ensures(decode, (stored, version), decoded));
        if let Ok(fields) = decoded {
            lemma_flaw_of_fields(schema, map, fields@);
            if crate::store::translate::fields_flaw(schema, map, fields@) is None {
                let renamed = choose|renamed: Vec<(u32, V)>|
                    renamed@ == crate::store::translate::renamed_fields(fields@, map)
                        && #[trigger] call_ensures(encode, (renamed,), result);
                assert(call_ensures(encode, (renamed,), result) && renamed@.len() == fields@.len());
            }
        }
    }
}

/// Each item of a translated listing is the translation of its document.
pub proof fn lemma_listed_translations<V, Dec, Enc>(
    documents: Seq<Result<Vec<u8>, TantivyError>>,
    listed: Seq<Result<(Seq<u8>, Map<u32, u32>), TantivyError>>,
    version: DocStoreVersion,
    schema: Seq<FieldView>,
    decode: Dec,
    encode: Enc,
    index: int,
) where
    Dec: Fn(Vec<u8>, DocStoreVersion) -> Result<Vec<(u32, V)>, TantivyError>,
    Enc: Fn(Vec<(u32, V)>) -> Result<Vec<u8>, TantivyError>,

    requires
        crate::store::reader::are_translations(documents, listed, version, schema, decode, encode),
        0 <= index < listed.len(),
    ensures
        documents.len() == listed.len(),
        crate::store::reader::is_translation(
            documents[index],
            listed[index],
            version,
            schema,
            decode,
            encode,
        ),
{
    assert(documents[index] == documents[index]);
}

/// A document beyond the last one is not found.
pub proof fn lemma_missing_documents(contents: StoreContents, doc: u32)
    requires
        doc >= contents.layout.num_docs(),
    ensures
        contents.doc(doc) == Err::<(Seq<u8>, Map<u32, u32>), TantivyError>(
            TantivyError::DocNotFound { doc_id: doc },
        ),
{
}

} // verus!
