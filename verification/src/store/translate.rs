//! Renaming the fields of a document.

use vstd::prelude::*;

use crate::error::TantivyError;
use crate::schema::{Field, FieldView, Schema};
use crate::store::block_trailer::BlockFieldRemap;

verus! {

/// Why a stored document cannot have this field.
pub open spec fn field_flaw(schema: Seq<FieldView>, field_id: u32) -> Option<TantivyError> {
    if field_id >= schema.len() {
        Some(TantivyError::FieldOutOfRange { field_id })
    } else if !schema[field_id as int].field_type.is_stored() {
        Some(TantivyError::FieldNotStored { field_id })
    } else {
        None
    }
}

/// Why a document cannot have the renamed fields: what is wrong with the first of them that is no
/// stored field of the schema.
pub open spec fn fields_flaw<V>(
    schema: Seq<FieldView>,
    renames: Map<u32, u32>,
    fields: Seq<(u32, V)>,
) -> Option<TantivyError>
    decreases fields.len(),
{
    if fields.len() == 0 {
        None
    } else {
        match fields_flaw(schema, renames, fields.drop_last()) {
            Some(error) => Some(error),
            None => field_flaw(
                schema,
                crate::store::block_trailer::lookup_in(renames, fields.last().0),
            ),
        }
    }
}

/// The fields of a document after renaming, with their values.
pub open spec fn renamed_fields<V>(fields: Seq<(u32, V)>, renames: Map<u32, u32>) -> Seq<(u32, V)> {
    fields.map_values(
        |field: (u32, V)|
            (crate::store::block_trailer::lookup_in(renames, field.0), field.1),
    )
}

/// A flaw stays when more fields follow.
proof fn lemma_flaw_stays<V>(
    schema: Seq<FieldView>,
    renames: Map<u32, u32>,
    fields: Seq<(u32, V)>,
    count: int,
)
    requires
        0 <= count <= fields.len(),
        fields_flaw(schema, renames, fields.take(count)) is Some,
    ensures
        fields_flaw(schema, renames, fields) == fields_flaw(schema, renames, fields.take(count)),
    decreases fields.len(),
{
    if count < fields.len() {
        assert(fields.drop_last().take(count) =~= fields.take(count));
        lemma_flaw_stays(schema, renames, fields.drop_last(), count);
    } else {
        assert(fields.take(count) =~= fields);
    }
}

/// Renames the fields of a document, whose values are kept. Each of them has to be a stored field
/// of the schema.
pub fn translate_fields<V>(
    fields: Vec<(u32, V)>,
    remap: &BlockFieldRemap,
    schema: &Schema,
) -> (result: Result<Vec<(u32, V)>, TantivyError>)
    ensures
        match result {
            Ok(translated) => {
                &&& translated@ == renamed_fields(fields@, remap@)
                &&& fields_flaw(schema@, remap@, fields@) is None
            },
            Err(error) => fields_flaw(schema@, remap@, fields@) == Some(error),
        },
{
    let ghost all = fields@;
    let mut translated: Vec<(u32, V)> = Vec::new();
    for field in rest: fields.into_iter()
        invariant
            rest.seq() == all,
            translated@ == renamed_fields(all.take(rest.index()), remap@),
            fields_flaw(schema@, remap@, all.take(rest.index())) is None,
    {
        let ghost at = rest.index();
        let ghost entry = field;
        let (encoded, value): (u32, V) = field;
        let field_id: u32 = remap.lookup(encoded);
        proof {
            assert(all[at] == entry);
            assert(all.take(at + 1).drop_last() =~= all.take(at));
            assert(fields_flaw(schema@, remap@, all.take(at + 1)) == field_flaw(schema@, field_id));
        }
        if field_id as usize >= schema.num_fields() {
            proof {
                lemma_flaw_stays(schema@, remap@, all, at + 1);
            }
            return Err(TantivyError::FieldOutOfRange { field_id });
        }
        if !schema.get_field_entry(Field::from_field_id(field_id)).is_stored() {
            proof {
                lemma_flaw_stays(schema@, remap@, all, at + 1);
            }
            return Err(TantivyError::FieldNotStored { field_id });
        }
        translated.push((field_id, value));
        assert(translated@ =~= renamed_fields(all.take(at + 1), remap@));
    }
    assert(all.take(all.len() as int) =~= all);
    Ok(translated)
}

} // verus!
