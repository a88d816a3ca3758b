//! Which fields documents have.

use std::sync::Arc;

use vstd::prelude::*;

use crate::error::TantivyError;
use crate::shared::share;

verus! {

/// A field, by its position in the schema.
#[derive(Clone, Copy, Debug, PartialEq, Eq, Structural)]
pub struct Field {
    id: u32,
}

impl Field {
    /// The position of the field.
    pub closed spec fn spec_field_id(self) -> u32 {
        self.id
    }

    /// The field at a position.
    pub fn from_field_id(field_id: u32) -> (field: Field)
        ensures
            field.spec_field_id() == field_id,
    {
        Field { id: field_id }
    }

    /// The position of the field.
    pub fn field_id(self) -> (field_id: u32)
        ensures
            field_id == self.spec_field_id(),
    {
        self.id
    }
}

/// What is recorded about the occurrences of a term.
#[derive(Clone, Copy, Debug, PartialEq, Eq, Structural)]
pub enum IndexRecordOption {
    /// The documents.
    Basic,
    /// The documents and how often the term occurs in each.
    WithFreqs,
    /// Also where the term occurs in each.
    WithFreqsAndPositions,
}

/// How text is indexed.
#[derive(Debug)]
pub struct TextFieldIndexing {
    /// What is recorded.
    pub record: IndexRecordOption,
    /// Whether the length of the field is recorded.
    pub fieldnorms: bool,
    /// The name of the tokenizer.
    pub tokenizer: String,
}

/// How text is indexed, as a value of the logic.
#[verifier::ext_equal]
pub struct IndexingView {
    pub record: IndexRecordOption,
    pub fieldnorms: bool,
    pub tokenizer: Seq<char>,
}

/// Options of a field of text.
#[derive(Debug)]
pub struct TextOptions {
    /// How the text is indexed, if it is.
    pub indexing: Option<TextFieldIndexing>,
    /// Whether it is stored.
    pub stored: bool,
    /// Whether it has a column.
    pub fast: bool,
    /// Whether other values are turned into text.
    pub coerce: bool,
}

impl TextOptions {
    /// Text that is neither indexed nor stored.
    pub fn new() -> (options: TextOptions)
        ensures
            options.indexing is None,
            !options.stored,
            !options.fast,
            !options.coerce,
    {
        TextOptions { indexing: None, stored: false, fast: false, coerce: false }
    }

    /// Text that is indexed word by word, with positions.
    pub fn text() -> (options: TextOptions)
        ensures
            indexing_view(options.indexing) == Some(
                IndexingView {
                    record: IndexRecordOption::WithFreqsAndPositions,
                    fieldnorms: true,
                    tokenizer: "default"@,
                },
            ),
            !options.stored,
            !options.fast,
            !options.coerce,
    {
        TextOptions {
            indexing: Some(
                TextFieldIndexing {
                    record: IndexRecordOption::WithFreqsAndPositions,
                    fieldnorms: true,
                    tokenizer: "default".to_owned(),
                },
            ),
            stored: false,
            fast: false,
            coerce: false,
        }
    }

    /// Text that is indexed as a whole.
    pub fn string() -> (options: TextOptions)
        ensures
            indexing_view(options.indexing) == Some(
                IndexingView {
                    record: IndexRecordOption::Basic,
                    fieldnorms: true,
                    tokenizer: "raw"@,
                },
            ),
            !options.stored,
            !options.fast,
            !options.coerce,
    {
        TextOptions {
            indexing: Some(
                TextFieldIndexing {
                    record: IndexRecordOption::Basic,
                    fieldnorms: true,
                    tokenizer: "raw".to_owned(),
                },
            ),
            stored: false,
            fast: false,
            coerce: false,
        }
    }

    /// The same, stored.
    pub fn set_stored(self) -> (options: TextOptions)
        ensures
            options == (TextOptions { stored: true, ..self }),
    {
        TextOptions {
            indexing: self.indexing,
            stored: true,
            fast: self.fast,
            coerce: self.coerce,
        }
    }
}

/// Options of a field of nested values.
#[derive(Debug)]
pub struct JsonObjectOptions {
    /// How text inside is indexed, if it is.
    pub indexing: Option<TextFieldIndexing>,
    /// Whether it is stored.
    pub stored: bool,
    /// Whether it has columns.
    pub fast: bool,
    /// Whether dots in names separate levels.
    pub expand_dots_enabled: bool,
}

/// Options of a field of numbers, dates, bytes or addresses.
#[derive(Clone, Copy, Debug, PartialEq, Eq, Structural)]
pub struct NumericOptions {
    /// Whether it is indexed.
    pub indexed: bool,
    /// Whether the length of the field is recorded.
    pub fieldnorms: bool,
    /// Whether it is stored.
    pub stored: bool,
    /// Whether it has a column.
    pub fast: bool,
    /// Whether other values are turned into numbers.
    pub coerce: bool,
}

/// How precisely dates are indexed.
#[derive(Clone, Copy, Debug, PartialEq, Eq, Structural)]
pub enum DateTimePrecision {
    Seconds,
    Milliseconds,
    Microseconds,
    Nanoseconds,
}

/// The type of a field without text.
#[derive(Clone, Copy, Debug, PartialEq, Eq, Structural)]
pub enum PlainType {
    U64(NumericOptions),
    I64(NumericOptions),
    F64(NumericOptions),
    Bool(NumericOptions),
    Date { options: NumericOptions, precision: DateTimePrecision },
    Facet { stored: bool },
    Bytes(NumericOptions),
    IpAddr(NumericOptions),
}

/// The type of a field, with its options.
#[derive(Debug)]
pub enum FieldType {
    Str(TextOptions),
    JsonObject(JsonObjectOptions),
    Plain(PlainType),
}

/// The type of a field, as a value of the logic.
#[verifier::ext_equal]
pub enum FieldTypeView {
    Str { indexing: Option<IndexingView>, stored: bool, fast: bool, coerce: bool },
    JsonObject { indexing: Option<IndexingView>, stored: bool, fast: bool, expand_dots: bool },
    Plain(PlainType),
}

/// A field with its name and type.
#[derive(Debug)]
pub struct FieldEntry {
    pub name: String,
    pub field_type: FieldType,
}

/// A field with its name and type, as a value of the logic.
#[verifier::ext_equal]
pub struct FieldView {
    pub name: Seq<char>,
    pub field_type: FieldTypeView,
}

impl View for TextFieldIndexing {
    type V = IndexingView;

    open spec fn view(&self) -> IndexingView {
        IndexingView {
            record: self.record,
            fieldnorms: self.fieldnorms,
            tokenizer: self.tokenizer@,
        }
    }
}

/// How text is indexed, if it is.
pub open spec fn indexing_view(indexing: Option<TextFieldIndexing>) -> Option<IndexingView> {
    match indexing {
        Some(indexing) => Some(indexing@),
        None => None,
    }
}

impl View for FieldType {
    type V = FieldTypeView;

    open spec fn view(&self) -> FieldTypeView {
        match *self {
            FieldType::Str(options) => FieldTypeView::Str {
                indexing: indexing_view(options.indexing),
                stored: options.stored,
                fast: options.fast,
                coerce: options.coerce,
            },
            FieldType::JsonObject(options) => FieldTypeView::JsonObject {
                indexing: indexing_view(options.indexing),
                stored: options.stored,
                fast: options.fast,
                expand_dots: options.expand_dots_enabled,
            },
            FieldType::Plain(plain) => FieldTypeView::Plain(plain),
        }
    }
}

impl View for FieldEntry {
    type V = FieldView;

    open spec fn view(&self) -> FieldView {
        FieldView { name: self.name@, field_type: self.field_type@ }
    }
}

fn same_indexing(left: &Option<TextFieldIndexing>, right: &Option<TextFieldIndexing>) -> (same: bool)
    ensures
        same == (indexing_view(*left) == indexing_view(*right)),
{
    match (left, right) {
        (Some(left), Some(right)) => {
            left.record == right.record && left.fieldnorms == right.fieldnorms && left.tokenizer.eq(
                &right.tokenizer,
            )
        },
        (None, None) => true,
        _ => false,
    }
}

impl FieldTypeView {
    /// Whether values of the field are stored.
    pub open spec fn is_stored(self) -> bool {
        match self {
            FieldTypeView::Str { stored, .. } => stored,
            FieldTypeView::JsonObject { stored, .. } => stored,
            FieldTypeView::Plain(plain) => match plain {
                PlainType::U64(options) => options.stored,
                PlainType::I64(options) => options.stored,
                PlainType::F64(options) => options.stored,
                PlainType::Bool(options) => options.stored,
                PlainType::Date { options, .. } => options.stored,
                PlainType::Facet { stored } => stored,
                PlainType::Bytes(options) => options.stored,
                PlainType::IpAddr(options) => options.stored,
            },
        }
    }
}

impl FieldEntry {
    /// Same name, type and options.
    pub fn same(&self, other: &FieldEntry) -> (same: bool)
        ensures
            same == (self@ == other@),
    {
        if !self.name.eq(&other.name) {
            return false;
        }
        match (&self.field_type, &other.field_type) {
            (FieldType::Str(left), FieldType::Str(right)) => {
                same_indexing(&left.indexing, &right.indexing) && left.stored == right.stored
                    && left.fast == right.fast && left.coerce == right.coerce
            },
            (FieldType::JsonObject(left), FieldType::JsonObject(right)) => {
                same_indexing(&left.indexing, &right.indexing) && left.stored == right.stored
                    && left.fast == right.fast && left.expand_dots_enabled
                    == right.expand_dots_enabled
            },
            (FieldType::Plain(left), FieldType::Plain(right)) => *left == *right,
            _ => false,
        }
    }

    /// Whether values of the field are stored.
    pub fn is_stored(&self) -> (stored: bool)
        ensures
            stored == self@.field_type.is_stored(),
    {
        match &self.field_type {
            FieldType::Str(options) => options.stored,
            FieldType::JsonObject(options) => options.stored,
            FieldType::Plain(plain) => match plain {
                PlainType::U64(options) => options.stored,
                PlainType::I64(options) => options.stored,
                PlainType::F64(options) => options.stored,
                PlainType::Bool(options) => options.stored,
                PlainType::Date { options, .. } => options.stored,
                PlainType::Facet { stored } => *stored,
                PlainType::Bytes(options) => options.stored,
                PlainType::IpAddr(options) => options.stored,
            },
        }
    }
}

/// The fields of the documents of an index, in their order.
#[derive(Debug)]
pub struct Schema {
    fields: Arc<Vec<FieldEntry>>,
}

/// The fields as values of the logic.
pub open spec fn field_views(fields: Seq<FieldEntry>) -> Seq<FieldView> {
    Seq::new(fields.len(), |i: int| fields[i]@)
}

/// Some field has this name.
pub open spec fn has_name(fields: Seq<FieldView>, name: Seq<char>) -> bool {
    exists|i: int| 0 <= i < fields.len() && (#[trigger] fields[i]).name == name
}

/// The fields of `longer` start with those of `shorter`.
pub open spec fn extends(longer: Seq<FieldView>, shorter: Seq<FieldView>) -> bool {
    &&& longer.len() >= shorter.len()
    &&& forall|i: int| 0 <= i < shorter.len() ==> #[trigger] longer[i] == shorter[i]
}

/// A schema can be extended by nothing, and step by step.
pub proof fn lemma_extends_is_a_preorder(
    first: Seq<FieldView>,
    second: Seq<FieldView>,
    third: Seq<FieldView>,
)
    ensures
        extends(first, first),
        extends(second, first) && extends(third, second) ==> extends(third, first),
{
    if extends(second, first) && extends(third, second) {
        assert forall|i: int| 0 <= i < first.len() implies #[trigger] third[i] == first[i] by {
            assert(second[i] == first[i]);
        }
    }
}

/// `field_id` is the first field with this name.
pub open spec fn is_first_named(fields: Seq<FieldView>, name: Seq<char>, field_id: u32) -> bool {
    &&& field_id < fields.len()
    &&& fields[field_id as int].name == name
    &&& forall|i: int| 0 <= i < field_id ==> (#[trigger] fields[i]).name != name
}

/// Fields keep their id, their type and their options when a schema is extended, so that
/// documents that were stored before mean the same.
pub proof fn lemma_extension_keeps_fields(
    longer: Seq<FieldView>,
    shorter: Seq<FieldView>,
    name: Seq<char>,
    field_id: u32,
)
    requires
        extends(longer, shorter),
        is_first_named(shorter, name, field_id),
    ensures
        is_first_named(longer, name, field_id),
        longer[field_id as int] == shorter[field_id as int],
{
    assert forall|i: int| 0 <= i < field_id implies (#[trigger] longer[i]).name != name by {
        assert(longer[i] == shorter[i]);
    }
}

impl View for Schema {
    type V = Seq<FieldView>;

    closed spec fn view(&self) -> Seq<FieldView> {
        field_views(self.fields@)
    }
}

impl Clone for Schema {
    fn clone(&self) -> (schema: Schema)
        ensures
            schema@ == self@,
    {
        proof {
            use_type_invariant(self);
        }
        Schema { fields: share(&self.fields) }
    }
}

impl Schema {
    #[verifier::type_invariant]
    closed spec fn inv(self) -> bool {
        self.fields@.len() <= u32::MAX
    }

    /// A builder without fields.
    pub fn builder() -> (builder: SchemaBuilder)
        ensures
            builder@ == Seq::<FieldView>::empty(),
    {
        let builder = SchemaBuilder { fields: Vec::new() };
        assert(builder@ =~= Seq::<FieldView>::empty());
        builder
    }

    /// The number of fields.
    pub fn num_fields(&self) -> (num_fields: usize)
        ensures
            num_fields == self@.len(),
    {
        self.fields.len()
    }

    /// The name and type of a field.
    pub fn get_field_entry(&self, field: Field) -> (entry: &FieldEntry)
        requires
            field.spec_field_id() < self@.len(),
        ensures
            entry@ == self@[field.spec_field_id() as int],
    {
        &self.fields[field.id as usize]
    }

    /// The first field with this name.
    pub fn get_field(&self, field_name: &str) -> (result: Result<Field, TantivyError>)
        ensures
            match result {
                Ok(field) => {
                    &&& is_first_named(self@, field_name@, field.spec_field_id())
                    &&& field.spec_field_id() < self@.len()
                    &&& self@[field.spec_field_id() as int].name == field_name@
                    &&& forall|i: int|
                        0 <= i < field.spec_field_id() ==> (#[trigger] self@[i]).name != field_name@
                },
                Err(error) => error == TantivyError::FieldNotFound && !has_name(
                    self@,
                    field_name@,
                ) && forall|i: int|
                    0 <= i < self@.len() ==> (#[trigger] self@[i]).name != field_name@,
            },
    {
        proof {
            use_type_invariant(self);
        }
        let name: String = field_name.to_owned();
        let mut next: usize = 0;
        while next < self.fields.len()
            invariant
                next <= self@.len(),
                self@.len() == self.fields@.len(),
                self@.len() <= u32::MAX,
                name@ == field_name@,
                forall|i: int| 0 <= i < next ==> (#[trigger] self@[i]).name != field_name@,
            decreases self@.len() - next,
        {
            assert(self@[next as int] == self.fields@[next as int]@);
            if self.fields[next].name.eq(&name) {
                return Ok(Field { id: next as u32 });
            }
            next = next + 1;
        }
        Err(TantivyError::FieldNotFound)
    }

    /// Same fields in the same order.
    pub fn same(&self, other: &Schema) -> (same: bool)
        ensures
            same == (self@ == other@),
    {
        if self.fields.len() != other.fields.len() {
            return false;
        }
        let mut next: usize = 0;
        while next < self.fields.len()
            invariant
                next <= self@.len(),
                self@.len() == self.fields@.len(),
                other@.len() == other.fields@.len(),
                self@.len() == other@.len(),
                forall|i: int| 0 <= i < next ==> #[trigger] self@[i] == other@[i],
            decreases self@.len() - next,
        {
            if !self.fields[next].same(&other.fields[next]) {
                assert(self@[next as int] != other@[next as int]);
                return false;
            }
            assert(self@[next as int] == other@[next as int]);
            next = next + 1;
        }
        assert(self@ =~= other@);
        true
    }

    /// Why `new_schema` is not this schema with fields appended, if it is not: the fields that are
    /// there already have to keep their position, name, type and options.
    pub open spec fn extension_flaw(current: Seq<FieldView>, proposed: Seq<FieldView>) -> Option<
        TantivyError,
    > {
        if proposed.len() < current.len() {
            Some(
                TantivyError::SchemaFewerFields {
                    proposed: proposed.len() as usize,
                    current: current.len() as usize,
                },
            )
        } else if !extends(proposed, current) {
            Some(
                TantivyError::SchemaFieldModified {
                    position: first_difference(current, proposed) as usize,
                },
            )
        } else {
            None
        }
    }

    /// Checks that `new_schema` is this schema with fields appended.
    pub fn check_extension(&self, new_schema: &Schema) -> (result: Result<(), TantivyError>)
        ensures
            match Schema::extension_flaw(self@, new_schema@) {
                Some(error) => result == Err::<(), TantivyError>(error),
                None => result is Ok,
            },
            result is Ok <==> extends(new_schema@, self@),
            result is Ok <==> self@.is_prefix_of(new_schema@),
    {
        proof {
            lemma_extension_is_a_prefix(self@, new_schema@);
        }
        let current: usize = self.fields.len();
        let proposed: usize = new_schema.fields.len();
        if proposed < current {
            return Err(TantivyError::SchemaFewerFields { proposed, current });
        }
        let mut next: usize = 0;
        while next < current
            invariant
                next <= current <= proposed,
                current == self@.len(),
                proposed == new_schema@.len(),
                self@.len() == self.fields@.len(),
                new_schema@.len() == new_schema.fields@.len(),
                forall|i: int| 0 <= i < next ==> #[trigger] new_schema@[i] == self@[i],
            decreases current - next,
        {
            if !self.fields[next].same(&new_schema.fields[next]) {
                proof {
                    assert(new_schema@[next as int] != self@[next as int]);
                    lemma_first_difference(self@, new_schema@, next as int);
                }
                return Err(TantivyError::SchemaFieldModified { position: next });
            }
            assert(new_schema@[next as int] == self@[next as int]);
            next = next + 1;
        }
        Ok(())
    }
}

/// The first position at which the two differ.
pub open spec fn first_difference(left: Seq<FieldView>, right: Seq<FieldView>) -> int
    decreases left.len(),
{
    if left.len() == 0 || right.len() == 0 || left[0] != right[0] {
        0
    } else {
        1 + first_difference(left.skip(1), right.skip(1))
    }
}

proof fn lemma_first_difference(left: Seq<FieldView>, right: Seq<FieldView>, position: int)
    requires
        0 <= position < left.len(),
        position < right.len(),
        left[position] != right[position],
        forall|i: int| 0 <= i < position ==> #[trigger] right[i] == left[i],
    ensures
        first_difference(left, right) == position,
    decreases position,
{
    if position > 0 {
        assert(right[0] == left[0]);
        assert forall|i: int| 0 <= i < position - 1 implies #[trigger] right.skip(1)[i] == left.skip(
            1,
        )[i] by {
            assert(right[i + 1] == left[i + 1]);
        }
        lemma_first_difference(left.skip(1), right.skip(1), position - 1);
    }
}

/// A schema can replace another one exactly if that one is a prefix of it. If not, the error tells
/// the two numbers of fields, or the first position at which a field has changed.
pub proof fn lemma_extension_is_a_prefix(current: Seq<FieldView>, proposed: Seq<FieldView>)
    ensures
        Schema::extension_flaw(current, proposed) is None <==> current.is_prefix_of(proposed),
        extends(proposed, current) <==> current.is_prefix_of(proposed),
        proposed.len() < current.len() ==> Schema::extension_flaw(current, proposed) == Some(
            TantivyError::SchemaFewerFields {
                proposed: proposed.len() as usize,
                current: current.len() as usize,
            },
        ),
        forall|position: usize|
            position < current.len() <= proposed.len() && current[position as int]
                != proposed[position as int] && current.take(position as int) == #[trigger] proposed.take(
                position as int,
            ) ==> Schema::extension_flaw(current, proposed) == Some(
                TantivyError::SchemaFieldModified { position },
            ),
{
    let len = current.len() as int;
    if current.is_prefix_of(proposed) {
        assert forall|i: int| 0 <= i < len implies #[trigger] proposed[i] == current[i] by {
            assert(proposed.subrange(0, len)[i] == proposed[i]);
        }
    }
    if extends(proposed, current) {
        assert(current =~= proposed.subrange(0, len));
    }
    assert forall|position: usize|
        position < current.len() <= proposed.len() && current[position as int]
            != proposed[position as int] && current.take(position as int) == #[trigger] proposed.take(
            position as int,
        ) implies Schema::extension_flaw(current, proposed) == Some(
        TantivyError::SchemaFieldModified { position },
    ) by {
        assert forall|i: int| 0 <= i < position implies #[trigger] proposed[i] == current[i] by {
            assert(proposed.take(position as int)[i] == current.take(position as int)[i]);
        }
        lemma_first_difference(current, proposed, position as int);
    }
}

/// Fields look the same exactly if their names, their types and all of their options are equal.
pub proof fn lemma_views_tell_fields_apart(left: FieldEntry, right: FieldEntry)
    ensures
        left@ == right@ <==> left.name@ == right.name@ && match (left.field_type, right.field_type) {
            (FieldType::Str(one), FieldType::Str(other)) => {
                &&& one.stored == other.stored
                &&& one.fast == other.fast
                &&& one.coerce == other.coerce
                &&& match (one.indexing, other.indexing) {
                    (Some(one), Some(other)) => one.record == other.record && one.fieldnorms
                        == other.fieldnorms && one.tokenizer@ == other.tokenizer@,
                    (None, None) => true,
                    _ => false,
                }
            },
            (FieldType::JsonObject(one), FieldType::JsonObject(other)) => {
                &&& one.stored == other.stored
                &&& one.fast == other.fast
                &&& one.expand_dots_enabled == other.expand_dots_enabled
                &&& match (one.indexing, other.indexing) {
                    (Some(one), Some(other)) => one.record == other.record && one.fieldnorms
                        == other.fieldnorms && one.tokenizer@ == other.tokenizer@,
                    (None, None) => true,
                    _ => false,
                }
            },
            (FieldType::Plain(one), FieldType::Plain(other)) => one == other,
            _ => false,
        },
{
}

/// A field is stored exactly if its options say so.
pub proof fn lemma_stored_by_options(entry: FieldEntry, options: NumericOptions)
    ensures
        entry.field_type matches FieldType::Str(text) ==> entry@.field_type.is_stored()
            == text.stored,
        entry.field_type matches FieldType::JsonObject(json) ==> entry@.field_type.is_stored()
            == json.stored,
        entry.field_type matches FieldType::Plain(plain) && (plain == PlainType::U64(options)
            || plain == PlainType::I64(options) || plain == PlainType::F64(options) || plain
            == PlainType::Bool(options) || plain == PlainType::Bytes(options) || plain
            == PlainType::IpAddr(options) || (plain matches PlainType::Date { options: given, .. }
            && given == options)) ==> entry@.field_type.is_stored() == options.stored,
        entry.field_type matches FieldType::Plain(PlainType::Facet { stored })
            ==> entry@.field_type.is_stored() == stored,
{
}

/// Collects the fields of a schema.
pub struct SchemaBuilder {
    fields: Vec<FieldEntry>,
}

impl View for SchemaBuilder {
    type V = Seq<FieldView>;

    closed spec fn view(&self) -> Seq<FieldView> {
        field_views(self.fields@)
    }
}

impl SchemaBuilder {
    #[verifier::type_invariant]
    closed spec fn inv(self) -> bool {
        self.fields@.len() <= u32::MAX
    }

    /// Appends a field.
    pub fn add_field(&mut self, field_entry: FieldEntry) -> (field: Field)
        requires
            old(self)@.len() < u32::MAX,
            !has_name(old(self)@, field_entry@.name),
        ensures
            final(self)@ == old(self)@.push(field_entry@),
            field.spec_field_id() == old(self)@.len(),
    {
        let ghost added = field_entry@;
        let field: Field = Field { id: self.fields.len() as u32 };
        let mut fields: Vec<FieldEntry> = Vec::new();
        std::mem::swap(&mut fields, &mut self.fields);
        fields.push(field_entry);
        self.fields = fields;
        assert(self@ =~= old(self)@.push(added));
        field
    }

    /// Appends a field of text.
    pub fn add_text_field(&mut self, field_name: &str, options: TextOptions) -> (field: Field)
        requires
            old(self)@.len() < u32::MAX,
            !has_name(old(self)@, field_name@),
        ensures
            final(self)@ == old(self)@.push(
                FieldView { name: field_name@, field_type: FieldType::Str(options)@ },
            ),
            field.spec_field_id() == old(self)@.len(),
    {
        self.add_field(
            FieldEntry { name: field_name.to_owned(), field_type: FieldType::Str(options) },
        )
    }

    /// Appends a field of nested values.
    pub fn add_json_field(&mut self, field_name: &str, options: JsonObjectOptions) -> (field: Field)
        requires
            old(self)@.len() < u32::MAX,
            !has_name(old(self)@, field_name@),
        ensures
            final(self)@ == old(self)@.push(
                FieldView { name: field_name@, field_type: FieldType::JsonObject(options)@ },
            ),
            field.spec_field_id() == old(self)@.len(),
    {
        self.add_field(
            FieldEntry { name: field_name.to_owned(), field_type: FieldType::JsonObject(options) },
        )
    }

    /// Appends a field without text.
    pub fn add_plain_field(&mut self, field_name: &str, plain: PlainType) -> (field: Field)
        requires
            old(self)@.len() < u32::MAX,
            !has_name(old(self)@, field_name@),
        ensures
            final(self)@ == old(self)@.push(
                FieldView { name: field_name@, field_type: FieldTypeView::Plain(plain) },
            ),
            field.spec_field_id() == old(self)@.len(),
    {
        self.add_field(
            FieldEntry { name: field_name.to_owned(), field_type: FieldType::Plain(plain) },
        )
    }

    /// The schema with the fields added so far.
    pub fn build(self) -> (schema: Schema)
        ensures
            schema@ == self@,
    {
        proof {
            use_type_invariant(&self);
        }
        Schema { fields: Arc::new(self.fields) }
    }
}

} // verus!
