//! Deriving durable schema metadata from a document's declaration.
//!
//! A container accepts the options `name` and `version`; a field accepts `id`
//! and `merge`. Where an option is given twice, the later one holds.

use super::{
    contains_id, describe, field_id, field_ids, field_refusal, fields_refusal, fingerprint_of,
    merged_positions, stable_field_id, stable_id, DeclarationView, FieldDeclaration, SchemaError,
};
use crate::text::{owned, same_text};
use vstd::prelude::*;
use vstd::string::*;

verus! {

/// The value that an option is given.
#[derive(Debug, PartialEq, Eq)]
pub enum OptionValue {
    /// No value.
    Missing,
    /// A text literal.
    Text(String),
    /// A number literal that fits in 32 bits.
    Number(u32),
    /// Anything else.
    Other,
}

/// What an [`OptionValue`] says.
#[verifier::ext_equal]
pub enum ValueView {
    /// No value.
    Missing,
    /// A text literal.
    Text(Seq<char>),
    /// A number literal that fits in 32 bits.
    Number(u32),
    /// Anything else.
    Other,
}

/// One option of a container or a field.
#[derive(Debug, PartialEq, Eq)]
pub struct DeclaredOption {
    /// Name of the option.
    pub key: String,
    /// Value of the option.
    pub value: OptionValue,
}

/// What a [`DeclaredOption`] says.
#[verifier::ext_equal]
pub struct OptionView {
    /// Name of the option.
    pub key: Seq<char>,
    /// Value of the option.
    pub value: ValueView,
}

impl View for DeclaredOption {
    type V = OptionView;

    open spec fn view(&self) -> OptionView {
        OptionView {
            key: self.key@,
            value: match self.value {
                OptionValue::Missing => ValueView::Missing,
                OptionValue::Text(text) => ValueView::Text(text@),
                OptionValue::Number(number) => ValueView::Number(number),
                OptionValue::Other => ValueView::Other,
            },
        }
    }
}

/// What options say.
pub open spec fn option_views(options: Seq<DeclaredOption>) -> Seq<OptionView> {
    options.map_values(|option: DeclaredOption| option@)
}

/// One field as it is written.
#[derive(Debug, PartialEq, Eq)]
pub struct FieldInput {
    /// Source-level field name.
    pub name: String,
    /// Rust type tokens.
    pub rust_type: String,
    /// Options in order.
    pub options: Vec<DeclaredOption>,
}

/// What a [`FieldInput`] says.
#[verifier::ext_equal]
pub struct FieldInputView {
    /// Source-level field name.
    pub name: Seq<char>,
    /// Rust type tokens.
    pub rust_type: Seq<char>,
    /// Options in order.
    pub options: Seq<OptionView>,
}

impl View for FieldInput {
    type V = FieldInputView;

    open spec fn view(&self) -> FieldInputView {
        FieldInputView {
            name: self.name@,
            rust_type: self.rust_type@,
            options: option_views(self.options@),
        }
    }
}

/// What fields say.
pub open spec fn input_views(fields: Seq<FieldInput>) -> Seq<FieldInputView> {
    fields.map_values(|field: FieldInput| field@)
}

/// The data that a declaration holds.
#[derive(Debug, PartialEq, Eq)]
pub enum DeclaredData {
    /// A struct with named fields.
    NamedFields(Vec<FieldInput>),
    /// A struct without named fields.
    OtherStruct,
    /// No struct.
    NotAStruct,
}

/// A document's declaration as it is written.
#[derive(Debug, PartialEq, Eq)]
pub struct DocumentInput {
    /// Name of the Rust type.
    pub ident: String,
    /// Container options in order.
    pub options: Vec<DeclaredOption>,
    /// Data of the declaration.
    pub data: DeclaredData,
}

/// Why a document's declaration is refused.
#[derive(Clone, Copy, Debug, PartialEq, Eq, Structural)]
pub enum DocumentError {
    /// A container option is neither `name` nor `version`.
    UnknownContainerOption,
    /// The value of the container option at this position does not fit.
    ContainerValue(usize),
    /// The declaration is no struct.
    NotAStruct,
    /// The struct has no named fields.
    UnnamedFields,
    /// An option of the field at this position is neither `id` nor `merge`.
    UnknownFieldOption(usize),
    /// The value of an option of the field at this position does not fit.
    FieldValue(usize),
    /// The schema itself is refused.
    Schema(SchemaError),
}

impl DocumentError {
    /// Returns the human-readable reason.
    pub fn message(self) -> (message: &'static str)
        ensures
            message@ == match self {
                DocumentError::UnknownContainerOption => "expected `name` or `version`"@,
                DocumentError::ContainerValue(_) => "the option has no fitting value"@,
                DocumentError::NotAStruct => "Document currently supports structs"@,
                DocumentError::UnnamedFields
                    => "Document currently supports structs with named fields"@,
                DocumentError::UnknownFieldOption(_) => "expected `id` or `merge`"@,
                DocumentError::FieldValue(_) => "the option has no fitting value"@,
                DocumentError::Schema(SchemaError::EmptyName) => "schema name cannot be empty"@,
                DocumentError::Schema(SchemaError::ZeroFieldId(_))
                    => "field ID must be non-zero"@,
                DocumentError::Schema(SchemaError::DuplicateFieldId(_))
                    => "duplicate Cyrene field ID"@,
            },
    {
        match self {
            DocumentError::UnknownContainerOption => "expected `name` or `version`",
            DocumentError::ContainerValue(_) => "the option has no fitting value",
            DocumentError::NotAStruct => "Document currently supports structs",
            DocumentError::UnnamedFields => "Document currently supports structs with named fields",
            DocumentError::UnknownFieldOption(_) => "expected `id` or `merge`",
            DocumentError::FieldValue(_) => "the option has no fitting value",
            DocumentError::Schema(error) => error.message(),
        }
    }
}

/// The schema name and version that the first container options give, or why
/// one is refused.
pub open spec fn container_of(default_name: Seq<char>, options: Seq<OptionView>) -> Result<
    (Seq<char>, u32),
    DocumentError,
>
    decreases options.len(),
{
    if options.len() == 0 {
        Ok((default_name, 1))
    } else {
        let at = (options.len() - 1) as usize;
        let option = options.last();
        match container_of(default_name, options.drop_last()) {
            Err(error) => Err(error),
            Ok((name, version)) => if option.key == "name"@ {
                match option.value {
                    ValueView::Text(text) => Ok((text, version)),
                    _ => Err(DocumentError::ContainerValue(at)),
                }
            } else if option.key == "version"@ {
                match option.value {
                    ValueView::Number(number) => Ok((name, number)),
                    _ => Err(DocumentError::ContainerValue(at)),
                }
            } else {
                Err(DocumentError::UnknownContainerOption)
            },
        }
    }
}

proof fn lemma_container_refused(default_name: Seq<char>, options: Seq<OptionView>, len: int)
    requires
        0 <= len <= options.len(),
        container_of(default_name, options.take(len)) is Err,
    ensures
        container_of(default_name, options) == container_of(default_name, options.take(len)),
    decreases options.len() - len,
{
    if len < options.len() {
        assert(options.take(len + 1).drop_last() =~= options.take(len));
        lemma_container_refused(default_name, options, len + 1);
    } else {
        assert(options.take(len) =~= options);
    }
}

/// Reads the schema name and version of a container.
pub fn parse_container(default_name: &str, options: &Vec<DeclaredOption>) -> (container: Result<
    (String, u32),
    DocumentError,
>)
    ensures
        match container {
            Ok((name, version)) => container_of(default_name@, option_views(options@)) == Ok::<
                (Seq<char>, u32),
                DocumentError,
            >((name@, version)),
            Err(error) => container_of(default_name@, option_views(options@)) == Err::<
                (Seq<char>, u32),
                DocumentError,
            >(error),
        },
{
    let ghost views = option_views(options@);
    let mut name = owned(default_name);
    let mut version: u32 = 1;
    let mut index: usize = 0;
    assert(views.take(0) =~= Seq::<OptionView>::empty());
    while index < options.len()
        invariant
            index <= options@.len(),
            views == option_views(options@),
            container_of(default_name@, views.take(index as int)) == Ok::<
                (Seq<char>, u32),
                DocumentError,
            >((name@, version)),
        decreases options@.len() - index,
    {
        let option = &options[index];
        proof {
            assert(views.take(index + 1).drop_last() =~= views.take(index as int));
            assert(views.take(index + 1).last() == option@);
        }
        if same_text(option.key.as_str(), "name") {
            match &option.value {
                OptionValue::Text(text) => {
                    name = owned(text.as_str());
                },
                _ => {
                    proof {
                        lemma_container_refused(default_name@, views, index + 1);
                    }
                    return Err(DocumentError::ContainerValue(index));
                },
            }
        } else if same_text(option.key.as_str(), "version") {
            match &option.value {
                OptionValue::Number(number) => {
                    version = *number;
                },
                _ => {
                    proof {
                        lemma_container_refused(default_name@, views, index + 1);
                    }
                    return Err(DocumentError::ContainerValue(index));
                },
            }
        } else {
            proof {
                lemma_container_refused(default_name@, views, index + 1);
            }
            return Err(DocumentError::UnknownContainerOption);
        }
        index += 1;
    }
    assert(views.take(views.len() as int) =~= views);
    Ok((name, version))
}

/// The explicit identity and merging that a field's options give, or why one
/// is refused.
pub open spec fn field_options(options: Seq<OptionView>, at: usize) -> Result<
    (Option<u32>, bool),
    DocumentError,
>
    decreases options.len(),
{
    if options.len() == 0 {
        Ok((None, false))
    } else {
        let option = options.last();
        match field_options(options.drop_last(), at) {
            Err(error) => Err(error),
            Ok((id, merge)) => if option.key == "id"@ {
                match option.value {
                    ValueView::Number(number) => Ok((Some(number), merge)),
                    _ => Err(DocumentError::FieldValue(at)),
                }
            } else if option.key == "merge"@ {
                match option.value {
                    ValueView::Missing => Ok((id, true)),
                    _ => Err(DocumentError::FieldValue(at)),
                }
            } else {
                Err(DocumentError::UnknownFieldOption(at))
            },
        }
    }
}

proof fn lemma_options_refused(options: Seq<OptionView>, at: usize, len: int)
    requires
        0 <= len <= options.len(),
        field_options(options.take(len), at) is Err,
    ensures
        field_options(options, at) == field_options(options.take(len), at),
    decreases options.len() - len,
{
    if len < options.len() {
        assert(options.take(len + 1).drop_last() =~= options.take(len));
        lemma_options_refused(options, at, len + 1);
    } else {
        assert(options.take(len) =~= options);
    }
}

fn parse_field_options(options: &Vec<DeclaredOption>, at: usize) -> (parsed: Result<
    (Option<u32>, bool),
    DocumentError,
>)
    ensures
        parsed == field_options(option_views(options@), at),
{
    let ghost views = option_views(options@);
    let mut id: Option<u32> = None;
    let mut merge: bool = false;
    let mut index: usize = 0;
    assert(views.take(0) =~= Seq::<OptionView>::empty());
    while index < options.len()
        invariant
            index <= options@.len(),
            views == option_views(options@),
            field_options(views.take(index as int), at) == Ok::<
                (Option<u32>, bool),
                DocumentError,
            >((id, merge)),
        decreases options@.len() - index,
    {
        let option = &options[index];
        proof {
            assert(views.take(index + 1).drop_last() =~= views.take(index as int));
            assert(views.take(index + 1).last() == option@);
        }
        if same_text(option.key.as_str(), "id") {
            match &option.value {
                OptionValue::Number(number) => {
                    id = Some(*number);
                },
                _ => {
                    proof {
                        lemma_options_refused(views, at, index + 1);
                    }
                    return Err(DocumentError::FieldValue(at));
                },
            }
        } else if same_text(option.key.as_str(), "merge") {
            match &option.value {
                OptionValue::Missing => {
                    merge = true;
                },
                _ => {
                    proof {
                        lemma_options_refused(views, at, index + 1);
                    }
                    return Err(DocumentError::FieldValue(at));
                },
            }
        } else {
            proof {
                lemma_options_refused(views, at, index + 1);
            }
            return Err(DocumentError::UnknownFieldOption(at));
        }
        index += 1;
    }
    assert(views.take(views.len() as int) =~= views);
    Ok((id, merge))
}

/// The declaration of the next field behind those already declared, or why it
/// is refused.
pub open spec fn next_field(
    field: FieldInputView,
    declared: Seq<DeclarationView>,
) -> Result<DeclarationView, DocumentError> {
    let at = declared.len() as usize;
    match field_options(field.options, at) {
        Err(error) => Err(error),
        Ok((id, merge)) => {
            let declaration = DeclarationView {
                name: field.name,
                id,
                rust_type: field.rust_type,
                merge,
            };
            if field_id(declaration) == 0 {
                Err(DocumentError::Schema(SchemaError::ZeroFieldId(at)))
            } else if field_ids(declared).contains(field_id(declaration)) {
                Err(DocumentError::Schema(SchemaError::DuplicateFieldId(at)))
            } else {
                Ok(declaration)
            }
        },
    }
}

/// The declarations of the first fields, or why the first refused one is.
pub open spec fn declared_fields(fields: Seq<FieldInputView>) -> Result<
    Seq<DeclarationView>,
    DocumentError,
>
    decreases fields.len(),
{
    if fields.len() == 0 {
        Ok(Seq::empty())
    } else {
        match declared_fields(fields.drop_last()) {
            Err(error) => Err(error),
            Ok(declared) => match next_field(fields.last(), declared) {
                Err(error) => Err(error),
                Ok(declaration) => Ok(declared.push(declaration)),
            },
        }
    }
}

proof fn lemma_fields_refused(fields: Seq<FieldInputView>, len: int)
    requires
        0 <= len <= fields.len(),
        declared_fields(fields.take(len)) is Err,
    ensures
        declared_fields(fields) == declared_fields(fields.take(len)),
    decreases fields.len() - len,
{
    if len < fields.len() {
        assert(fields.take(len + 1).drop_last() =~= fields.take(len));
        lemma_fields_refused(fields, len + 1);
    } else {
        assert(fields.take(len) =~= fields);
    }
}

/// Reads the declarations of a document's fields.
pub fn parse_fields(fields: &Vec<FieldInput>) -> (parsed: Result<
    Vec<FieldDeclaration>,
    DocumentError,
>)
    ensures
        match parsed {
            Ok(parsed) => declared_fields(input_views(fields@)) == Ok::<
                Seq<DeclarationView>,
                DocumentError,
            >(super::declaration_views(parsed@)),
            Err(error) => declared_fields(input_views(fields@)) == Err::<
                Seq<DeclarationView>,
                DocumentError,
            >(error),
        },
{
    let ghost views = input_views(fields@);
    let mut parsed: Vec<FieldDeclaration> = Vec::new();
    let mut ids: Vec<u32> = Vec::new();
    let mut index: usize = 0;
    proof {
        assert(views.take(0) =~= Seq::<FieldInputView>::empty());
        assert(super::declaration_views(parsed@) =~= Seq::<DeclarationView>::empty());
        assert(ids@ =~= field_ids(super::declaration_views(parsed@)));
    }
    while index < fields.len()
        invariant
            index <= fields@.len(),
            views == input_views(fields@),
            parsed@.len() == index,
            ids@ == field_ids(super::declaration_views(parsed@)),
            declared_fields(views.take(index as int)) == Ok::<
                Seq<DeclarationView>,
                DocumentError,
            >(super::declaration_views(parsed@)),
        decreases fields@.len() - index,
    {
        let field = &fields[index];
        let ghost before = super::declaration_views(parsed@);
        proof {
            assert(views.take(index + 1).drop_last() =~= views.take(index as int));
            assert(views.take(index + 1).last() == field@);
        }
        let (id, merge) = match parse_field_options(&field.options, index) {
            Ok(options) => options,
            Err(error) => {
                proof {
                    lemma_fields_refused(views, index + 1);
                }
                return Err(error);
            },
        };
        let field_number: u32 = match id {
            Some(id) => id,
            None => stable_field_id(field.name.as_str()),
        };
        if field_number == 0 {
            proof {
                lemma_fields_refused(views, index + 1);
            }
            return Err(DocumentError::Schema(SchemaError::ZeroFieldId(index)));
        }
        if contains_id(&ids, field_number) {
            proof {
                lemma_fields_refused(views, index + 1);
            }
            return Err(DocumentError::Schema(SchemaError::DuplicateFieldId(index)));
        }
        let declaration = FieldDeclaration {
            name: owned(field.name.as_str()),
            id,
            rust_type: owned(field.rust_type.as_str()),
            merge,
        };
        let ghost shown = declaration@;
        parsed.push(declaration);
        ids.push(field_number);
        proof {
            assert(super::declaration_views(parsed@) =~= before.push(shown));
            assert(ids@ =~= field_ids(super::declaration_views(parsed@)));
        }
        index += 1;
    }
    assert(views.take(views.len() as int) =~= views);
    Ok(parsed)
}

proof fn lemma_declared_fields_are_accepted(fields: Seq<FieldInputView>)
    requires
        declared_fields(fields) is Ok,
    ensures
        declared_fields(fields)->Ok_0.len() == fields.len(),
        fields_refusal(declared_fields(fields)->Ok_0, fields.len()) is None,
    decreases fields.len(),
{
    if fields.len() > 0 {
        let shorter = fields.drop_last();
        lemma_declared_fields_are_accepted(shorter);
        let before = declared_fields(shorter)->Ok_0;
        let all = declared_fields(fields)->Ok_0;
        let last = before.len() as int;
        assert(all.take(last) =~= before);
        lemma_refusal_of_prefix(before, all, before.len());
        assert(field_ids(all).take(last) =~= field_ids(before));
        assert(field_refusal(all, last) is None);
    }
}

proof fn lemma_refusal_of_prefix(
    before: Seq<DeclarationView>,
    all: Seq<DeclarationView>,
    len: nat,
)
    requires
        len <= before.len() <= all.len(),
        all.take(before.len() as int) == before,
    ensures
        fields_refusal(all, len) == fields_refusal(before, len),
    decreases len,
{
    if len > 0 {
        lemma_refusal_of_prefix(before, all, (len - 1) as nat);
        let last = len - 1;
        assert(all[last] == before[last]) by {
            assert(all.take(before.len() as int)[last] == before[last]);
        }
        assert(field_ids(all).take(last) =~= field_ids(before).take(last)) by {
            assert forall|i: int| 0 <= i < last implies field_ids(all)[i] == field_ids(before)[i] by {
                assert(all.take(before.len() as int)[i] == before[i]);
            }
        }
    }
}

/// The durable metadata of a document.
#[derive(Debug, PartialEq, Eq)]
pub struct ExpandedDocument {
    /// Stable logical name of the document type.
    pub name: String,
    /// Application-controlled schema version.
    pub version: u32,
    /// Deterministic fingerprint.
    pub fingerprint: u64,
    /// Field identities in order.
    pub ids: Vec<u32>,
    /// Positions of the merged fields.
    pub merged: Vec<usize>,
}

impl DocumentInput {
    /// The name, version and fields that the declaration gives, or why it is
    /// refused.
    pub open spec fn declared(self) -> Result<
        (Seq<char>, u32, Seq<DeclarationView>),
        DocumentError,
    > {
        match container_of(self.ident@, option_views(self.options@)) {
            Err(error) => Err(error),
            Ok((name, version)) => if name.len() == 0 {
                Err(DocumentError::Schema(SchemaError::EmptyName))
            } else {
                match self.data {
                    DeclaredData::NotAStruct => Err(DocumentError::NotAStruct),
                    DeclaredData::OtherStruct => Err(DocumentError::UnnamedFields),
                    DeclaredData::NamedFields(fields) => match declared_fields(
                        input_views(fields@),
                    ) {
                        Err(error) => Err(error),
                        Ok(declared) => Ok((name, version, declared)),
                    },
                }
            },
        }
    }
}

/// Derives a document's durable metadata from its declaration.
pub fn expand_document(input: &DocumentInput) -> (expanded: Result<ExpandedDocument, DocumentError>)
    ensures
        match expanded {
            Ok(expanded) => {
                &&& input.declared() matches Ok((name, version, fields))
                &&& expanded.name@ == name
                &&& expanded.version == version
                &&& expanded.fingerprint == fingerprint_of(name, version, fields)
                &&& expanded.ids@ == field_ids(fields)
                &&& expanded.merged@ == merged_positions(fields, fields.len())
            },
            Err(error) => input.declared() == Err::<
                (Seq<char>, u32, Seq<DeclarationView>),
                DocumentError,
            >(error),
        },
{
    let (name, version) = match parse_container(input.ident.as_str(), &input.options) {
        Ok(container) => container,
        Err(error) => {
            return Err(error);
        },
    };
    if name.as_str().is_empty() {
        return Err(DocumentError::Schema(SchemaError::EmptyName));
    }
    let fields = match &input.data {
        DeclaredData::NotAStruct => {
            return Err(DocumentError::NotAStruct);
        },
        DeclaredData::OtherStruct => {
            return Err(DocumentError::UnnamedFields);
        },
        DeclaredData::NamedFields(fields) => fields,
    };
    let declared = match parse_fields(fields) {
        Ok(declared) => declared,
        Err(error) => {
            return Err(error);
        },
    };
    proof {
        lemma_declared_fields_are_accepted(input_views(fields@));
    }
    match describe(name.as_str(), version, &declared) {
        Ok(described) => Ok(
            ExpandedDocument {
                name,
                version,
                fingerprint: described.fingerprint,
                ids: described.ids,
                merged: described.merged,
            },
        ),
        Err(error) => Err(DocumentError::Schema(error)),
    }
}

/// The identities of an expanded document's fields are non-zero and pairwise
/// different.
pub proof fn law_expanded_identities_are_distinct(fields: Seq<FieldInputView>)
    requires
        declared_fields(fields) is Ok,
    ensures
        ({
            let ids = field_ids(declared_fields(fields)->Ok_0);
            &&& forall|i: int| 0 <= i < fields.len() ==> #[trigger] ids[i] != 0
            &&& forall|i: int, j: int|
                0 <= i < j < fields.len() ==> #[trigger] ids[i] != #[trigger] ids[j]
        }),
{
    lemma_declared_fields_are_accepted(fields);
    super::law_field_ids_are_distinct(declared_fields(fields)->Ok_0, fields.len());
}

/// A container has its default name and the first version until an option says
/// otherwise: a name takes a text, a version takes a number, the last one
/// counts, and any other option is refused, as is everything after it.
pub proof fn law_container_options_are_exact(
    default_name: Seq<char>,
    options: Seq<OptionView>,
    option: OptionView,
)
    ensures
        container_of(default_name, Seq::empty()) == Ok::<(Seq<char>, u32), DocumentError>(
            (default_name, 1),
        ),
        container_of(default_name, options) is Err ==> container_of(
            default_name,
            options.push(option),
        ) is Err,
        container_of(default_name, options) matches Ok((name, version)) ==> {
            let after = container_of(default_name, options.push(option));
            &&& after is Ok <==> (option.key == "name"@ && option.value is Text) || (option.key
                == "version"@ && option.value is Number)
            &&& option.key == "name"@ ==> (option.value matches ValueView::Text(text)
                ==> after == Ok::<(Seq<char>, u32), DocumentError>((text, version)))
            &&& option.key == "version"@ ==> (option.value matches ValueView::Number(number)
                ==> after == Ok::<(Seq<char>, u32), DocumentError>((name, number)))
        },
{
    reveal_strlit("name");
    reveal_strlit("version");
    assert("name"@.len() != "version"@.len());
    assert(options.push(option).drop_last() =~= options);
}

/// A field has no identity of its own and is not merged until an option says
/// otherwise: an identity takes a number, a merge mark takes none, the last
/// identity counts, and any other option is refused, as is everything after it.
pub proof fn law_field_options_are_exact(
    options: Seq<OptionView>,
    option: OptionView,
    at: usize,
)
    ensures
        field_options(Seq::empty(), at) == Ok::<(Option<u32>, bool), DocumentError>((None, false)),
        field_options(options, at) is Err ==> field_options(options.push(option), at) is Err,
        field_options(options, at) matches Ok((id, merge)) ==> {
            let after = field_options(options.push(option), at);
            &&& after is Ok <==> (option.key == "id"@ && option.value is Number) || (option.key
                == "merge"@ && option.value is Missing)
            &&& option.key == "id"@ ==> (option.value matches ValueView::Number(number)
                ==> after == Ok::<(Option<u32>, bool), DocumentError>((Some(number), merge)))
            &&& option.key == "merge"@ && option.value is Missing ==> after == Ok::<
                (Option<u32>, bool),
                DocumentError,
            >((id, true))
        },
{
    reveal_strlit("id");
    reveal_strlit("merge");
    assert("id"@.len() != "merge"@.len());
    assert(options.push(option).drop_last() =~= options);
}

/// Every declared field has the name and the type that it was written with, and
/// the identity and the merge mark of its own options.
pub proof fn law_fields_are_declared_as_written(fields: Seq<FieldInputView>, i: int)
    requires
        declared_fields(fields) is Ok,
        0 <= i < fields.len() <= usize::MAX,
    ensures
        ({
            let declared = declared_fields(fields)->Ok_0;
            &&& declared.len() == fields.len()
            &&& declared[i].name == fields[i].name
            &&& declared[i].rust_type == fields[i].rust_type
            &&& field_options(fields[i].options, i as usize) == Ok::<
                (Option<u32>, bool),
                DocumentError,
            >((declared[i].id, declared[i].merge))
        }),
    decreases fields.len(),
{
    reveal_with_fuel(declared_fields, 2);
    let shorter = fields.drop_last();
    if i < shorter.len() {
        law_fields_are_declared_as_written(shorter, i);
        assert(shorter[i] == fields[i]);
    } else if shorter.len() > 0 {
        law_fields_are_declared_as_written(shorter, 0);
    }
    assert(i == shorter.len() ==> fields[i] == fields.last());
}

/// A document is declared exactly where its options are accepted, its name is
/// not empty, and it is a structure with named fields that can be declared; it
/// then has that name, that version and those fields.
pub proof fn law_document_is_declared_exactly(
    input: DocumentInput,
    fields: Vec<FieldInput>,
    name: Seq<char>,
    version: u32,
)
    requires
        container_of(input.ident@, option_views(input.options@)) == Ok::<
            (Seq<char>, u32),
            DocumentError,
        >((name, version)),
    ensures
        name.len() == 0 ==> input.declared() == Err::<
            (Seq<char>, u32, Seq<DeclarationView>),
            DocumentError,
        >(DocumentError::Schema(SchemaError::EmptyName)),
        name.len() > 0 && input.data is NotAStruct ==> input.declared() == Err::<
            (Seq<char>, u32, Seq<DeclarationView>),
            DocumentError,
        >(DocumentError::NotAStruct),
        name.len() > 0 && input.data is OtherStruct ==> input.declared() == Err::<
            (Seq<char>, u32, Seq<DeclarationView>),
            DocumentError,
        >(DocumentError::UnnamedFields),
        name.len() > 0 && input.data == DeclaredData::NamedFields(fields) ==> (
        input.declared() is Ok <==> declared_fields(input_views(fields@)) is Ok),
        name.len() > 0 && input.data == DeclaredData::NamedFields(fields) && declared_fields(
            input_views(fields@),
        ) is Ok ==> input.declared() == Ok::<
            (Seq<char>, u32, Seq<DeclarationView>),
            DocumentError,
        >((name, version, declared_fields(input_views(fields@))->Ok_0)),
{
}

/// Fields are declared one after another, each with an identity that is not zero
/// and that none before it has.
pub proof fn law_fields_are_declared_exactly(
    fields: Seq<FieldInputView>,
    field: FieldInputView,
    id: Option<u32>,
    merge: bool,
)
    requires
        declared_fields(fields) is Ok,
        field_options(field.options, declared_fields(fields)->Ok_0.len() as usize) == Ok::<
            (Option<u32>, bool),
            DocumentError,
        >((id, merge)),
    ensures
        ({
            let declared = declared_fields(fields)->Ok_0;
            let number = match id {
                Some(number) => number,
                None => stable_id(field.name),
            };
            let after = declared_fields(fields.push(field));
            &&& after is Ok <==> number != 0 && forall|i: int|
                0 <= i < declared.len() ==> field_id(#[trigger] declared[i]) != number
            &&& after is Ok ==> after->Ok_0.drop_last() == declared && after->Ok_0.last().name
                == field.name && after->Ok_0.last().id == id && after->Ok_0.last().rust_type
                == field.rust_type && after->Ok_0.last().merge == merge
        }),
{
    let declared = declared_fields(fields)->Ok_0;
    let number = match id {
        Some(number) => number,
        None => stable_id(field.name),
    };
    assert(fields.push(field).drop_last() =~= fields);
    if field_ids(declared).contains(number) {
        let i = choose|i: int| 0 <= i < field_ids(declared).len() && field_ids(declared)[i] == number;
        assert(field_id(declared[i]) == number);
    } else {
        assert forall|i: int| 0 <= i < declared.len() implies field_id(#[trigger] declared[i])
            != number by {
            assert(field_ids(declared)[i] == field_id(declared[i]));
        }
    }
    if declared_fields(fields.push(field)) is Ok {
        assert(declared_fields(fields.push(field))->Ok_0.drop_last() =~= declared);
    }
}

} // verus!
