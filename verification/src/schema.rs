//! Durable schema identity of typed documents.

pub mod document;

use crate::bytes::{be, be_u32};
use vstd::prelude::*;
use vstd::string::*;
use vstd::utf8::encode_utf8;

verus! {

/// The version of the durable format.
pub const STORAGE_VERSION: u32 = 1;

/// The durable schema identity of a typed document.
#[derive(Clone, Copy, Debug, PartialEq, Eq)]
pub struct Schema {
    /// Stable logical name of the document type.
    pub name: &'static str,
    /// Application-controlled schema version.
    pub version: u32,
    /// Deterministic fingerprint of field IDs, names, and Rust type tokens.
    pub fingerprint: u64,
    /// Fields known by this schema version.
    pub fields: &'static [FieldSchema],
}

/// Durable metadata for one document field.
#[derive(Clone, Copy, Debug, PartialEq, Eq)]
pub struct FieldSchema {
    /// Stable numeric field identity.
    pub id: u32,
    /// Current source-level field name.
    pub name: &'static str,
    /// Rust type tokens used for development-time compatibility checks.
    pub rust_type: &'static str,
}

/// One declared field of a document.
#[derive(Debug, PartialEq, Eq)]
pub struct FieldDeclaration {
    /// Source-level field name.
    pub name: String,
    /// Explicit field identity, where one is declared.
    pub id: Option<u32>,
    /// Rust type tokens.
    pub rust_type: String,
    /// Whether concurrent values of the field are merged.
    pub merge: bool,
}

/// What a [`FieldDeclaration`] says.
#[verifier::ext_equal]
pub struct DeclarationView {
    /// Source-level field name.
    pub name: Seq<char>,
    /// Explicit field identity.
    pub id: Option<u32>,
    /// Rust type tokens.
    pub rust_type: Seq<char>,
    /// Whether concurrent values of the field are merged.
    pub merge: bool,
}

impl View for FieldDeclaration {
    type V = DeclarationView;

    open spec fn view(&self) -> DeclarationView {
        DeclarationView {
            name: self.name@,
            id: self.id,
            rust_type: self.rust_type@,
            merge: self.merge,
        }
    }
}

/// Why a document declaration is refused.
#[derive(Clone, Copy, Debug, PartialEq, Eq, Structural)]
pub enum SchemaError {
    /// The schema name is empty.
    EmptyName,
    /// The field at this position has the identity zero.
    ZeroFieldId(usize),
    /// The field at this position has the identity of an earlier one.
    DuplicateFieldId(usize),
}

impl SchemaError {
    /// Returns the human-readable reason.
    pub fn message(self) -> (message: &'static str)
        ensures
            message@ == match self {
                SchemaError::EmptyName => "schema name cannot be empty"@,
                SchemaError::ZeroFieldId(_) => "field ID must be non-zero"@,
                SchemaError::DuplicateFieldId(_) => "duplicate Cyrene field ID"@,
            },
    {
        match self {
            SchemaError::EmptyName => "schema name cannot be empty",
            SchemaError::ZeroFieldId(_) => "field ID must be non-zero",
            SchemaError::DuplicateFieldId(_) => "duplicate Cyrene field ID",
        }
    }
}

/// The 64-bit FNV-1a hash of bytes, begun from a hash.
pub open spec fn fnv1a_from(hash: u64, bytes: Seq<u8>) -> u64
    decreases bytes.len(),
{
    if bytes.len() == 0 {
        hash
    } else {
        (fnv1a_from(hash, bytes.drop_last()) ^ (bytes.last() as u64)).wrapping_mul(
            0x0000_0100_0000_01b3,
        )
    }
}

/// The hash of no bytes.
pub const FNV_OFFSET: u64 = 0xcbf2_9ce4_8422_2325;

/// Hashes bytes with 64-bit FNV-1a.
pub fn fnv1a(bytes: &[u8]) -> (hash: u64)
    ensures
        hash == fnv1a_from(FNV_OFFSET, bytes@),
{
    fnv1a_extend(FNV_OFFSET, bytes)
}

/// Continues a 64-bit FNV-1a hash.
pub fn fnv1a_extend(hash: u64, bytes: &[u8]) -> (extended: u64)
    ensures
        extended == fnv1a_from(hash, bytes@),
{
    let mut current: u64 = hash;
    let mut index: usize = 0;
    assert(bytes@.take(0) =~= Seq::<u8>::empty());
    while index < bytes.len()
        invariant
            index <= bytes@.len(),
            current == fnv1a_from(hash, bytes@.take(index as int)),
        decreases bytes@.len() - index,
    {
        assert(bytes@.take(index + 1).drop_last() =~= bytes@.take(index as int));
        current = (current ^ (bytes[index] as u64)).wrapping_mul(0x0000_0100_0000_01b3);
        index += 1;
    }
    assert(bytes@.take(bytes@.len() as int) =~= bytes@);
    current
}

/// The identity of a field that declares none: its name's hash, folded to 32
/// bits, and never zero.
pub open spec fn stable_id(name: Seq<char>) -> u32 {
    let hash = fnv1a_from(FNV_OFFSET, encode_utf8(name));
    let folded = ((hash / 0x1_0000_0000) as u32) ^ ((hash % 0x1_0000_0000) as u32);
    if folded == 0 {
        1
    } else {
        folded
    }
}

/// Derives a field identity from the field's initial source name.
pub fn stable_field_id(name: &str) -> (id: u32)
    ensures
        id == stable_id(name@),
        id != 0,
{
    let hash: u64 = fnv1a(name.as_bytes());
    let folded: u32 = ((hash / 0x1_0000_0000) as u32) ^ ((hash % 0x1_0000_0000) as u32);
    if folded == 0 {
        1
    } else {
        folded
    }
}

/// What a sequence of declarations says.
pub open spec fn declaration_views(fields: Seq<FieldDeclaration>) -> Seq<DeclarationView> {
    fields.map_values(|field: FieldDeclaration| field@)
}

/// The identity of a declared field.
pub open spec fn field_id(field: DeclarationView) -> u32 {
    match field.id {
        Some(id) => id,
        None => stable_id(field.name),
    }
}

/// The identities of declared fields.
pub open spec fn field_ids(fields: Seq<DeclarationView>) -> Seq<u32> {
    fields.map_values(|field: DeclarationView| field_id(field))
}

/// Why a field is refused after those before it.
pub open spec fn field_refusal(fields: Seq<DeclarationView>, index: int) -> Option<SchemaError> {
    let id = field_id(fields[index]);
    if id == 0 {
        Some(SchemaError::ZeroFieldId(index as usize))
    } else if field_ids(fields).take(index).contains(id) {
        Some(SchemaError::DuplicateFieldId(index as usize))
    } else {
        None
    }
}

/// Why declared fields are refused: the first field that is.
pub open spec fn fields_refusal(fields: Seq<DeclarationView>, len: nat) -> Option<SchemaError>
    decreases len,
{
    if len == 0 {
        None
    } else {
        match fields_refusal(fields, (len - 1) as nat) {
            Some(error) => Some(error),
            None => field_refusal(fields, len - 1),
        }
    }
}

/// The hash of declared fields, begun from a hash: of each field its identity
/// in four big-endian bytes, its name and its type.
pub open spec fn fields_hash(hash: u64, fields: Seq<DeclarationView>) -> u64
    decreases fields.len(),
{
    if fields.len() == 0 {
        hash
    } else {
        let before = fields_hash(hash, fields.drop_last());
        let field = fields.last();
        fnv1a_from(
            fnv1a_from(
                fnv1a_from(before, be(field_id(field) as nat, 4)),
                encode_utf8(field.name),
            ),
            encode_utf8(field.rust_type),
        )
    }
}

/// The deterministic fingerprint of a document declaration.
pub open spec fn fingerprint_of(name: Seq<char>, version: u32, fields: Seq<DeclarationView>) -> u64 {
    fields_hash(
        fnv1a_from(fnv1a_from(FNV_OFFSET, encode_utf8(name)), be(version as nat, 4)),
        fields,
    )
}

/// Why a document declaration is refused.
pub open spec fn declaration_refusal(name: Seq<char>, fields: Seq<DeclarationView>) -> Option<
    SchemaError,
> {
    if name.len() == 0 {
        Some(SchemaError::EmptyName)
    } else {
        fields_refusal(fields, fields.len())
    }
}

/// The schema that a declaration describes.
#[derive(Debug, PartialEq, Eq)]
pub struct DescribedSchema {
    /// Field identities in order.
    pub ids: Vec<u32>,
    /// Deterministic fingerprint.
    pub fingerprint: u64,
    /// Positions of the merged fields.
    pub merged: Vec<usize>,
}

/// The positions of the merged fields among the first ones.
pub open spec fn merged_positions(fields: Seq<DeclarationView>, len: nat) -> Seq<usize>
    decreases len,
{
    if len == 0 {
        Seq::empty()
    } else {
        let before = merged_positions(fields, (len - 1) as nat);
        if fields[len - 1].merge {
            before.push((len - 1) as usize)
        } else {
            before
        }
    }
}

proof fn lemma_first_refusal(fields: Seq<DeclarationView>, len: nat, more: nat)
    requires
        len <= more,
        fields_refusal(fields, len) is Some,
    ensures
        fields_refusal(fields, more) == fields_refusal(fields, len),
    decreases more,
{
    if len < more {
        lemma_first_refusal(fields, len, (more - 1) as nat);
    }
}

pub(crate) fn contains_id(ids: &Vec<u32>, id: u32) -> (found: bool)
    ensures
        found == ids@.contains(id),
{
    let mut index: usize = 0;
    while index < ids.len()
        invariant
            index <= ids@.len(),
            forall|i: int| 0 <= i < index ==> ids@[i] != id,
        decreases ids@.len() - index,
    {
        if ids[index] == id {
            assert(ids@[index as int] == id);
            return true;
        }
        index += 1;
    }
    false
}

/// Describes a document declaration, or refuses it.
pub fn describe(name: &str, version: u32, fields: &Vec<FieldDeclaration>) -> (described: Result<
    DescribedSchema,
    SchemaError,
>)
    ensures
        ({
            let declared = declaration_views(fields@);
            match described {
                Ok(schema) => {
                    &&& declaration_refusal(name@, declared) is None
                    &&& schema.ids@ == field_ids(declared)
                    &&& schema.fingerprint == fingerprint_of(name@, version, declared)
                    &&& schema.merged@ == merged_positions(declared, declared.len())
                },
                Err(error) => declaration_refusal(name@, declared) == Some(error),
            }
        }),
{
    let ghost declared = declaration_views(fields@);
    if name.is_empty() {
        return Err(SchemaError::EmptyName);
    }
    let mut ids: Vec<u32> = Vec::new();
    let mut merged: Vec<usize> = Vec::new();
    let mut fingerprint: u64 = fnv1a(name.as_bytes());
    fingerprint = fnv1a_extend(fingerprint, be_u32(version).as_slice());
    let ghost begun = fingerprint;
    let mut index: usize = 0;
    assert(declared.take(0) =~= Seq::<DeclarationView>::empty());
    while index < fields.len()
        invariant
            index <= fields@.len(),
            declared == declaration_views(fields@),
            name@.len() > 0,
            fields_refusal(declared, index as nat) is None,
            ids@ == field_ids(declared).take(index as int),
            fingerprint == fields_hash(begun, declared.take(index as int)),
            merged@ == merged_positions(declared, index as nat),
        decreases fields@.len() - index,
    {
        let field = &fields[index];
        assert(declared[index as int] == field@);
        let id: u32 = match field.id {
            Some(id) => id,
            None => stable_field_id(field.name.as_str()),
        };
        assert(id == field_id(declared[index as int]));
        if id == 0 {
            proof {
                lemma_first_refusal(declared, (index + 1) as nat, declared.len());
            }
            return Err(SchemaError::ZeroFieldId(index));
        }
        if contains_id(&ids, id) {
            proof {
                lemma_first_refusal(declared, (index + 1) as nat, declared.len());
            }
            return Err(SchemaError::DuplicateFieldId(index));
        }
        proof {
            let longer = declared.take(index + 1);
            assert(longer.drop_last() =~= declared.take(index as int));
            assert(longer.last() == declared[index as int]);
            assert(field_ids(declared).take(index + 1) =~= ids@.push(id));
        }
        fingerprint = fnv1a_extend(fingerprint, be_u32(id).as_slice());
        fingerprint = fnv1a_extend(fingerprint, field.name.as_str().as_bytes());
        fingerprint = fnv1a_extend(fingerprint, field.rust_type.as_str().as_bytes());
        ids.push(id);
        if field.merge {
            merged.push(index);
        }
        index += 1;
    }
    assert(declared.take(declared.len() as int) =~= declared);
    assert(field_ids(declared).take(declared.len() as int) =~= field_ids(declared));
    Ok(DescribedSchema { ids, fingerprint, merged })
}

/// The identities of an accepted declaration are non-zero and pairwise
/// different.
pub proof fn law_field_ids_are_distinct(fields: Seq<DeclarationView>, len: nat)
    requires
        len <= fields.len(),
        fields_refusal(fields, len) is None,
    ensures
        forall|i: int| 0 <= i < len ==> #[trigger] field_ids(fields)[i] != 0,
        forall|i: int, j: int|
            0 <= i < j < len ==> #[trigger] field_ids(fields)[i] != #[trigger] field_ids(
                fields,
            )[j],
    decreases len,
{
    if len > 0 {
        let last = len - 1;
        law_field_ids_are_distinct(fields, last as nat);
        let ids = field_ids(fields);
        assert(field_refusal(fields, last) is None);
        assert(ids[last] == field_id(fields[last]));
        assert forall|i: int| 0 <= i < last implies ids[i] != ids[last] by {
            assert(ids.take(last)[i] == ids[i]);
            assert(ids.take(last).contains(ids[i]));
        }
    }
}

/// A field with an explicit identity keeps it when it is renamed.
pub proof fn law_explicit_identity_survives_a_rename(
    field: DeclarationView,
    renamed: DeclarationView,
)
    requires
        field.id is Some,
        renamed.id == field.id,
    ensures
        field_id(renamed) == field_id(field),
{
}

/// Hashing goes on: the hash of two parts is that of the second from the hash of
/// the first, and each byte is mixed in before the multiplication.
pub proof fn law_hash_goes_on(hash: u64, first: Seq<u8>, second: Seq<u8>, byte: u8)
    ensures
        fnv1a_from(hash, Seq::empty()) == hash,
        fnv1a_from(hash, seq![byte]) == (hash ^ (byte as u64)).wrapping_mul(0x0000_0100_0000_01b3),
        fnv1a_from(hash, first + second) == fnv1a_from(fnv1a_from(hash, first), second),
    decreases second.len(),
{
    reveal_with_fuel(fnv1a_from, 2);
    assert(seq![byte].drop_last() =~= Seq::<u8>::empty());
    if second.len() == 0 {
        assert(first + second =~= first);
    } else {
        law_hash_goes_on(hash, first, second.drop_last(), byte);
        assert((first + second).drop_last() =~= first + second.drop_last());
    }
}

/// A fingerprint covers the name, the version and, of every field in order, its
/// identity, its name and its type.
pub proof fn law_fingerprint_covers_the_declaration(
    name: Seq<char>,
    version: u32,
    fields: Seq<DeclarationView>,
    field: DeclarationView,
)
    ensures
        fingerprint_of(name, version, Seq::empty()) == fnv1a_from(
            0xcbf2_9ce4_8422_2325,
            encode_utf8(name) + be(version as nat, 4),
        ),
        fingerprint_of(name, version, fields.push(field)) == fnv1a_from(
            fingerprint_of(name, version, fields),
            be(field_id(field) as nat, 4) + encode_utf8(field.name) + encode_utf8(
                field.rust_type,
            ),
        ),
{
    law_hash_goes_on(FNV_OFFSET, encode_utf8(name), be(version as nat, 4), 0);
    let before = fingerprint_of(name, version, fields);
    let id = be(field_id(field) as nat, 4);
    assert(fields.push(field).drop_last() =~= fields);
    law_hash_goes_on(before, id, encode_utf8(field.name), 0);
    law_hash_goes_on(
        before,
        id + encode_utf8(field.name),
        encode_utf8(field.rust_type),
        0,
    );
}

/// A field without an identity of its own has one that comes from its name and
/// is never zero; a field with one has that.
pub proof fn law_field_identity(field: DeclarationView)
    ensures
        field.id matches Some(id) ==> field_id(field) == id,
        field.id is None ==> field_id(field) == stable_id(field.name),
        stable_id(field.name) != 0,
{
}

/// A declaration is accepted exactly where it has a name, and every field an
/// identity that is not zero and that no other field has.
pub proof fn law_declaration_is_accepted_exactly(
    name: Seq<char>,
    fields: Seq<DeclarationView>,
)
    requires
        fields.len() <= usize::MAX,
    ensures
        declaration_refusal(name, fields) is None <==> {
            &&& name.len() > 0
            &&& forall|i: int| 0 <= i < fields.len() ==> field_id(#[trigger] fields[i]) != 0
            &&& forall|i: int, j: int|
                0 <= i < j < fields.len() ==> field_id(#[trigger] fields[i]) != field_id(
                    #[trigger] fields[j],
                )
        },
{
    lemma_fields_accepted(fields, fields.len());
}

proof fn lemma_fields_accepted(fields: Seq<DeclarationView>, len: nat)
    requires
        len <= fields.len(),
    ensures
        fields_refusal(fields, len) is None <==> {
            &&& forall|i: int| 0 <= i < len ==> field_id(#[trigger] fields[i]) != 0
            &&& forall|i: int, j: int|
                0 <= i < j < len ==> field_id(#[trigger] fields[i]) != field_id(
                    #[trigger] fields[j],
                )
        },
    decreases len,
{
    if len > 0 {
        let last = len - 1;
        lemma_fields_accepted(fields, last as nat);
        let earlier = field_ids(fields).take(last);
        let id = field_id(fields[last]);
        if earlier.contains(id) {
            let i = choose|i: int| 0 <= i < earlier.len() && earlier[i] == id;
            assert(field_id(fields[i]) == field_id(fields[last]));
        } else {
            assert forall|i: int| 0 <= i < last implies field_id(#[trigger] fields[i]) != id by {
                assert(earlier[i] == field_id(fields[i]));
            }
        }
    }
}

/// The merged fields are those that are declared so, in order.
pub proof fn law_merged_fields_are_exact(fields: Seq<DeclarationView>, len: nat, at: usize)
    requires
        len <= fields.len() <= usize::MAX,
    ensures
        merged_positions(fields, len).contains(at) <==> at < len && fields[at as int].merge,
        forall|i: int, j: int|
            0 <= i < j < merged_positions(fields, len).len() ==> #[trigger] merged_positions(
                fields,
                len,
            )[i] < #[trigger] merged_positions(fields, len)[j],
        forall|i: int|
            0 <= i < merged_positions(fields, len).len() ==> #[trigger] merged_positions(
                fields,
                len,
            )[i] < len,
    decreases len,
{
    if len > 0 {
        let last = (len - 1) as usize;
        law_merged_fields_are_exact(fields, last as nat, at);
        let before = merged_positions(fields, last as nat);
        let all = merged_positions(fields, len);
        if fields[last as int].merge {
            assert(all == before.push(last));
            if at == last {
                assert(all[before.len() as int] == at);
            } else if before.contains(at) {
                let i = choose|i: int| 0 <= i < before.len() && before[i] == at;
                assert(all[i] == at);
            } else if all.contains(at) {
                let i = choose|i: int| 0 <= i < all.len() && all[i] == at;
                assert(before[i] == at);
            }
        }
    }
}

} // verus!
