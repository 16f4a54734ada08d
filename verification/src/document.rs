//! Documents of the catalog's store, as far as a module is read from them.

use vstd::prelude::*;

verus! {

/// `bson::Document`: a document of the store. Verified code carries it and
/// learns what it holds only through `document_get`.
#[verifier::external_type_specification]
#[verifier::external_body]
pub struct ExDocument(bson::Document);

/// What a document holds under one key, as far as a module needs it. The
/// members of an array are held as the texts that the store's own rendering
/// gives them.
pub enum Field {
    Int64(i64),
    Int32(i32),
    Text(String),
    List(Vec<String>),
    Other,
}

/// The mathematical value of a `Field`.
pub enum FieldView {
    Int64(i64),
    Int32(i32),
    Text(Seq<char>),
    List(Seq<Seq<char>>),
    Other,
}

impl View for Field {
    type V = FieldView;

    open spec fn view(&self) -> FieldView {
        match self {
            Field::Int64(number) => FieldView::Int64(*number),
            Field::Int32(number) => FieldView::Int32(*number),
            Field::Text(text) => FieldView::Text(text@),
            Field::List(members) => FieldView::List(
                Seq::new(members@.len(), |i: int| members@[i]@),
            ),
            Field::Other => FieldView::Other,
        }
    }
}

/// What a `bson::Document` holds: under each of its keys, the value as
/// `document_get` hands it out.
pub uninterp spec fn document_fields(document: bson::Document) -> Map<Seq<char>, FieldView>;

/// Looks `key` up with `bson::Document::get`. A 64-bit integer, a 32-bit
/// integer and a string come back as they are, an array with each member
/// rendered by `Bson`'s `Display`, and any other value as `Other`. The
/// contract claims that this is what `document_fields` has under `key`, and
/// that there is nothing where it has nothing.
#[verifier::external_body]
pub(crate) fn document_get(document: &bson::Document, key: &str) -> (field: Option<Field>)
    ensures
        match field {
            Some(field) => document_fields(*document).contains_key(key@) && field@
                == document_fields(*document)[key@],
            None => !document_fields(*document).contains_key(key@),
        },
{
    match document.get(key) {
        Some(bson::Bson::Int64(number)) => Some(Field::Int64(*number)),
        Some(bson::Bson::Int32(number)) => Some(Field::Int32(*number)),
        Some(bson::Bson::String(text)) => Some(Field::Text(text.clone())),
        Some(bson::Bson::Array(members)) => Some(
            Field::List(members.iter().map(|member| member.to_string()).collect()),
        ),
        Some(_) => Some(Field::Other),
        None => None,
    }
}

} // verus!
