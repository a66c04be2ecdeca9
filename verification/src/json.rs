//! JSON documents: what a patch holds and what an operation reports.
use vstd::prelude::*;

verus! {

/// A JSON document.
#[derive(Debug, PartialEq, Eq)]
pub enum Json {
    Null,
    Bool(bool),
    /// A whole number.
    Number(u64),
    /// Any other number, by its text.
    Real(String),
    Text(String),
    List(Vec<Json>),
    /// Values by key, each key once and in code point order.
    Object(Vec<(String, Json)>),
}

/// A document with its texts.
#[verifier::ext_equal]
pub enum JsonView {
    Null,
    Bool(bool),
    Number(u64),
    Real(Seq<char>),
    Text(Seq<char>),
    List(Seq<JsonView>),
    Object(Seq<(Seq<char>, JsonView)>),
}

/// The texts and documents of the fields of an object.
pub open spec fn fields_doc(fields: Seq<(String, Json)>) -> Seq<(Seq<char>, JsonView)> {
    fields.map_values(|f: (String, Json)| (f.0@, f.1.doc()))
}

/// The documents of a list.
pub open spec fn list_doc(list: Seq<Json>) -> Seq<JsonView> {
    list.map_values(|j: Json| j.doc())
}

/// One more field.
pub fn put(fields: &mut Vec<(String, Json)>, key: &str, value: Json)
    ensures
        fields_doc(final(fields)@) == fields_doc(old(fields)@).push((key@, value.doc())),
{
    let ghost earlier = fields@;
    let ghost last = value.doc();
    fields.push((key.to_owned(), value));
    assert(fields_doc(fields@) =~= fields_doc(earlier).push((key@, last)));
}

/// An object with the fields.
pub fn object(fields: Vec<(String, Json)>) -> (r: Json)
    ensures
        r.doc() == JsonView::Object(fields_doc(fields@)),
{
    let r = Json::Object(fields);
    assert(r.doc()->Object_0 =~= fields_doc(fields@));
    r
}

/// A list with the items.
pub fn list(items: Vec<Json>) -> (r: Json)
    ensures
        r.doc() == JsonView::List(list_doc(items@)),
{
    let r = Json::List(items);
    assert(r.doc()->List_0 =~= list_doc(items@));
    r
}

impl Json {
    /// The document with its texts.
    pub open spec fn doc(self) -> JsonView
        decreases self,
    {
        match self {
            Json::Null => JsonView::Null,
            Json::Bool(b) => JsonView::Bool(b),
            Json::Number(n) => JsonView::Number(n),
            Json::Real(text) => JsonView::Real(text@),
            Json::Text(text) => JsonView::Text(text@),
            Json::List(list) => JsonView::List(
                Seq::new(
                    list@.len(),
                    |i: int|
                        if 0 <= i < list@.len() {
                            list@[i].doc()
                        } else {
                            JsonView::Null
                        },
                ),
            ),
            Json::Object(fields) => JsonView::Object(
                Seq::new(
                    fields@.len(),
                    |i: int|
                        if 0 <= i < fields@.len() {
                            (fields@[i].0@, fields@[i].1.doc())
                        } else {
                            (Seq::empty(), JsonView::Null)
                        },
                ),
            ),
        }
    }
}

} // verus!
