//! JSON documents: the boundary to `serde_json`.
//!
//! Documents stay `serde_json::Value`s. What one holds is the tree `json_view`,
//! and each function here says over that tree what the call it makes does.

use vstd::prelude::*;

verus! {

/// `serde_json::Value`, a JSON document.
#[verifier::external_type_specification]
#[verifier::external_body]
pub struct ExValue(serde_json::Value);

/// `serde_json::Map`, the members of a JSON object.
#[verifier::external_type_specification]
#[verifier::external_body]
#[verifier::reject_recursive_types(K)]
#[verifier::reject_recursive_types(V)]
pub struct ExObject<K, V>(serde_json::Map<K, V>);

/// A JSON document as a tree. A number is the text that it is written as, and
/// the members of an object stand in the order in which the object is walked.
pub enum JsonView {
    Null,
    Bool(bool),
    Number(Seq<char>),
    Text(Seq<char>),
    Array(Seq<JsonView>),
    Object(Seq<(Seq<char>, JsonView)>),
}

/// The tree that a `serde_json::Value` holds.
pub uninterp spec fn json_view(v: serde_json::Value) -> JsonView;

/// The members that a `serde_json::Map` holds, in the order in which
/// `serde_json::Map::iter` walks them.
pub uninterp spec fn object_view(
    o: serde_json::Map<String, serde_json::Value>,
) -> Seq<(Seq<char>, JsonView)>;

/// What `serde_json::from_str` reads from a text, where the text is JSON.
pub uninterp spec fn json_text(text: Seq<char>) -> Option<JsonView>;

/// The text that a document is displayed as: JSON without white space.
pub uninterp spec fn json_display(v: JsonView) -> Seq<char>;

/// The text that `serde_json::to_string_pretty` writes: JSON over several
/// lines.
pub uninterp spec fn json_pretty_display(v: JsonView) -> Seq<char>;

/// The trees of a sequence of documents.
pub open spec fn json_views(a: Seq<serde_json::Value>) -> Seq<JsonView> {
    Seq::new(a.len(), |i: int| json_view(a[i]))
}

/// The member of an object under a key.
pub open spec fn member(o: Seq<(Seq<char>, JsonView)>, key: Seq<char>) -> Option<JsonView>
    decreases o.len(),
{
    if o.len() == 0 {
        None
    } else if o.first().0 == key {
        Some(o.first().1)
    } else {
        member(o.drop_first(), key)
    }
}

/// A document seen through its outermost layer.
pub enum JsonRef<'a> {
    Null,
    Bool(bool),
    Number,
    Text(&'a String),
    Array(&'a Vec<serde_json::Value>),
    Object(&'a serde_json::Map<String, serde_json::Value>),
}

/// Tells the variants of a `serde_json::Value` apart and borrows what the
/// variant holds: the elements of an array are its trees in order, the members
/// of an object are those of its map.
#[verifier::external_body]
pub(crate) fn json_ref<'a>(v: &'a serde_json::Value) -> (r: JsonRef<'a>)
    ensures
        match r {
            JsonRef::Null => json_view(*v) == JsonView::Null,
            JsonRef::Bool(b) => json_view(*v) == JsonView::Bool(b),
            JsonRef::Number => json_view(*v) is Number,
            JsonRef::Text(s) => json_view(*v) == JsonView::Text(s@),
            JsonRef::Array(a) => json_view(*v) == JsonView::Array(json_views(a@)),
            JsonRef::Object(o) => json_view(*v) == JsonView::Object(object_view(*o)),
        },
{
    match v {
        serde_json::Value::Null => JsonRef::Null,
        serde_json::Value::Bool(b) => JsonRef::Bool(*b),
        serde_json::Value::Number(_) => JsonRef::Number,
        serde_json::Value::String(s) => JsonRef::Text(s),
        serde_json::Value::Array(a) => JsonRef::Array(a),
        serde_json::Value::Object(o) => JsonRef::Object(o),
    }
}

/// Calls `serde_json::from_str`: the document that the text writes, or `None`
/// where the text is not JSON.
#[verifier::external_body]
pub(crate) fn parse_json(text: &str) -> (r: Option<serde_json::Value>)
    ensures
        match r {
            Some(v) => json_text(text@) == Some(json_view(v)),
            None => json_text(text@) is None,
        },
{
    serde_json::from_str(text).ok()
}

/// Builds `serde_json::Value::String`: a document that is one text.
#[verifier::external_body]
pub(crate) fn json_string(s: String) -> (v: serde_json::Value)
    ensures
        json_view(v) == JsonView::Text(s@),
{
    serde_json::Value::String(s)
}

/// Builds `serde_json::Value::Array`: a document with the given elements.
#[verifier::external_body]
pub(crate) fn json_array(a: Vec<serde_json::Value>) -> (v: serde_json::Value)
    ensures
        json_view(v) == JsonView::Array(json_views(a@)),
{
    serde_json::Value::Array(a)
}

/// Builds `serde_json::Value::Object`: a document with the given members.
#[verifier::external_body]
pub(crate) fn json_object(o: serde_json::Map<String, serde_json::Value>) -> (v: serde_json::Value)
    ensures
        json_view(v) == JsonView::Object(object_view(o)),
{
    serde_json::Value::Object(o)
}

/// Calls `clone` on a document: the copy holds the same tree.
#[verifier::external_body]
pub(crate) fn json_clone(v: &serde_json::Value) -> (r: serde_json::Value)
    ensures
        json_view(r) == json_view(*v),
{
    v.clone()
}

/// Calls `serde_json::Map::get`: the member under a key.
#[verifier::external_body]
pub(crate) fn object_get<'a>(
    o: &'a serde_json::Map<String, serde_json::Value>,
    key: &str,
) -> (r: Option<&'a serde_json::Value>)
    ensures
        match r {
            Some(v) => member(object_view(*o), key@) == Some(json_view(*v)),
            None => member(object_view(*o), key@) is None,
        },
{
    o.get(key)
}

/// Calls `serde_json::Map::iter`: hands out the members in their order.
#[verifier::external_body]
pub(crate) fn object_entries<'a>(
    o: &'a serde_json::Map<String, serde_json::Value>,
) -> (r: Vec<(&'a String, &'a serde_json::Value)>)
    ensures
        r@.len() == object_view(*o).len(),
        forall|i: int|
            0 <= i < r@.len() ==> object_view(*o)[i] == ((#[trigger] r@[i]).0@, json_view(*r@[i].1)),
{
    o.iter().collect()
}

/// Calls `clone` on the members of an object: the copy holds the same members
/// in the same order.
#[verifier::external_body]
pub(crate) fn object_clone(
    o: &serde_json::Map<String, serde_json::Value>,
) -> (r: serde_json::Map<String, serde_json::Value>)
    ensures
        object_view(r) == object_view(*o),
{
    o.clone()
}

/// Calls `serde_json::Map::insert` with a key that is there: the member under
/// the key takes the new value and keeps its place.
#[verifier::external_body]
pub(crate) fn object_replace(
    o: &mut serde_json::Map<String, serde_json::Value>,
    key: String,
    v: serde_json::Value,
)
    requires
        member(object_view(*old(o)), key@) is Some,
    ensures
        forall|i: int|
            0 <= i < object_view(*old(o)).len() && object_view(*old(o))[i].0 == key@
                ==> object_view(*final(o)) == #[trigger] object_view(*old(o)).update(
                i,
                (key@, json_view(v)),
            ),
{
    o.insert(key, v);
}

/// Displays a document with `to_string`: its JSON text without white space. A
/// number is the text that it is written as; `null`, `true` and `false` are
/// themselves.
#[verifier::external_body]
pub(crate) fn json_to_string(v: &serde_json::Value) -> (r: String)
    ensures
        r@ == json_display(json_view(*v)),
        json_view(*v) == JsonView::Null ==> r@ == "null"@,
        json_view(*v) == JsonView::Bool(true) ==> r@ == "true"@,
        json_view(*v) == JsonView::Bool(false) ==> r@ == "false"@,
        json_view(*v) matches JsonView::Number(n) ==> r@ == n,
{
    v.to_string()
}

/// Calls `serde_json::to_string_pretty`, which does not fail on a document.
#[verifier::external_body]
pub(crate) fn json_to_string_pretty(v: &serde_json::Value) -> (r: String)
    ensures
        r@ == json_pretty_display(json_view(*v)),
{
    serde_json::to_string_pretty(v).unwrap_or_default()
}

/// An object gives under a key what its first member with that key holds, and
/// nothing where there is none.
pub proof fn law_members_are_found_by_their_key(
    o: Seq<(Seq<char>, JsonView)>,
    key: Seq<char>,
    i: int,
)
    ensures
        0 <= i < o.len() && o[i].0 == key && (forall|j: int|
            0 <= j < i ==> (#[trigger] o[j]).0 != key) ==> member(o, key) == Some(o[i].1),
        member(o, key) is None <==> forall|j: int|
            0 <= j < o.len() ==> (#[trigger] o[j]).0 != key,
    decreases o.len(),
{
    if o.len() > 0 {
        let rest = o.drop_first();
        law_members_are_found_by_their_key(rest, key, i - 1);
        assert(o[0] == o.first());
        assert forall|j: int| 0 <= j < rest.len() implies #[trigger] rest[j] == o[j + 1] by {}
        if 0 < i < o.len() && (forall|j: int| 0 <= j < i ==> (#[trigger] o[j]).0 != key) {
            assert(o[0].0 != key);
            assert(rest[i - 1] == o[i]);
            assert forall|j: int| 0 <= j < i - 1 implies (#[trigger] rest[j]).0 != key by {
                assert(rest[j] == o[j + 1]);
            }
        }
        if member(o, key) is None {
            assert forall|j: int| 0 <= j < o.len() implies (#[trigger] o[j]).0 != key by {
                if j > 0 {
                    assert(rest[j - 1] == o[j]);
                }
            }
        } else if forall|j: int| 0 <= j < o.len() ==> (#[trigger] o[j]).0 != key {
            assert forall|j: int| 0 <= j < rest.len() implies (#[trigger] rest[j]).0 != key by {
                assert(rest[j] == o[j + 1]);
            }
        }
    }
}

} // verus!
