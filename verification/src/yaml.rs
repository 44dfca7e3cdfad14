//! YAML values: the boundary to `serde_yaml`.

use crate::json::{json_view, JsonView};
use vstd::prelude::*;

verus! {

/// `serde_yaml::Value`, a YAML value.
#[verifier::external_type_specification]
#[verifier::external_body]
pub struct ExYaml(serde_yaml::Value);

/// A YAML value as a tree. A number is the text that it is displayed as, which
/// tells any two numbers apart.
pub enum YamlView {
    Null,
    Bool(bool),
    Number(Seq<char>),
    Text(Seq<char>),
    Sequence(Seq<YamlView>),
    Mapping(Seq<(YamlView, YamlView)>),
    Tagged(Seq<char>, Box<YamlView>),
}

/// The tree that a `serde_yaml::Value` holds.
pub uninterp spec fn yaml_view(v: serde_yaml::Value) -> YamlView;

/// The text that `serde_yaml::to_string` writes, where it writes one.
pub uninterp spec fn yaml_display(v: YamlView) -> Option<Seq<char>>;

/// What `serde_json::to_value` makes of a YAML value: the JSON document, or the
/// message of its error.
pub uninterp spec fn yaml_json(v: YamlView) -> Result<JsonView, Seq<char>>;

/// A YAML value seen through its outermost layer.
pub enum YamlRef<'a> {
    Null,
    Bool(bool),
    /// A number, as it is displayed.
    Number(String),
    Text(&'a String),
    Other,
}

/// Tells the variants of a `serde_yaml::Value` apart and borrows what the
/// variant holds; a number is displayed with `serde_yaml::Number::to_string`.
/// Sequences, mappings and tagged values are `Other`.
#[verifier::external_body]
pub(crate) fn yaml_ref<'a>(v: &'a serde_yaml::Value) -> (r: YamlRef<'a>)
    ensures
        match r {
            YamlRef::Null => yaml_view(*v) == YamlView::Null,
            YamlRef::Bool(b) => yaml_view(*v) == YamlView::Bool(b),
            YamlRef::Number(n) => yaml_view(*v) == YamlView::Number(n@),
            YamlRef::Text(s) => yaml_view(*v) == YamlView::Text(s@),
            YamlRef::Other => yaml_view(*v) is Sequence || yaml_view(*v) is Mapping || yaml_view(
                *v,
            ) is Tagged,
        },
{
    match v {
        serde_yaml::Value::Null => YamlRef::Null,
        serde_yaml::Value::Bool(b) => YamlRef::Bool(*b),
        serde_yaml::Value::Number(n) => YamlRef::Number(n.to_string()),
        serde_yaml::Value::String(s) => YamlRef::Text(s),
        serde_yaml::Value::Sequence(_) => YamlRef::Other,
        serde_yaml::Value::Mapping(_) => YamlRef::Other,
        serde_yaml::Value::Tagged(_) => YamlRef::Other,
    }
}

/// Calls `serde_yaml::to_string`: the YAML text of a value.
#[verifier::external_body]
pub(crate) fn yaml_to_string(v: &serde_yaml::Value) -> (r: Option<String>)
    ensures
        match r {
            Some(s) => yaml_display(yaml_view(*v)) == Some(s@),
            None => yaml_display(yaml_view(*v)) is None,
        },
{
    serde_yaml::to_string(v).ok()
}

/// Builds `serde_yaml::Value::String`: a value that is one text.
#[verifier::external_body]
pub(crate) fn yaml_string(s: String) -> (v: serde_yaml::Value)
    ensures
        yaml_view(v) == YamlView::Text(s@),
{
    serde_yaml::Value::String(s)
}

/// Calls `serde_json::to_value` on a YAML value: the JSON document, or the
/// displayed error. Texts, booleans and the null value stay what they are.
#[verifier::external_body]
pub(crate) fn yaml_to_json(v: &serde_yaml::Value) -> (r: Result<serde_json::Value, String>)
    ensures
        match r {
            Ok(j) => yaml_json(yaml_view(*v)) == Ok::<JsonView, Seq<char>>(json_view(j)),
            Err(e) => yaml_json(yaml_view(*v)) == Err::<JsonView, Seq<char>>(e@),
        },
        yaml_view(*v) matches YamlView::Text(s) ==> r is Ok && json_view(r->Ok_0)
            == JsonView::Text(s),
        yaml_view(*v) matches YamlView::Bool(b) ==> r is Ok && json_view(r->Ok_0)
            == JsonView::Bool(b),
        yaml_view(*v) is Null ==> r is Ok && json_view(r->Ok_0) == JsonView::Null,
{
    serde_json::to_value(v).map_err(|e| e.to_string())
}

/// `clone` on a `serde_yaml::Value`: the copy holds the same tree.
pub assume_specification[ <serde_yaml::Value as Clone>::clone ](
    v: &serde_yaml::Value,
) -> (r: serde_yaml::Value)
    ensures
        yaml_view(r) == yaml_view(*v),
;

} // verus!
