//! A document as a tree of rows that can be opened.

use crate::json::{
    json_display, json_ref, json_to_string, json_view, object_entries, object_view, JsonRef,
    JsonView,
};
use crate::text::{decimal, decimal_of, same_text};
use vstd::prelude::*;

verus! {

/// A row of the tree: what it shows, whether it is open at first, and what is
/// under it.
pub struct TreeRow<'a> {
    pub text: String,
    pub open: bool,
    pub children: Vec<(String, &'a serde_json::Value)>,
}

/// What a row shows: the name and the size of an object or an array that is not
/// empty, and the name and the value of anything else.
pub open spec fn row_text(key: Seq<char>, v: JsonView) -> Seq<char> {
    match v {
        JsonView::Object(o) => if o.len() > 0 {
            key + " {"@ + decimal(o.len()) + "}"@
        } else {
            key + ": "@ + json_display(v)
        },
        JsonView::Array(a) => if a.len() > 0 {
            key + " ["@ + decimal(a.len()) + "]"@
        } else {
            key + ": "@ + json_display(v)
        },
        _ => key + ": "@ + json_display(v),
    }
}

/// What is under a row: the members of an object, or the elements of an array
/// under their indices.
pub open spec fn row_children(v: JsonView) -> Seq<(Seq<char>, JsonView)> {
    match v {
        JsonView::Object(o) => o,
        JsonView::Array(a) => Seq::new(a.len(), |i: int| (decimal(i as nat), a[i])),
        _ => seq![],
    }
}

/// What a list of children holds.
pub open spec fn child_views(v: Seq<(String, &serde_json::Value)>) -> Seq<(Seq<char>, JsonView)> {
    Seq::new(v.len(), |i: int| (v[i].0@, json_view(*v[i].1)))
}

/// An object is open at first where it is the response or its data.
pub open spec fn opens_at_first(key: Seq<char>, v: JsonView) -> bool {
    v is Object && v->Object_0.len() > 0 && (key == "response"@ || key == "data"@)
}

fn leaf<'a>(key: &str, v: &'a serde_json::Value) -> (r: TreeRow<'a>)
    ensures
        r.text@ == key@ + ": "@ + json_display(json_view(*v)),
        !r.open,
        child_views(r.children@) == Seq::<(Seq<char>, JsonView)>::empty(),
{
    let r = TreeRow {
        text: key.to_owned().concat(": ").concat(json_to_string(v).as_str()),
        open: false,
        children: Vec::new(),
    };
    assert(child_views(r.children@) =~= Seq::empty());
    r
}

/// The row of a document under a name.
pub fn tree_row<'a>(key: &str, v: &'a serde_json::Value) -> (r: TreeRow<'a>)
    ensures
        r.text@ == row_text(key@, json_view(*v)),
        r.open == opens_at_first(key@, json_view(*v)),
        child_views(r.children@) == row_children(json_view(*v)),
{
    let ghost doc = json_view(*v);
    match json_ref(v) {
        JsonRef::Object(o) => {
            let members = object_entries(o);
            if members.len() == 0 {
                assert(row_children(doc) =~= Seq::empty());
                return leaf(key, v);
            }
            let mut children: Vec<(String, &'a serde_json::Value)> = Vec::new();
            let mut i: usize = 0;
            while i < members.len()
                invariant
                    i <= members.len(),
                    members@.len() == object_view(*o).len(),
                    forall|k: int|
                        0 <= k < members@.len() ==> object_view(*o)[k] == (
                            (#[trigger] members@[k]).0@,
                            json_view(*members@[k].1),
                        ),
                    children@.len() == i,
                    forall|k: int|
                        0 <= k < i ==> #[trigger] child_views(children@)[k] == object_view(*o)[k],
                decreases members.len() - i,
            {
                let ghost so_far = child_views(children@);
                let m = members[i];
                children.push((m.0.clone(), m.1));
                assert(child_views(children@) =~= so_far.push((m.0@, json_view(*m.1))));
                i += 1;
            }
            assert(child_views(children@) =~= row_children(doc));
            TreeRow {
                text: key.to_owned().concat(" {").concat(
                    decimal_of(members.len() as u128).as_str(),
                ).concat("}"),
                open: same_text(key, "response") || same_text(key, "data"),
                children,
            }
        },
        JsonRef::Array(a) => {
            if a.len() == 0 {
                assert(row_children(doc) =~= Seq::empty());
                return leaf(key, v);
            }
            let mut children: Vec<(String, &'a serde_json::Value)> = Vec::new();
            let mut i: usize = 0;
            while i < a.len()
                invariant
                    i <= a.len(),
                    children@.len() == i,
                    forall|k: int|
                        0 <= k < i ==> #[trigger] child_views(children@)[k] == (
                            decimal(k as nat),
                            json_view(a@[k]),
                        ),
                decreases a.len() - i,
            {
                let ghost so_far = child_views(children@);
                let name = decimal_of(i as u128);
                children.push((name, &a[i]));
                assert(child_views(children@) =~= so_far.push((name@, json_view(a@[i as int]))));
                i += 1;
            }
            assert(child_views(children@) =~= row_children(doc));
            TreeRow {
                text: key.to_owned().concat(" [").concat(decimal_of(a.len() as u128).as_str()).concat(
                    "]",
                ),
                open: false,
                children,
            }
        },
        _ => leaf(key, v),
    }
}

/// A tree shows all of a document: under an object stand all its members under
/// their keys, under an array all its elements under their numbers, counted from
/// zero, and under anything else nothing. A row with something under it shows how
/// much that is, any other row shows its value, and at first only the response and
/// its data are open, where they are objects.
pub proof fn law_trees_show_the_whole_document(
    key: Seq<char>,
    o: Seq<(Seq<char>, JsonView)>,
    a: Seq<JsonView>,
    v: JsonView,
)
    ensures
        row_children(JsonView::Object(o)) == o,
        row_children(JsonView::Array(a)).len() == a.len(),
        forall|i: int|
            0 <= i < a.len() ==> #[trigger] row_children(JsonView::Array(a))[i] == (
                decimal(i as nat),
                a[i],
            ),
        !(v is Object) && !(v is Array) ==> row_children(v).len() == 0,
        row_children(v).len() == 0 ==> row_text(key, v) == key + ": "@ + json_display(v)
            && !opens_at_first(key, v),
        o.len() > 0 ==> row_text(key, JsonView::Object(o)) == key + " {"@ + decimal(o.len())
            + "}"@,
        a.len() > 0 ==> row_text(key, JsonView::Array(a)) == key + " ["@ + decimal(a.len()) + "]"@,
        opens_at_first(key, v) <==> v is Object && row_children(v).len() > 0 && (key
            == "response"@ || key == "data"@),
{
}

} // verus!
