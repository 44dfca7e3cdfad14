//! Dot-paths into a document, and documents as the text of a variable.

use crate::json::{
    json_display, json_ref, json_to_string, json_view, law_members_are_found_by_their_key, member,
    object_get, JsonRef, JsonView,
};
use crate::text::{
    decimal, law_digits_give_the_number_back, law_numbers_are_digits,
    law_pieces_stand_between_separators, lemma_split_concat, number_upto, parse_upto, split,
    split_text, texts,
};
use vstd::prelude::*;

verus! {

/// What a path segment leads to: the member of an object under that key, or the
/// element of an array at that index.
pub open spec fn child(v: JsonView, part: Seq<char>) -> Option<JsonView> {
    match v {
        JsonView::Object(o) => member(o, part),
        JsonView::Array(a) => match number_upto(part, usize::MAX as nat) {
            Some(i) => if i < a.len() {
                Some(a[i as int])
            } else {
                None
            },
            None => None,
        },
        _ => None,
    }
}

/// What a path leads to.
pub open spec fn descendant(v: JsonView, parts: Seq<Seq<char>>) -> Option<JsonView>
    decreases parts.len(),
{
    if parts.len() == 0 {
        Some(v)
    } else {
        match child(v, parts.first()) {
            Some(x) => descendant(x, parts.drop_first()),
            None => None,
        }
    }
}

/// What a dot-path (`data.order_lists.0.id`) leads to.
pub open spec fn at_path(v: JsonView, path: Seq<char>) -> Option<JsonView> {
    descendant(v, split(path, '.'))
}

/// The value at a dot-path. A segment is a key of an object, or the index of an
/// element of an array.
pub fn dot_get<'a>(v: &'a serde_json::Value, path: &str) -> (r: Option<&'a serde_json::Value>)
    ensures
        match r {
            Some(x) => at_path(json_view(*v), path@) == Some(json_view(*x)),
            None => at_path(json_view(*v), path@) is None,
        },
{
    let parts = split_text(path, '.');
    let ghost all = split(path@, '.');
    let mut cur = v;
    let mut i: usize = 0;
    assert(all.skip(0) =~= all);
    while i < parts.len()
        invariant
            i <= parts.len(),
            all == texts(parts@),
            all == split(path@, '.'),
            descendant(json_view(*cur), all.skip(i as int)) == at_path(json_view(*v), path@),
        decreases parts.len() - i,
    {
        let part = parts[i].as_str();
        proof {
            assert(all.skip(i as int).first() == part@);
            assert(all.skip(i as int).drop_first() =~= all.skip(i + 1));
        }
        let next = match json_ref(cur) {
            JsonRef::Object(o) => object_get(o, part),
            JsonRef::Array(a) => match parse_upto(part, usize::MAX) {
                Some(k) => if k < a.len() {
                    Some(&a[k])
                } else {
                    None
                },
                None => None,
            },
            _ => None,
        };
        match next {
            Some(x) => {
                cur = x;
            },
            None => {
                return None;
            },
        }
        i += 1;
    }
    Some(cur)
}

/// The text that a document is as a variable: a text without its quotes, and
/// anything else as compact JSON.
pub open spec fn json_var(v: JsonView) -> Seq<char> {
    match v {
        JsonView::Text(s) => s,
        _ => json_display(v),
    }
}

/// A document as the text of a variable.
pub fn value_to_var(v: &serde_json::Value) -> (r: String)
    ensures
        r@ == json_var(json_view(*v)),
{
    match json_ref(v) {
        JsonRef::Text(s) => s.clone(),
        _ => json_to_string(v),
    }
}

proof fn lemma_descendant_concat(v: JsonView, a: Seq<Seq<char>>, b: Seq<Seq<char>>)
    ensures
        descendant(v, a + b) == match descendant(v, a) {
            Some(x) => descendant(x, b),
            None => None,
        },
    decreases a.len(),
{
    if a.len() == 0 {
        assert(a + b =~= b);
    } else {
        assert((a + b).first() == a.first());
        assert((a + b).drop_first() =~= a.drop_first() + b);
        match child(v, a.first()) {
            Some(x) => {
                lemma_descendant_concat(x, a.drop_first(), b);
            },
            None => {},
        }
    }
}

/// A longer path goes on from where its first part leads.
pub proof fn law_paths_compose(v: JsonView, p: Seq<char>, q: Seq<char>)
    ensures
        at_path(v, p + seq!['.'] + q) == match at_path(v, p) {
            Some(x) => at_path(x, q),
            None => None,
        },
{
    lemma_split_concat(p, q, '.');
    lemma_descendant_concat(v, split(p, '.'), split(q, '.'));
}

/// One segment of a path leads one level down: in an object to what stands under
/// that key, in an array to the element with that number, counted from zero, and
/// in anything else nowhere. A segment that is no number leads nowhere in an array.
pub proof fn law_segments_lead_one_level_down(
    o: Seq<(Seq<char>, JsonView)>,
    a: Seq<JsonView>,
    v: JsonView,
    part: Seq<char>,
    n: nat,
    i: int,
)
    requires
        !part.contains('.'),
        n <= usize::MAX,
    ensures
        0 <= i < o.len() && o[i].0 == part && (forall|j: int|
            0 <= j < i ==> (#[trigger] o[j]).0 != part) ==> at_path(JsonView::Object(o), part)
            == Some(o[i].1),
        (forall|j: int| 0 <= j < o.len() ==> (#[trigger] o[j]).0 != part) ==> at_path(
            JsonView::Object(o),
            part,
        ) is None,
        at_path(JsonView::Array(a), decimal(n)) == if n < a.len() {
            Some(a[n as int])
        } else {
            None
        },
        at_path(JsonView::Array(a), part) is Some ==> part.len() > 0 && forall|j: int|
            0 <= j < part.len() ==> '0' as int <= (#[trigger] part[j]) as int <= '9' as int || (j
                == 0 && part[j] == '+'),
        !(v is Object) && !(v is Array) ==> at_path(v, part) is None,
{
    let none = Seq::<char>::empty();
    law_pieces_stand_between_separators(part, '.', none);
    assert(seq![part].first() == part);
    assert(seq![part].drop_first() =~= Seq::<Seq<char>>::empty());
    law_members_are_found_by_their_key(o, part, i);
    law_digits_give_the_number_back(n, usize::MAX as nat);
    law_numbers_are_digits(part, usize::MAX as nat);
    let d = decimal(n);
    assert(!d.contains('.')) by {
        if d.contains('.') {
            let j = choose|j: int| 0 <= j < d.len() && d[j] == '.';
            assert('0' as int <= d[j] as int);
        }
    }
    law_pieces_stand_between_separators(d, '.', none);
    assert(seq![d].first() == d);
    assert(seq![d].drop_first() =~= Seq::<Seq<char>>::empty());
    reveal_with_fuel(descendant, 2);
}

} // verus!
