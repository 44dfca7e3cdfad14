//! Templates: texts and documents with `{{var}}` in them.

use crate::config::text_map;
use crate::error::{EngineError, EngineErrorView};
use crate::json::{
    json_array, json_clone, json_object, json_ref, json_string, json_view, json_views, member,
    object_clone, object_entries, object_replace, object_view, JsonRef, JsonView,
};
use crate::path::{at_path, child, descendant};
use crate::strmap::StrMap;
use crate::text::{
    chars_of, find, find_text, lemma_find_from, lemma_find_is, lemma_find_skip, occurs_at, split,
    texts, trim, trimmed,
};
use vstd::prelude::*;

verus! {

pub open spec fn open_mark() -> Seq<char> {
    seq!['{', '{']
}

pub open spec fn close_mark() -> Seq<char> {
    seq!['}', '}']
}

/// A template and the variables that fill it: the text with every `{{name}}`
/// replaced by the value of `name`, and the names that have none, from left to
/// right. A `{{` without a `}}` after it is plain text, and so is what follows.
pub open spec fn rendering(s: Seq<char>, vars: Map<Seq<char>, Seq<char>>) -> (
    Seq<char>,
    Seq<Seq<char>>,
)
    decreases s.len(),
{
    proof {
        lemma_find_from(s, open_mark(), 0);
    }
    match find(s, open_mark()) {
        None => (s, seq![]),
        Some(i) => {
            let after = s.skip(i + 2);
            proof {
                lemma_find_from(after, close_mark(), 0);
            }
            match find(after, close_mark()) {
                None => (s, seq![]),
                Some(j) => {
                    let name = trimmed(after.take(j));
                    let rest = rendering(after.skip(j + 2), vars);
                    if vars.contains_key(name) {
                        (s.take(i) + vars[name] + rest.0, rest.1)
                    } else {
                        (s.take(i) + rest.0, seq![name] + rest.1)
                    }
                },
            }
        },
    }
}

/// A template filled, or the names that have no value.
pub open spec fn filled(s: Seq<char>, vars: Map<Seq<char>, Seq<char>>) -> Result<
    Seq<char>,
    EngineErrorView,
> {
    let r = rendering(s, vars);
    if r.1.len() == 0 {
        Ok(r.0)
    } else {
        Err(EngineErrorView::MissingVars(r.1))
    }
}

/// Replaces every `{{var}}`; the error names the variables that have no value.
pub fn template(input: &str, vars: &StrMap<String>) -> (r: Result<String, EngineError>)
    ensures
        match r {
            Ok(s) => filled(input@, text_map(*vars)) == Ok::<Seq<char>, EngineErrorView>(s@),
            Err(e) => filled(input@, text_map(*vars)) == Err::<Seq<char>, EngineErrorView>(e@),
        },
{
    let ghost m = text_map(*vars);
    let ghost s = input@;
    let v = chars_of(input);
    let open: Vec<char> = vec!['{', '{'];
    let close: Vec<char> = vec!['}', '}'];
    assert(open@ =~= open_mark());
    assert(close@ =~= close_mark());
    let mut out = String::new();
    let mut missing: Vec<String> = Vec::new();
    let mut pos: usize = 0;
    assert(s.skip(0) =~= s);
    assert(out@ + rendering(s, m).0 =~= rendering(s, m).0);
    assert(texts(missing@) + rendering(s, m).1 =~= rendering(s, m).1);
    loop
        invariant_except_break
            rendering(s, m).0 == out@ + rendering(s.skip(pos as int), m).0,
            rendering(s, m).1 == texts(missing@) + rendering(s.skip(pos as int), m).1,
        invariant
            m == text_map(*vars),
            s == input@,
            v@ == s,
            open@ == open_mark(),
            close@ == close_mark(),
            pos <= v.len(),
        ensures
            rendering(s, m).0 == out@,
            rendering(s, m).1 == texts(missing@),
        decreases v.len() - pos,
    {
        let ghost rest = s.skip(pos as int);
        proof {
            lemma_find_from(s, open_mark(), pos as int);
            lemma_find_skip(s, open_mark(), pos as int, 0);
        }
        let found = match find_text(&v, &open, pos) {
            None => None,
            Some(i) => {
                assert(i + 2 <= v.len());
                proof {
                    lemma_find_from(s, close_mark(), i + 2);
                    lemma_find_skip(s, close_mark(), i + 2, 0);
                    assert(rest.skip(i - pos + 2) =~= s.skip(i + 2));
                }
                match find_text(&v, &close, i + 2) {
                    None => None,
                    Some(j) => Some((i, j)),
                }
            },
        };
        match found {
            None => {
                assert(rendering(rest, m) == (rest, Seq::<Seq<char>>::empty()));
                assert(s.subrange(pos as int, v@.len() as int) =~= rest);
                assert(texts(missing@) + Seq::<Seq<char>>::empty() =~= texts(missing@));
                out.append(input.substring_char(pos, v.len()));
                break;
            },
            Some((i, j)) => {
                let ghost before = out@;
                let ghost names = texts(missing@);
                let key = trim(input.substring_char(i + 2, j));
                let ghost next = s.skip(j + 2);
                proof {
                    let after = s.skip(i + 2);
                    assert(s.subrange(i + 2, j as int) =~= after.take(j - i - 2));
                    assert(after.skip(j - i - 2 + 2) =~= next);
                    assert(s.subrange(pos as int, i as int) =~= rest.take(i - pos));
                }
                out.append(input.substring_char(pos, i));
                match vars.get(key.as_str()) {
                    Some(value) => {
                        assert(m[key@] == value@);
                        out.append(value.as_str());
                        assert(before + (rest.take(i - pos) + m[key@] + rendering(next, m).0)
                            =~= out@ + rendering(next, m).0);
                    },
                    None => {
                        assert(!m.contains_key(key@));
                        missing.push(key);
                        assert(texts(missing@) =~= names.push(key@));
                        assert(before + (rest.take(i - pos) + rendering(next, m).0) =~= out@
                            + rendering(next, m).0);
                        assert(names + (seq![key@] + rendering(next, m).1) =~= texts(missing@)
                            + rendering(next, m).1);
                    },
                }
                pos = j + 2;
            },
        }
    }
    if missing.len() > 0 {
        Err(EngineError::MissingVars(missing))
    } else {
        Ok(out)
    }
}

/// A document with all its texts filled. The keys of objects stay as they are,
/// and the error is that of the first text that cannot be filled.
pub open spec fn filled_json(v: JsonView, vars: Map<Seq<char>, Seq<char>>) -> Result<
    JsonView,
    EngineErrorView,
>
    decreases v,
{
    match v {
        JsonView::Text(s) => match filled(s, vars) {
            Ok(t) => Ok(JsonView::Text(t)),
            Err(e) => Err(e),
        },
        JsonView::Array(a) => match filled_items(a, vars) {
            Ok(b) => Ok(JsonView::Array(b)),
            Err(e) => Err(e),
        },
        JsonView::Object(o) => match filled_members(o, vars) {
            Ok(p) => Ok(JsonView::Object(p)),
            Err(e) => Err(e),
        },
        _ => Ok(v),
    }
}

pub open spec fn filled_items(a: Seq<JsonView>, vars: Map<Seq<char>, Seq<char>>) -> Result<
    Seq<JsonView>,
    EngineErrorView,
>
    decreases a,
{
    if a.len() == 0 {
        Ok(seq![])
    } else {
        match filled_items(a.subrange(0, a.len() - 1), vars) {
            Err(e) => Err(e),
            Ok(b) => match filled_json(a[a.len() - 1], vars) {
                Err(e) => Err(e),
                Ok(v) => Ok(b.push(v)),
            },
        }
    }
}

pub open spec fn filled_members(
    o: Seq<(Seq<char>, JsonView)>,
    vars: Map<Seq<char>, Seq<char>>,
) -> Result<Seq<(Seq<char>, JsonView)>, EngineErrorView>
    decreases o,
{
    if o.len() == 0 {
        Ok(seq![])
    } else {
        let last = o[o.len() - 1];
        match filled_members(o.subrange(0, o.len() - 1), vars) {
            Err(e) => Err(e),
            Ok(p) => match filled_json(last.1, vars) {
                Err(e) => Err(e),
                Ok(v) => Ok(p.push((last.0, v))),
            },
        }
    }
}

proof fn lemma_filled_items_prefix(a: Seq<JsonView>, vars: Map<Seq<char>, Seq<char>>, n: int)
    requires
        0 <= n <= a.len(),
    ensures
        filled_items(a.take(n), vars) matches Err(e) ==> filled_items(a, vars) == Err::<
            Seq<JsonView>,
            EngineErrorView,
        >(e),
    decreases a.len(),
{
    if n < a.len() {
        let front = a.subrange(0, a.len() - 1);
        lemma_filled_items_prefix(front, vars, n);
        assert(front.take(n) =~= a.take(n));
    } else {
        assert(a.take(n) =~= a);
    }
}

proof fn lemma_filled_members_prefix(
    o: Seq<(Seq<char>, JsonView)>,
    vars: Map<Seq<char>, Seq<char>>,
    n: int,
)
    requires
        0 <= n <= o.len(),
    ensures
        filled_members(o.take(n), vars) matches Err(e) ==> filled_members(o, vars) == Err::<
            Seq<(Seq<char>, JsonView)>,
            EngineErrorView,
        >(e),
    decreases o.len(),
{
    if n < o.len() {
        let front = o.subrange(0, o.len() - 1);
        lemma_filled_members_prefix(front, vars, n);
        assert(front.take(n) =~= o.take(n));
    } else {
        assert(o.take(n) =~= o);
    }
}

/// Fills all texts of a document, as in a request body.
pub fn template_json(v: &serde_json::Value, vars: &StrMap<String>) -> (r: Result<
    serde_json::Value,
    EngineError,
>)
    ensures
        match r {
            Ok(j) => filled_json(json_view(*v), text_map(*vars)) == Ok::<JsonView, EngineErrorView>(
                json_view(j),
            ),
            Err(e) => filled_json(json_view(*v), text_map(*vars)) == Err::<
                JsonView,
                EngineErrorView,
            >(e@),
        },
    decreases json_view(*v), 1int,
{
    match json_ref(v) {
        JsonRef::Text(s) => match template(s.as_str(), vars) {
            Ok(t) => Ok(json_string(t)),
            Err(e) => Err(e),
        },
        JsonRef::Array(a) => match template_items(v, a, vars) {
            Ok(b) => Ok(json_array(b)),
            Err(e) => Err(e),
        },
        JsonRef::Object(o) => match template_members(v, o, vars) {
            Ok(p) => Ok(json_object(p)),
            Err(e) => Err(e),
        },
        _ => Ok(json_clone(v)),
    }
}

fn template_items(
    v: &serde_json::Value,
    a: &Vec<serde_json::Value>,
    vars: &StrMap<String>,
) -> (r: Result<Vec<serde_json::Value>, EngineError>)
    requires
        json_view(*v) == JsonView::Array(json_views(a@)),
    ensures
        match r {
            Ok(b) => filled_items(json_views(a@), text_map(*vars)) == Ok::<
                Seq<JsonView>,
                EngineErrorView,
            >(json_views(b@)),
            Err(e) => filled_items(json_views(a@), text_map(*vars)) == Err::<
                Seq<JsonView>,
                EngineErrorView,
            >(e@),
        },
    decreases json_view(*v), 0int,
{
    let ghost m = text_map(*vars);
    let ghost kids = json_views(a@);
    let mut out: Vec<serde_json::Value> = Vec::new();
    let mut i: usize = 0;
    assert(json_views(out@) =~= seq![]);
    while i < a.len()
        invariant
            m == text_map(*vars),
            kids == json_views(a@),
            json_view(*v) == JsonView::Array(kids),
            i <= a.len(),
            filled_items(kids.take(i as int), m) == Ok::<Seq<JsonView>, EngineErrorView>(
                json_views(out@),
            ),
        decreases a.len() - i,
    {
        let ghost done = json_views(out@);
        proof {
            assert(kids.take(i + 1).subrange(0, i as int) =~= kids.take(i as int));
            lemma_filled_items_prefix(kids, m, i + 1);
            assert(decreases_to!(json_view(*v) => json_view(*v)->Array_0));
            assert(decreases_to!(kids => kids[i as int]));
        }
        match template_json(&a[i], vars) {
            Ok(x) => {
                out.push(x);
                assert(json_views(out@) =~= done.push(json_view(x)));
            },
            Err(e) => {
                return Err(e);
            },
        }
        i += 1;
    }
    assert(kids.take(i as int) =~= kids);
    Ok(out)
}

fn template_members(
    v: &serde_json::Value,
    o: &serde_json::Map<String, serde_json::Value>,
    vars: &StrMap<String>,
) -> (r: Result<serde_json::Map<String, serde_json::Value>, EngineError>)
    requires
        json_view(*v) == JsonView::Object(object_view(*o)),
    ensures
        match r {
            Ok(p) => filled_members(object_view(*o), text_map(*vars)) == Ok::<
                Seq<(Seq<char>, JsonView)>,
                EngineErrorView,
            >(object_view(p)),
            Err(e) => filled_members(object_view(*o), text_map(*vars)) == Err::<
                Seq<(Seq<char>, JsonView)>,
                EngineErrorView,
            >(e@),
        },
    decreases json_view(*v), 0int,
{
    let ghost m = text_map(*vars);
    let ghost kids = object_view(*o);
    let entries = object_entries(o);
    let mut out = object_clone(o);
    let mut i: usize = 0;
    assert(kids.take(0) + kids.skip(0) =~= kids);
    while i < entries.len()
        invariant
            m == text_map(*vars),
            kids == object_view(*o),
            json_view(*v) == JsonView::Object(kids),
            entries@.len() == kids.len(),
            forall|k: int|
                0 <= k < entries@.len() ==> kids[k] == (
                    (#[trigger] entries@[k]).0@,
                    json_view(*entries@[k].1),
                ),
            i <= entries.len(),
            filled_members(kids.take(i as int), m) is Ok,
            object_view(out) == filled_members(kids.take(i as int), m)->Ok_0 + kids.skip(i as int),
            filled_members(kids.take(i as int), m)->Ok_0.len() == i,
        decreases entries.len() - i,
    {
        let ghost done = filled_members(kids.take(i as int), m)->Ok_0;
        proof {
            assert(kids.take(i + 1).subrange(0, i as int) =~= kids.take(i as int));
            lemma_filled_members_prefix(kids, m, i + 1);
            assert(decreases_to!(json_view(*v) => json_view(*v)->Object_0));
            assert(decreases_to!(kids => kids[i as int]));
            assert(decreases_to!(kids[i as int] => kids[i as int].1));
        }
        match template_json(entries[i].1, vars) {
            Ok(x) => {
                let ghost before = object_view(out);
                assert(before[i as int] == kids[i as int]);
                proof {
                    lemma_member(before, i as int);
                }
                object_replace(&mut out, entries[i].0.clone(), x);
                assert(before.update(i as int, (kids[i as int].0, json_view(x))) =~= done.push(
                    (kids[i as int].0, json_view(x)),
                ) + kids.skip(i + 1));
            },
            Err(e) => {
                return Err(e);
            },
        }
        i += 1;
    }
    assert(kids.take(i as int) =~= kids);
    assert(filled_members(kids, m)->Ok_0 + kids.skip(i as int) =~= filled_members(kids, m)->Ok_0);
    Ok(out)
}

/// A key that an object has leads to a member.
proof fn lemma_member(o: Seq<(Seq<char>, JsonView)>, i: int)
    requires
        0 <= i < o.len(),
    ensures
        member(o, o[i].0) is Some,
    decreases o.len(),
{
    if o.first().0 != o[i].0 {
        lemma_member(o.drop_first(), i - 1);
    }
}

/// The names that a template asks for, from left to right.
pub open spec fn names(s: Seq<char>) -> Seq<Seq<char>>
    decreases s.len(),
{
    proof {
        lemma_find_from(s, open_mark(), 0);
    }
    match find(s, open_mark()) {
        None => seq![],
        Some(i) => {
            let after = s.skip(i + 2);
            proof {
                lemma_find_from(after, close_mark(), 0);
            }
            match find(after, close_mark()) {
                None => seq![],
                Some(j) => seq![trimmed(after.take(j))] + names(after.skip(j + 2)),
            }
        },
    }
}

/// A text without `{{` is filled as it is.
pub proof fn law_plain_text_stays(s: Seq<char>, vars: Map<Seq<char>, Seq<char>>)
    requires
        forall|i: int| !occurs_at(s, open_mark(), i),
    ensures
        filled(s, vars) == Ok::<Seq<char>, EngineErrorView>(s),
{
    lemma_find_from(s, open_mark(), 0);
}

/// What is missing is each name of the template that has no value, as often as
/// the template asks for it and in its order.
pub proof fn law_missing_are_the_unset_names(s: Seq<char>, vars: Map<Seq<char>, Seq<char>>)
    ensures
        rendering(s, vars).1 == names(s).filter(|n: Seq<char>| !vars.contains_key(n)),
    decreases s.len(),
{
    reveal_with_fuel(Seq::filter, 2);
    let unset = |n: Seq<char>| !vars.contains_key(n);
    lemma_find_from(s, open_mark(), 0);
    match find(s, open_mark()) {
        None => {},
        Some(i) => {
            let after = s.skip(i + 2);
            lemma_find_from(after, close_mark(), 0);
            match find(after, close_mark()) {
                None => {},
                Some(j) => {
                    let name = trimmed(after.take(j));
                    let rest = after.skip(j + 2);
                    law_missing_are_the_unset_names(rest, vars);
                    Seq::filter_distributes_over_add(seq![name], names(rest), unset);
                    assert(seq![name].drop_last() =~= Seq::<Seq<char>>::empty());
                    if unset(name) {
                        assert(seq![name].filter(unset) =~= seq![name]);
                    } else {
                        assert(seq![name].filter(unset) =~= Seq::<Seq<char>>::empty());
                    }
                    assert(Seq::<Seq<char>>::empty() + names(rest).filter(unset) =~= names(
                        rest,
                    ).filter(unset));
                },
            }
        },
    }
}

/// A template can be filled exactly when every name it asks for has a value.
pub proof fn law_fills_exactly_when_all_names_are_set(
    s: Seq<char>,
    vars: Map<Seq<char>, Seq<char>>,
)
    ensures
        filled(s, vars) is Ok <==> forall|i: int|
            0 <= i < names(s).len() ==> vars.contains_key(#[trigger] names(s)[i]),
{
    let unset = |n: Seq<char>| !vars.contains_key(n);
    law_missing_are_the_unset_names(s, vars);
    let missing = names(s).filter(unset);
    if missing.len() == 0 {
        assert forall|i: int| 0 <= i < names(s).len() implies vars.contains_key(
            #[trigger] names(s)[i],
        ) by {
            if unset(names(s)[i]) {
                names(s).filter_lemma(unset);
                assert(missing.contains(names(s)[i]));
            }
        }
    } else {
        names(s).filter_lemma(unset);
        let n = missing[0];
        assert(unset(n));
        names(s).lemma_filter_contains_rev(unset, n);
        let i = choose|i: int| 0 <= i < names(s).len() && names(s)[i] == n;
        assert(!vars.contains_key(names(s)[i]));
    }
}

proof fn lemma_opens_at_start(rest: Seq<char>)
    ensures
        find(open_mark() + rest, open_mark()) == Some(0int),
        (open_mark() + rest).skip(2) == rest,
{
    let s = open_mark() + rest;
    assert(s.subrange(0, 2) =~= open_mark());
    assert(s.skip(2) =~= rest);
}

proof fn lemma_closes_after(name: Seq<char>)
    requires
        !name.contains('}'),
    ensures
        find(name + close_mark(), close_mark()) == Some(name.len() as int),
{
    let s = name + close_mark();
    let n = name.len() as int;
    assert(occurs_at(s, close_mark(), n)) by {
        assert(s.subrange(n, n + 2) =~= close_mark());
    }
    assert forall|j: int| 0 <= j < n implies !occurs_at(s, close_mark(), j) by {
        assert(s.subrange(j, j + 2)[0] == name[j]);
        assert(close_mark()[0] == '}');
        assert(name.contains(name[j]));
    }
    lemma_find_is(s, close_mark(), n);
}

/// `{{name}}` alone is the value of `name`.
pub proof fn law_lone_name_is_its_value(name: Seq<char>, vars: Map<Seq<char>, Seq<char>>)
    requires
        !name.contains('}'),
        trimmed(name) == name,
        vars.contains_key(name),
    ensures
        filled(open_mark() + name + close_mark(), vars) == Ok::<Seq<char>, EngineErrorView>(
            vars[name],
        ),
{
    let s = open_mark() + name + close_mark();
    let after = name + close_mark();
    assert(s =~= open_mark() + after);
    lemma_opens_at_start(after);
    lemma_closes_after(name);
    let n = name.len() as int;
    let rest = after.skip(n + 2);
    assert(after.take(n) =~= name);
    assert(rest =~= Seq::<char>::empty());
    assert(rendering(rest, vars) == (rest, Seq::<Seq<char>>::empty()));
    assert(s.take(0) + vars[name] + rest =~= vars[name]);
}

/// Filling keeps the keys of an object, in their order.
pub proof fn law_filling_keeps_keys(
    o: Seq<(Seq<char>, JsonView)>,
    vars: Map<Seq<char>, Seq<char>>,
)
    requires
        filled_json(JsonView::Object(o), vars) is Ok,
    ensures
        filled_json(JsonView::Object(o), vars)->Ok_0 matches JsonView::Object(p) && p.len()
            == o.len() && forall|i: int| 0 <= i < o.len() ==> (#[trigger] p[i]).0 == o[i].0,
    decreases o.len(),
{
    if o.len() > 0 {
        law_filling_keeps_keys(o.subrange(0, o.len() - 1), vars);
    }
}

proof fn lemma_filled_items(
    a: Seq<JsonView>,
    b: Seq<JsonView>,
    vars: Map<Seq<char>, Seq<char>>,
)
    requires
        filled_items(a, vars) == Ok::<Seq<JsonView>, EngineErrorView>(b),
    ensures
        b.len() == a.len(),
        forall|i: int|
            0 <= i < a.len() ==> filled_json(#[trigger] a[i], vars) == Ok::<
                JsonView,
                EngineErrorView,
            >(b[i]),
    decreases a.len(),
{
    if a.len() > 0 {
        let front = a.subrange(0, a.len() - 1);
        let done = filled_items(front, vars)->Ok_0;
        lemma_filled_items(front, done, vars);
        assert forall|i: int| 0 <= i < a.len() implies filled_json(#[trigger] a[i], vars) == Ok::<
            JsonView,
            EngineErrorView,
        >(b[i]) by {
            if i < front.len() {
                assert(front[i] == a[i]);
                assert(b[i] == done[i]);
            }
        }
    }
}

proof fn lemma_filled_members(
    o: Seq<(Seq<char>, JsonView)>,
    p: Seq<(Seq<char>, JsonView)>,
    vars: Map<Seq<char>, Seq<char>>,
)
    requires
        filled_members(o, vars) == Ok::<Seq<(Seq<char>, JsonView)>, EngineErrorView>(p),
    ensures
        p.len() == o.len(),
        forall|i: int|
            0 <= i < o.len() ==> filled_json((#[trigger] o[i]).1, vars) == Ok::<
                JsonView,
                EngineErrorView,
            >(p[i].1) && p[i].0 == o[i].0,
    decreases o.len(),
{
    if o.len() > 0 {
        let front = o.subrange(0, o.len() - 1);
        let done = filled_members(front, vars)->Ok_0;
        lemma_filled_members(front, done, vars);
        assert forall|i: int| 0 <= i < o.len() implies filled_json((#[trigger] o[i]).1, vars)
            == Ok::<JsonView, EngineErrorView>(p[i].1) && p[i].0 == o[i].0 by {
            if i < front.len() {
                assert(front[i] == o[i]);
                assert(p[i] == done[i]);
            }
        }
    }
}

proof fn lemma_filled_member(
    o: Seq<(Seq<char>, JsonView)>,
    p: Seq<(Seq<char>, JsonView)>,
    vars: Map<Seq<char>, Seq<char>>,
    key: Seq<char>,
)
    requires
        p.len() == o.len(),
        forall|i: int|
            0 <= i < o.len() ==> filled_json((#[trigger] o[i]).1, vars) == Ok::<
                JsonView,
                EngineErrorView,
            >(p[i].1) && p[i].0 == o[i].0,
    ensures
        match member(o, key) {
            Some(v) => member(p, key) is Some && filled_json(v, vars) == Ok::<
                JsonView,
                EngineErrorView,
            >(member(p, key)->Some_0),
            None => member(p, key) is None,
        },
    decreases o.len(),
{
    if o.len() > 0 {
        assert(filled_json(o[0].1, vars) == Ok::<JsonView, EngineErrorView>(p[0].1));
        if o.first().0 != key {
            let a = o.drop_first();
            let b = p.drop_first();
            assert forall|i: int| 0 <= i < a.len() implies filled_json((#[trigger] a[i]).1, vars)
                == Ok::<JsonView, EngineErrorView>(b[i].1) && b[i].0 == a[i].0 by {
                assert(a[i] == o[i + 1]);
            }
            lemma_filled_member(a, b, vars, key);
        }
    }
}

/// Filling a document fills it at every place: a path leads into the filled
/// document exactly where it leads into the document, and to what is there,
/// filled.
pub proof fn law_every_place_is_filled(
    v: JsonView,
    w: JsonView,
    vars: Map<Seq<char>, Seq<char>>,
    path: Seq<char>,
)
    requires
        filled_json(v, vars) == Ok::<JsonView, EngineErrorView>(w),
    ensures
        match at_path(v, path) {
            Some(x) => at_path(w, path) is Some && filled_json(x, vars) == Ok::<
                JsonView,
                EngineErrorView,
            >(at_path(w, path)->Some_0),
            None => at_path(w, path) is None,
        },
{
    lemma_descendants_filled(v, w, vars, split(path, '.'));
}

proof fn lemma_descendants_filled(
    v: JsonView,
    w: JsonView,
    vars: Map<Seq<char>, Seq<char>>,
    parts: Seq<Seq<char>>,
)
    requires
        filled_json(v, vars) == Ok::<JsonView, EngineErrorView>(w),
    ensures
        match descendant(v, parts) {
            Some(x) => descendant(w, parts) is Some && filled_json(x, vars) == Ok::<
                JsonView,
                EngineErrorView,
            >(descendant(w, parts)->Some_0),
            None => descendant(w, parts) is None,
        },
    decreases parts.len(),
{
    if parts.len() > 0 {
        match v {
            JsonView::Object(o) => {
                let p = w->Object_0;
                lemma_filled_members(o, p, vars);
                lemma_filled_member(o, p, vars, parts.first());
            },
            JsonView::Array(a) => {
                lemma_filled_items(a, w->Array_0, vars);
            },
            _ => {},
        }
        match child(v, parts.first()) {
            Some(x) => {
                lemma_descendants_filled(
                    x,
                    child(w, parts.first())->Some_0,
                    vars,
                    parts.drop_first(),
                );
            },
            None => {},
        }
    }
}

proof fn lemma_first_opening(p: Seq<char>, q: Seq<char>)
    requires
        forall|i: int| 0 <= i < p.len() - 1 ==> !(#[trigger] p[i] == '{' && p[i + 1] == '{'),
        p.len() > 0 ==> p.last() != '{',
    ensures
        find(p + open_mark() + q, open_mark()) == Some(p.len() as int),
{
    let s = p + open_mark() + q;
    let n = p.len() as int;
    assert(occurs_at(s, open_mark(), n)) by {
        assert(s.subrange(n, n + 2) =~= open_mark());
    }
    assert forall|j: int| 0 <= j < n implies !occurs_at(s, open_mark(), j) by {
        if occurs_at(s, open_mark(), j) {
            assert(s.subrange(j, j + 2)[0] == s[j]);
            assert(s.subrange(j, j + 2)[1] == s[j + 1]);
            assert(s[j] == p[j]);
            if j + 1 < n {
                assert(s[j + 1] == p[j + 1]);
            }
        }
    }
    lemma_find_is(s, open_mark(), n);
}

proof fn lemma_first_closing(n: Seq<char>, q: Seq<char>)
    requires
        forall|i: int| 0 <= i < n.len() - 1 ==> !(#[trigger] n[i] == '}' && n[i + 1] == '}'),
        n.len() > 0 ==> n.last() != '}',
    ensures
        find(n + close_mark() + q, close_mark()) == Some(n.len() as int),
{
    let s = n + close_mark() + q;
    let k = n.len() as int;
    assert(occurs_at(s, close_mark(), k)) by {
        assert(s.subrange(k, k + 2) =~= close_mark());
    }
    assert forall|j: int| 0 <= j < k implies !occurs_at(s, close_mark(), j) by {
        if occurs_at(s, close_mark(), j) {
            assert(s.subrange(j, j + 2)[0] == s[j]);
            assert(s.subrange(j, j + 2)[1] == s[j + 1]);
            assert(s[j] == n[j]);
            if j + 1 < k {
                assert(s[j + 1] == n[j + 1]);
            }
        }
    }
    lemma_find_is(s, close_mark(), k);
}

/// A text before a `{{name}}` and what follows it are filled as if they stood
/// alone: the text before is kept, the place takes the value of the name, without
/// the white space around the name, and the rest is filled. Where the name has no
/// value it is missing, before what is missing in the rest.
pub proof fn law_places_are_filled_one_by_one(
    p: Seq<char>,
    n: Seq<char>,
    t: Seq<char>,
    vars: Map<Seq<char>, Seq<char>>,
)
    requires
        forall|i: int| 0 <= i < p.len() - 1 ==> !(#[trigger] p[i] == '{' && p[i + 1] == '{'),
        p.len() > 0 ==> p.last() != '{',
        forall|i: int| 0 <= i < n.len() - 1 ==> !(#[trigger] n[i] == '}' && n[i + 1] == '}'),
        n.len() > 0 ==> n.last() != '}',
    ensures
        ({
            let whole = filled(p + seq!['{', '{'] + n + seq!['}', '}'] + t, vars);
            let name = trimmed(n);
            match filled(t, vars) {
                Ok(x) => if vars.contains_key(name) {
                    whole == Ok::<Seq<char>, EngineErrorView>(p + vars[name] + x)
                } else {
                    whole == Err::<Seq<char>, EngineErrorView>(
                        EngineErrorView::MissingVars(seq![name]),
                    )
                },
                Err(e) => e is MissingVars && e->MissingVars_0.len() > 0
                    && if vars.contains_key(name) {
                    whole == Err::<Seq<char>, EngineErrorView>(e)
                } else {
                    whole == Err::<Seq<char>, EngineErrorView>(
                        EngineErrorView::MissingVars(seq![name] + e->MissingVars_0),
                    )
                },
            }
        }),
{
    let s = p + seq!['{', '{'] + n + seq!['}', '}'] + t;
    let after = n + close_mark() + t;
    assert(s =~= p + open_mark() + after);
    lemma_first_opening(p, after);
    lemma_first_closing(n, t);
    let i = p.len() as int;
    let j = n.len() as int;
    assert(s.skip(i + 2) =~= after);
    assert(s.take(i) =~= p);
    assert(after.take(j) =~= n);
    assert(after.skip(j + 2) =~= t);
    let name = trimmed(n);
    let rest = rendering(t, vars);
    if !vars.contains_key(name) && rest.1.len() == 0 {
        assert(seq![name] + rest.1 =~= seq![name]);
    }
}

/// A text without `{{` stays as it is, and so does a text in which no `}}` follows
/// its first `{{`.
pub proof fn law_text_without_places_stays(
    p: Seq<char>,
    u: Seq<char>,
    vars: Map<Seq<char>, Seq<char>>,
)
    requires
        forall|i: int| 0 <= i < p.len() - 1 ==> !(#[trigger] p[i] == '{' && p[i + 1] == '{'),
    ensures
        filled(p, vars) == Ok::<Seq<char>, EngineErrorView>(p),
        (p.len() > 0 ==> p.last() != '{') && (forall|i: int|
            0 <= i < u.len() - 1 ==> !(#[trigger] u[i] == '}' && u[i + 1] == '}')) ==> filled(
            p + seq!['{', '{'] + u,
            vars,
        ) == Ok::<Seq<char>, EngineErrorView>(p + seq!['{', '{'] + u),
{
    lemma_find_from(p, open_mark(), 0);
    assert forall|j: int| 0 <= j implies !occurs_at(p, open_mark(), j) by {
        if occurs_at(p, open_mark(), j) {
            assert(p.subrange(j, j + 2)[0] == p[j]);
            assert(p.subrange(j, j + 2)[1] == p[j + 1]);
        }
    }
    if (p.len() > 0 ==> p.last() != '{') && (forall|i: int|
        0 <= i < u.len() - 1 ==> !(#[trigger] u[i] == '}' && u[i + 1] == '}')) {
        let s = p + seq!['{', '{'] + u;
        lemma_first_opening(p, u);
        assert(s.skip(p.len() as int + 2) =~= u);
        lemma_find_from(u, close_mark(), 0);
        assert forall|j: int| 0 <= j implies !occurs_at(u, close_mark(), j) by {
            if occurs_at(u, close_mark(), j) {
                assert(u.subrange(j, j + 2)[0] == u[j]);
                assert(u.subrange(j, j + 2)[1] == u[j + 1]);
            }
        }
    }
}

proof fn lemma_items_fill(a: Seq<JsonView>, vars: Map<Seq<char>, Seq<char>>)
    ensures
        filled_items(a, vars) is Ok <==> forall|i: int|
            0 <= i < a.len() ==> filled_json(#[trigger] a[i], vars) is Ok,
        filled_items(a, vars) matches Err(e) ==> exists|i: int|
            {
                &&& 0 <= i < a.len()
                &&& filled_json(#[trigger] a[i], vars) == Err::<JsonView, EngineErrorView>(e)
                &&& forall|j: int| 0 <= j < i ==> filled_json(#[trigger] a[j], vars) is Ok
            },
    decreases a.len(),
{
    if a.len() > 0 {
        let n = a.len() - 1;
        let front = a.subrange(0, n);
        lemma_items_fill(front, vars);
        assert forall|i: int| 0 <= i < n implies front[i] == a[i] by {}
        if filled_items(front, vars) is Err {
            let e = filled_items(front, vars)->Err_0;
            let i = choose|i: int|
                {
                    &&& 0 <= i < front.len()
                    &&& filled_json(#[trigger] front[i], vars) == Err::<JsonView, EngineErrorView>(
                        e,
                    )
                    &&& forall|j: int|
                        0 <= j < i ==> filled_json(#[trigger] front[j], vars) is Ok
                };
            assert(filled_json(a[i], vars) is Err);
            assert forall|j: int| 0 <= j < i implies filled_json(#[trigger] a[j], vars) is Ok by {
                assert(front[j] == a[j]);
            }
        } else {
            assert forall|j: int| 0 <= j < n implies filled_json(#[trigger] a[j], vars) is Ok by {
                assert(front[j] == a[j]);
            }
            assert(filled_items(a, vars) is Err ==> filled_json(a[n], vars) is Err);
        }
    }
}

proof fn lemma_members_fill(
    o: Seq<(Seq<char>, JsonView)>,
    vars: Map<Seq<char>, Seq<char>>,
)
    ensures
        filled_members(o, vars) is Ok <==> forall|i: int|
            0 <= i < o.len() ==> filled_json((#[trigger] o[i]).1, vars) is Ok,
        filled_members(o, vars) matches Err(e) ==> exists|i: int|
            {
                &&& 0 <= i < o.len()
                &&& filled_json((#[trigger] o[i]).1, vars) == Err::<JsonView, EngineErrorView>(e)
                &&& forall|j: int| 0 <= j < i ==> filled_json((#[trigger] o[j]).1, vars) is Ok
            },
    decreases o.len(),
{
    if o.len() > 0 {
        let n = o.len() - 1;
        let front = o.subrange(0, n);
        lemma_members_fill(front, vars);
        assert forall|i: int| 0 <= i < n implies front[i] == o[i] by {}
        if filled_members(front, vars) is Err {
            let e = filled_members(front, vars)->Err_0;
            let i = choose|i: int|
                {
                    &&& 0 <= i < front.len()
                    &&& filled_json((#[trigger] front[i]).1, vars) == Err::<
                        JsonView,
                        EngineErrorView,
                    >(e)
                    &&& forall|j: int|
                        0 <= j < i ==> filled_json((#[trigger] front[j]).1, vars) is Ok
                };
            assert(filled_json(o[i].1, vars) is Err);
            assert forall|j: int| 0 <= j < i implies filled_json(
                (#[trigger] o[j]).1,
                vars,
            ) is Ok by {
                assert(front[j] == o[j]);
            }
        } else {
            assert forall|j: int| 0 <= j < n implies filled_json(
                (#[trigger] o[j]).1,
                vars,
            ) is Ok by {
                assert(front[j] == o[j]);
            }
            assert(filled_members(o, vars) is Err ==> filled_json(o[n].1, vars) is Err);
        }
    }
}

/// A document is filled part by part: a text is filled, what holds no text stays,
/// and an array or an object is filled in each of its parts, with as many parts in
/// the same order and under the same keys. It can be filled exactly when all its
/// parts can, and the error is that of the first part that cannot.
pub proof fn law_documents_are_filled_part_by_part(
    s: Seq<char>,
    a: Seq<JsonView>,
    o: Seq<(Seq<char>, JsonView)>,
    v: JsonView,
    vars: Map<Seq<char>, Seq<char>>,
)
    ensures
        filled_json(JsonView::Text(s), vars) == match filled(s, vars) {
            Ok(t) => Ok::<JsonView, EngineErrorView>(JsonView::Text(t)),
            Err(e) => Err(e),
        },
        !(v is Text) && !(v is Array) && !(v is Object) ==> filled_json(v, vars) == Ok::<
            JsonView,
            EngineErrorView,
        >(v),
        match filled_json(JsonView::Array(a), vars) {
            Ok(w) => w is Array && w->Array_0.len() == a.len() && forall|i: int|
                0 <= i < a.len() ==> filled_json(#[trigger] a[i], vars) == Ok::<
                    JsonView,
                    EngineErrorView,
                >(w->Array_0[i]),
            Err(e) => exists|i: int|
                {
                    &&& 0 <= i < a.len()
                    &&& filled_json(#[trigger] a[i], vars) == Err::<JsonView, EngineErrorView>(e)
                    &&& forall|j: int| 0 <= j < i ==> filled_json(#[trigger] a[j], vars) is Ok
                },
        },
        match filled_json(JsonView::Object(o), vars) {
            Ok(w) => w is Object && w->Object_0.len() == o.len() && forall|i: int|
                0 <= i < o.len() ==> w->Object_0[i].0 == (#[trigger] o[i]).0 && filled_json(
                    o[i].1,
                    vars,
                ) == Ok::<JsonView, EngineErrorView>(w->Object_0[i].1),
            Err(e) => exists|i: int|
                {
                    &&& 0 <= i < o.len()
                    &&& filled_json((#[trigger] o[i]).1, vars) == Err::<JsonView, EngineErrorView>(
                        e,
                    )
                    &&& forall|j: int|
                        0 <= j < i ==> filled_json((#[trigger] o[j]).1, vars) is Ok
                },
        },
{
    lemma_items_fill(a, vars);
    lemma_members_fill(o, vars);
    if filled_items(a, vars) is Ok {
        lemma_filled_items(a, filled_items(a, vars)->Ok_0, vars);
    }
    if filled_members(o, vars) is Ok {
        lemma_filled_members(o, filled_members(o, vars)->Ok_0, vars);
    }
}

} // verus!
