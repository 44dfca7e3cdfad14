//! Conditions on variables, and the choice of the edge that leads on.

use crate::config::text_map;
use crate::error::{EngineError, EngineErrorView};
use crate::flow::{edge_views, ints, FlowEdge, FlowEdgeView};
use crate::strmap::StrMap;
use crate::text::{
    chars_of, find, find_text, is_space, law_strip_takes_the_ends, law_trim_takes_white_space,
    lemma_find_from, lemma_find_is, occurs_at, same_text, strip_both, strip_both_of, trim, trimmed,
    Strip,
};
use vstd::prelude::*;

verus! {

/// The value of a variable, which is empty where there is none.
pub open spec fn value_or_empty(vars: Map<Seq<char>, Seq<char>>, name: Seq<char>) -> Seq<char> {
    if vars.contains_key(name) {
        vars[name]
    } else {
        seq![]
    }
}

/// The right side of a condition: without white space around it, then without
/// double quotes, then without single quotes.
pub open spec fn unquoted(s: Seq<char>) -> Seq<char> {
    strip_both(strip_both(trimmed(s), Strip::Only('"')), Strip::Only('\''))
}

pub open spec fn equal_mark() -> Seq<char> {
    seq!['=', '=']
}

pub open spec fn unequal_mark() -> Seq<char> {
    seq!['!', '=']
}

/// What a condition `var == value` or `var != value` says of the variables. The
/// first `!=` decides, and only where there is none the first `==`. `None`: it
/// is no condition.
pub open spec fn holds(expr: Seq<char>, vars: Map<Seq<char>, Seq<char>>) -> Option<bool> {
    match find(expr, unequal_mark()) {
        Some(i) => Some(
            value_or_empty(vars, trimmed(expr.take(i))) != unquoted(expr.skip(i + 2)),
        ),
        None => match find(expr, equal_mark()) {
            Some(i) => Some(
                value_or_empty(vars, trimmed(expr.take(i))) == unquoted(expr.skip(i + 2)),
            ),
            None => None,
        },
    }
}

/// Evaluates `var == value` or `var != value`. A variable without a value is
/// empty.
pub fn eval_skip_if(expr: &str, vars: &StrMap<String>) -> (r: Result<bool, EngineError>)
    ensures
        match r {
            Ok(b) => holds(expr@, text_map(*vars)) == Some(b),
            Err(e) => holds(expr@, text_map(*vars)) is None && e@ == EngineErrorView::Condition(
                expr@,
            ),
        },
{
    let v = chars_of(expr);
    let ne: Vec<char> = vec!['!', '='];
    let eq: Vec<char> = vec!['=', '='];
    proof {
        assert(ne@ =~= unequal_mark());
        assert(eq@ =~= equal_mark());
        lemma_find_from(expr@, ne@, 0);
        lemma_find_from(expr@, eq@, 0);
    }
    let (negated, i) = match find_text(&v, &ne, 0) {
        Some(i) => (true, i),
        None => match find_text(&v, &eq, 0) {
            Some(i) => (false, i),
            None => {
                return Err(EngineError::Condition(expr.to_owned()));
            },
        },
    };
    assert(expr@.subrange(0, i as int) =~= expr@.take(i as int));
    assert(expr@.subrange(i + 2, v@.len() as int) =~= expr@.skip(i + 2));
    let left = trim(expr.substring_char(0, i));
    let right = strip_both_of(
        strip_both_of(trim(expr.substring_char(i + 2, v.len())).as_str(), Strip::Only('"')).as_str(),
        Strip::Only('\''),
    );
    let same = match vars.get(left.as_str()) {
        Some(s) => {
            assert(text_map(*vars)[left@] == s@);
            same_text(s.as_str(), right.as_str())
        },
        None => {
            assert(!text_map(*vars).contains_key(left@));
            assert(right@.len() == 0 ==> right@ =~= seq![]);
            right.as_str().is_empty()
        },
    };
    Ok(same != negated)
}

/// What follows a step.
#[derive(Debug, PartialEq)]
pub enum Next {
    /// The step at this index.
    Advance(usize),
    /// Nothing: no edge leads on, the path is complete.
    End,
    /// Undecided: the targets with the labels to show. An operator is asked; an
    /// unattended run fails.
    Pick(Vec<(usize, String)>),
}

/// What a `Next` holds.
pub enum NextView {
    Advance(int),
    End,
    Pick(Seq<(int, Seq<char>)>),
}

/// The targets and labels of a choice.
pub open spec fn option_views(v: Seq<(usize, String)>) -> Seq<(int, Seq<char>)> {
    Seq::new(v.len(), |i: int| (v[i].0 as int, v[i].1@))
}

impl View for Next {
    type V = NextView;

    open spec fn view(&self) -> NextView {
        match *self {
            Next::Advance(i) => NextView::Advance(i as int),
            Next::End => NextView::End,
            Next::Pick(v) => NextView::Pick(option_views(v@)),
        }
    }
}

/// The targets of the edges whose condition holds.
pub open spec fn matching(edges: Seq<FlowEdgeView>, vars: Map<Seq<char>, Seq<char>>) -> Seq<int>
    decreases edges.len(),
{
    if edges.len() == 0 {
        seq![]
    } else {
        let before = matching(edges.drop_last(), vars);
        match edges.last().cond {
            Some(c) => if holds(c, vars) == Some(true) {
                before.push(edges.last().to)
            } else {
                before
            },
            None => before,
        }
    }
}

/// The targets of the edges without a condition.
pub open spec fn fallbacks(edges: Seq<FlowEdgeView>) -> Seq<int>
    decreases edges.len(),
{
    if edges.len() == 0 {
        seq![]
    } else if edges.last().cond is None {
        fallbacks(edges.drop_last()).push(edges.last().to)
    } else {
        fallbacks(edges.drop_last())
    }
}

/// The first condition that is none.
pub open spec fn broken_condition(
    edges: Seq<FlowEdgeView>,
    vars: Map<Seq<char>, Seq<char>>,
) -> Option<Seq<char>>
    decreases edges.len(),
{
    if edges.len() == 0 {
        None
    } else {
        match edges.first().cond {
            Some(c) => if holds(c, vars) is None {
                Some(c)
            } else {
                broken_condition(edges.drop_first(), vars)
            },
            None => broken_condition(edges.drop_first(), vars),
        }
    }
}

/// How an edge is offered in a choice.
pub open spec fn offered(e: FlowEdgeView) -> (int, Seq<char>) {
    (
        e.to,
        match e.label {
            Some(l) => l,
            None => "(tanpa syarat)"@,
        },
    )
}

/// Where the edges of a step lead. No edge: the end. One edge without a
/// condition: its target. Otherwise the conditions decide: if exactly one
/// holds, its edge is taken; if none does and exactly one edge has no
/// condition, that one; anything else is a choice between all of them.
pub open spec fn next_step(edges: Seq<FlowEdgeView>, vars: Map<Seq<char>, Seq<char>>) -> Result<
    NextView,
    EngineErrorView,
> {
    if edges.len() == 0 {
        Ok(NextView::End)
    } else if edges.len() == 1 && edges[0].cond is None {
        Ok(NextView::Advance(edges[0].to))
    } else {
        match broken_condition(edges, vars) {
            Some(c) => Err(EngineErrorView::Condition(c)),
            None => {
                let m = matching(edges, vars);
                let f = fallbacks(edges);
                if m.len() == 1 {
                    Ok(NextView::Advance(m[0]))
                } else if m.len() == 0 && f.len() == 1 {
                    Ok(NextView::Advance(f[0]))
                } else {
                    Ok(NextView::Pick(edges.map_values(|e: FlowEdgeView| offered(e))))
                }
            },
        }
    }
}

/// Picks the edge to follow out of a step, by the variables.
pub fn choose_next(edges: &[&FlowEdge], vars: &StrMap<String>) -> (r: Result<Next, EngineError>)
    ensures
        match r {
            Ok(n) => next_step(edge_views(edges@), text_map(*vars)) == Ok::<
                NextView,
                EngineErrorView,
            >(n@),
            Err(e) => next_step(edge_views(edges@), text_map(*vars)) == Err::<
                NextView,
                EngineErrorView,
            >(e@),
        },
{
    let ghost all = edge_views(edges@);
    let ghost m = text_map(*vars);
    if edges.len() == 0 {
        return Ok(Next::End);
    }
    if edges.len() == 1 && edges[0].cond.is_none() {
        return Ok(Next::Advance(edges[0].to));
    }
    let mut matched: Vec<usize> = Vec::new();
    let mut open: Vec<usize> = Vec::new();
    let mut i: usize = 0;
    assert(all.skip(0) =~= all);
    assert(ints(matched@) =~= matching(all.take(0), m));
    assert(ints(open@) =~= fallbacks(all.take(0)));
    while i < edges.len()
        invariant
            all == edge_views(edges@),
            m == text_map(*vars),
            i <= edges.len(),
            broken_condition(all, m) == broken_condition(all.skip(i as int), m),
            ints(matched@) == matching(all.take(i as int), m),
            ints(open@) == fallbacks(all.take(i as int)),
        decreases edges.len() - i,
    {
        let ghost before = ints(matched@);
        let ghost before_open = ints(open@);
        let e = edges[i];
        proof {
            assert(all.skip(i as int).first() == e@);
            assert(all.skip(i as int).drop_first() =~= all.skip(i + 1));
            assert(all.take(i + 1).drop_last() =~= all.take(i as int));
            assert(all.take(i + 1).last() == e@);
        }
        match &e.cond {
            Some(expr) => match eval_skip_if(expr.as_str(), vars) {
                Ok(b) => {
                    if b {
                        matched.push(e.to);
                        assert(ints(matched@) =~= before.push(e.to as int));
                    }
                },
                Err(x) => {
                    return Err(x);
                },
            },
            None => {
                open.push(e.to);
                assert(ints(open@) =~= before_open.push(e.to as int));
            },
        }
        i += 1;
    }
    assert(all.take(i as int) =~= all);
    assert(ints(matched@).len() == matched.len() && ints(open@).len() == open.len());
    if matched.len() == 1 {
        return Ok(Next::Advance(matched[0]));
    }
    if matched.len() == 0 && open.len() == 1 {
        return Ok(Next::Advance(open[0]));
    }
    Ok(Next::Pick(offers(edges)))
}

/// The edges of a choice.
fn offers(edges: &[&FlowEdge]) -> (r: Vec<(usize, String)>)
    ensures
        option_views(r@) == edge_views(edges@).map_values(|e: FlowEdgeView| offered(e)),
{
    let ghost all = edge_views(edges@);
    let mut r: Vec<(usize, String)> = Vec::new();
    let mut i: usize = 0;
    while i < edges.len()
        invariant
            all == edge_views(edges@),
            i <= edges.len(),
            r@.len() == i,
            forall|k: int| 0 <= k < i ==> option_views(r@)[k] == offered(#[trigger] all[k]),
        decreases edges.len() - i,
    {
        let e = edges[i];
        let label = match &e.label {
            Some(l) => l.clone(),
            None => "(tanpa syarat)".to_owned(),
        };
        let ghost before = option_views(r@);
        r.push((e.to, label));
        assert(option_views(r@) =~= before.push((e.to as int, label@)));
        assert(all[i as int] == e@);
        i += 1;
    }
    assert(option_views(r@) =~= all.map_values(|e: FlowEdgeView| offered(e)));
    r
}

/// The condition of an edge holds.
pub open spec fn opens(e: FlowEdgeView, vars: Map<Seq<char>, Seq<char>>) -> bool {
    e.cond is Some && holds(e.cond->Some_0, vars) == Some(true)
}

proof fn lemma_matching(edges: Seq<FlowEdgeView>, vars: Map<Seq<char>, Seq<char>>)
    ensures
        forall|t: int| #[trigger]
            matching(edges, vars).contains(t) ==> exists|i: int|
                0 <= i < edges.len() && opens(edges[i], vars) && edges[i].to == t,
        matching(edges, vars).len() == 0 <==> forall|i: int|
            0 <= i < edges.len() ==> !opens(#[trigger] edges[i], vars),
    decreases edges.len(),
{
    if edges.len() > 0 {
        let front = edges.drop_last();
        lemma_matching(front, vars);
        let n = edges.len() - 1;
        assert(edges[n] == edges.last());
        assert forall|t: int| #[trigger] matching(edges, vars).contains(t) implies exists|i: int|
            0 <= i < edges.len() && opens(edges[i], vars) && edges[i].to == t by {
            if matching(front, vars).contains(t) {
                let i = choose|i: int|
                    0 <= i < front.len() && opens(front[i], vars) && front[i].to == t;
                assert(edges[i] == front[i]);
            } else {
                assert(opens(edges[n], vars) && edges[n].to == t);
            }
        }
        if matching(edges, vars).len() == 0 {
            assert forall|i: int| 0 <= i < edges.len() implies !opens(
                #[trigger] edges[i],
                vars,
            ) by {
                if i < n {
                    assert(edges[i] == front[i]);
                }
            }
        } else if forall|i: int| 0 <= i < edges.len() ==> !opens(#[trigger] edges[i], vars) {
            assert forall|i: int| 0 <= i < front.len() implies !opens(
                #[trigger] front[i],
                vars,
            ) by {
                assert(edges[i] == front[i]);
            }
        }
    }
}

proof fn lemma_fallbacks(edges: Seq<FlowEdgeView>)
    ensures
        forall|t: int| #[trigger]
            fallbacks(edges).contains(t) ==> exists|i: int|
                0 <= i < edges.len() && edges[i].cond is None && edges[i].to == t,
    decreases edges.len(),
{
    if edges.len() > 0 {
        let front = edges.drop_last();
        lemma_fallbacks(front);
        assert forall|t: int| #[trigger] fallbacks(edges).contains(t) implies exists|i: int|
            0 <= i < edges.len() && edges[i].cond is None && edges[i].to == t by {
            if fallbacks(front).contains(t) {
                let i = choose|i: int|
                    0 <= i < front.len() && front[i].cond is None && front[i].to == t;
                assert(edges[i] == front[i]);
            } else {
                assert(edges[edges.len() - 1].to == t);
            }
        }
    }
}

/// A run never leaves the edges: what follows a step is the target of one of its
/// edges, and so is all that is offered in a choice.
pub proof fn law_next_is_a_target(edges: Seq<FlowEdgeView>, vars: Map<Seq<char>, Seq<char>>)
    ensures
        next_step(edges, vars) matches Ok(NextView::Advance(t)) ==> exists|i: int|
            0 <= i < edges.len() && (#[trigger] edges[i]).to == t,
        next_step(edges, vars) matches Ok(NextView::Pick(opts)) ==> opts.len() == edges.len()
            && forall|i: int| 0 <= i < opts.len() ==> (#[trigger] opts[i]).0 == edges[i].to,
{
    lemma_matching(edges, vars);
    lemma_fallbacks(edges);
    let m = matching(edges, vars);
    let f = fallbacks(edges);
    if m.len() == 1 {
        assert(m.contains(m[0]));
        let i = choose|i: int|
            0 <= i < edges.len() && opens(edges[i], vars) && edges[i].to == m[0];
        assert(edges[i].to == m[0]);
    }
    if f.len() == 1 {
        assert(f.contains(f[0]));
        let i = choose|i: int| 0 <= i < edges.len() && edges[i].cond is None && edges[i].to == f[0];
        assert(edges[i].to == f[0]);
    }
    if edges.len() == 1 {
        assert(edges[0].to == edges[0].to);
    }
}

proof fn lemma_sole_match(edges: Seq<FlowEdgeView>, vars: Map<Seq<char>, Seq<char>>, i: int)
    requires
        0 <= i < edges.len(),
        opens(edges[i], vars),
        forall|j: int| 0 <= j < edges.len() && j != i ==> !opens(#[trigger] edges[j], vars),
    ensures
        matching(edges, vars) == seq![edges[i].to],
    decreases edges.len(),
{
    let front = edges.drop_last();
    if i < edges.len() - 1 {
        assert(front[i] == edges[i]);
        assert(!opens(edges[edges.len() - 1], vars));
        lemma_sole_match(front, vars, i);
    } else {
        lemma_matching(front, vars);
        assert forall|j: int| 0 <= j < front.len() implies !opens(#[trigger] front[j], vars) by {
            assert(front[j] == edges[j]);
        }
        assert(matching(front, vars) =~= seq![]);
        assert(matching(edges, vars) =~= seq![edges[i].to]);
    }
}

/// If the condition of exactly one edge holds, that edge is followed, whatever
/// edges without a condition there are.
pub proof fn law_one_true_condition_decides(
    edges: Seq<FlowEdgeView>,
    vars: Map<Seq<char>, Seq<char>>,
    i: int,
)
    requires
        broken_condition(edges, vars) is None,
        0 <= i < edges.len(),
        opens(edges[i], vars),
        forall|j: int| 0 <= j < edges.len() && j != i ==> !opens(#[trigger] edges[j], vars),
    ensures
        next_step(edges, vars) == Ok::<NextView, EngineErrorView>(NextView::Advance(edges[i].to)),
{
    lemma_sole_match(edges, vars, i);
}

proof fn lemma_two_matches(
    edges: Seq<FlowEdgeView>,
    vars: Map<Seq<char>, Seq<char>>,
    i: int,
    j: int,
)
    requires
        0 <= i < j < edges.len(),
        opens(edges[i], vars),
        opens(edges[j], vars),
    ensures
        matching(edges, vars).len() >= 2,
    decreases edges.len(),
{
    let front = edges.drop_last();
    assert(front[i] == edges[i]);
    if j < edges.len() - 1 {
        assert(front[j] == edges[j]);
        lemma_two_matches(front, vars, i, j);
    } else {
        lemma_matching(front, vars);
    }
}

/// If the conditions of two edges hold, nothing is followed: it is a choice
/// between all edges.
pub proof fn law_two_true_conditions_are_a_choice(
    edges: Seq<FlowEdgeView>,
    vars: Map<Seq<char>, Seq<char>>,
    i: int,
    j: int,
)
    requires
        broken_condition(edges, vars) is None,
        0 <= i < j < edges.len(),
        opens(edges[i], vars),
        opens(edges[j], vars),
    ensures
        next_step(edges, vars) is Ok,
        next_step(edges, vars)->Ok_0 is Pick,
{
    lemma_two_matches(edges, vars, i, j);
}

proof fn lemma_operator_at(a: Seq<char>, op: Seq<char>, b: Seq<char>, pat: Seq<char>)
    requires
        op == equal_mark() || op == unequal_mark(),
        pat == equal_mark() || pat == unequal_mark(),
        forall|j: int| !occurs_at(a, pat, j),
        a.len() > 0 ==> a.last() != '!' && a.last() != '=',
    ensures
        forall|j: int| 0 <= j < a.len() ==> !occurs_at(a + op + b, pat, j),
        occurs_at(a + op + b, op, a.len() as int),
{
    let s = a + op + b;
    let n = a.len() as int;
    assert(s.subrange(n, n + 2) =~= op);
    assert forall|j: int| 0 <= j < n implies !occurs_at(s, pat, j) by {
        assert(!occurs_at(a, pat, j));
        if j + 1 < n {
            assert(s.subrange(j, j + 2) =~= a.subrange(j, j + 2));
        } else {
            assert(s.subrange(j, j + 2)[0] == a.last());
        }
    }
}

proof fn lemma_no_unequal_after(a: Seq<char>, b: Seq<char>)
    requires
        forall|j: int| !occurs_at(a, unequal_mark(), j),
        forall|j: int| !occurs_at(b, unequal_mark(), j),
        a.len() > 0 ==> a.last() != '!' && a.last() != '=',
    ensures
        find(a + equal_mark() + b, unequal_mark()) is None,
{
    let s = a + equal_mark() + b;
    let n = a.len() as int;
    let ne = unequal_mark();
    lemma_operator_at(a, equal_mark(), b, ne);
    lemma_find_from(s, ne, 0);
    assert forall|j: int| 0 <= j implies !occurs_at(s, ne, j) by {
        if n <= j && j + 2 <= s.len() {
            if j < n + 2 {
                assert(s.subrange(j, j + 2)[0] == '=');
                assert(ne[0] == '!');
            } else {
                assert(s.subrange(j, j + 2) =~= b.subrange(j - n - 2, j - n));
                assert(!occurs_at(b, ne, j - n - 2));
            }
        }
    }
}

/// `a == b` and `a != b` say opposite things of any variables, where neither
/// side holds an operator of its own.
pub proof fn law_conditions_are_opposites(
    a: Seq<char>,
    b: Seq<char>,
    vars: Map<Seq<char>, Seq<char>>,
)
    requires
        forall|j: int| !occurs_at(a, unequal_mark(), j) && !occurs_at(a, equal_mark(), j),
        forall|j: int| !occurs_at(b, unequal_mark(), j),
        a.len() > 0 ==> a.last() != '!' && a.last() != '=',
    ensures
        holds(a + equal_mark() + b, vars) == Some(
            value_or_empty(vars, trimmed(a)) == unquoted(b),
        ),
        holds(a + unequal_mark() + b, vars) == Some(
            value_or_empty(vars, trimmed(a)) != unquoted(b),
        ),
{
    let n = a.len() as int;
    let s = a + equal_mark() + b;
    let t = a + unequal_mark() + b;
    lemma_no_unequal_after(a, b);
    lemma_operator_at(a, equal_mark(), b, equal_mark());
    lemma_operator_at(a, unequal_mark(), b, unequal_mark());
    lemma_find_is(s, equal_mark(), n);
    lemma_find_is(t, unequal_mark(), n);
    assert(s.take(n) =~= a && t.take(n) =~= a);
    assert(s.skip(n + 2) =~= b && t.skip(n + 2) =~= b);
}

proof fn lemma_broken(edges: Seq<FlowEdgeView>, vars: Map<Seq<char>, Seq<char>>)
    ensures
        broken_condition(edges, vars) is None <==> forall|k: int|
            0 <= k < edges.len() ==> ((#[trigger] edges[k]).cond is Some ==> holds(
                edges[k].cond->Some_0,
                vars,
            ) is Some),
    decreases edges.len(),
{
    if edges.len() > 0 {
        let rest = edges.drop_first();
        lemma_broken(rest, vars);
        assert forall|k: int| 0 <= k < rest.len() implies #[trigger] rest[k] == edges[k + 1] by {}
        if broken_condition(edges, vars) is None {
            assert forall|k: int| 0 <= k < edges.len() implies ((#[trigger] edges[k]).cond is Some
                ==> holds(edges[k].cond->Some_0, vars) is Some) by {
                if k > 0 {
                    assert(rest[k - 1] == edges[k]);
                }
            }
        } else if forall|k: int|
            0 <= k < edges.len() ==> ((#[trigger] edges[k]).cond is Some ==> holds(
                edges[k].cond->Some_0,
                vars,
            ) is Some) {
            assert(edges[0] == edges.first());
            assert forall|k: int| 0 <= k < rest.len() implies ((#[trigger] rest[k]).cond is Some
                ==> holds(rest[k].cond->Some_0, vars) is Some) by {
                assert(rest[k] == edges[k + 1]);
            }
        }
    }
}

proof fn lemma_first_broken(
    edges: Seq<FlowEdgeView>,
    vars: Map<Seq<char>, Seq<char>>,
    i: int,
)
    requires
        0 <= i < edges.len(),
        edges[i].cond is Some,
        holds(edges[i].cond->Some_0, vars) is None,
        forall|k: int|
            0 <= k < i ==> ((#[trigger] edges[k]).cond is Some ==> holds(
                edges[k].cond->Some_0,
                vars,
            ) is Some),
    ensures
        broken_condition(edges, vars) == edges[i].cond,
    decreases i,
{
    if i > 0 {
        let rest = edges.drop_first();
        assert(edges[0] == edges.first());
        assert(rest[i - 1] == edges[i]);
        assert forall|k: int| 0 <= k < i - 1 implies ((#[trigger] rest[k]).cond is Some ==> holds(
            rest[k].cond->Some_0,
            vars,
        ) is Some) by {
            assert(rest[k] == edges[k + 1]);
        }
        lemma_first_broken(rest, vars, i - 1);
    }
}

proof fn lemma_number_of_fallbacks(edges: Seq<FlowEdgeView>, i: int, j: int)
    ensures
        (forall|k: int| 0 <= k < edges.len() ==> (#[trigger] edges[k]).cond is Some) ==> fallbacks(
            edges,
        ).len() == 0,
        0 <= i < edges.len() && edges[i].cond is None ==> fallbacks(edges).len() >= 1,
        0 <= i < edges.len() && edges[i].cond is None && (forall|k: int|
            0 <= k < edges.len() && k != i ==> (#[trigger] edges[k]).cond is Some) ==> fallbacks(
            edges,
        ) == seq![edges[i].to],
        0 <= i < j < edges.len() && edges[i].cond is None && edges[j].cond is None ==> fallbacks(
            edges,
        ).len() >= 2,
    decreases edges.len(),
{
    if edges.len() > 0 {
        let n = edges.len() - 1;
        let front = edges.drop_last();
        assert(edges[n] == edges.last());
        assert forall|k: int| 0 <= k < n implies #[trigger] front[k] == edges[k] by {}
        lemma_number_of_fallbacks(front, i, j);
        if 0 <= i < edges.len() && edges[i].cond is None && (forall|k: int|
            0 <= k < edges.len() && k != i ==> (#[trigger] edges[k]).cond is Some) {
            if i == n {
                assert forall|k: int| 0 <= k < front.len() implies (
                #[trigger] front[k]).cond is Some by {
                    assert(front[k] == edges[k]);
                }
                assert(fallbacks(edges) =~= seq![edges[i].to]);
            } else {
                assert(front[i] == edges[i]);
                assert forall|k: int| 0 <= k < front.len() && k != i implies (
                #[trigger] front[k]).cond is Some by {
                    assert(front[k] == edges[k]);
                }
            }
        }
        if forall|k: int| 0 <= k < edges.len() ==> (#[trigger] edges[k]).cond is Some {
            assert forall|k: int| 0 <= k < front.len() implies (
            #[trigger] front[k]).cond is Some by {
                assert(front[k] == edges[k]);
            }
        }
        if 0 <= i < edges.len() && edges[i].cond is None && i < n {
            assert(front[i] == edges[i]);
        }
        if 0 <= i < j < edges.len() && j < n {
            assert(front[j] == edges[j]);
        }
    }
}

/// Where the edges of a step lead, for any number of edges. Without an edge the
/// path is complete. The first condition that is none is an error. Otherwise: if
/// the condition of one edge alone holds, that edge is followed; if none holds and
/// one edge alone has no condition, that one is followed; if two conditions hold,
/// or none does and two edges or no edge are without a condition, it is a choice,
/// which offers every edge with its target and its label, in their order.
pub proof fn law_edges_lead_where_the_conditions_say(
    edges: Seq<FlowEdgeView>,
    vars: Map<Seq<char>, Seq<char>>,
    i: int,
    j: int,
)
    requires
        0 <= i < edges.len(),
        0 <= j < edges.len(),
        i != j || edges.len() == 1,
    ensures
        next_step(seq![], vars) == Ok::<NextView, EngineErrorView>(NextView::End),
        edges[i].cond is Some && holds(edges[i].cond->Some_0, vars) is None && (forall|k: int|
            0 <= k < i ==> ((#[trigger] edges[k]).cond is Some ==> holds(
                edges[k].cond->Some_0,
                vars,
            ) is Some)) ==> next_step(edges, vars) == Err::<NextView, EngineErrorView>(
            EngineErrorView::Condition(edges[i].cond->Some_0),
        ),
        (forall|k: int|
            0 <= k < edges.len() ==> ((#[trigger] edges[k]).cond is Some ==> holds(
                edges[k].cond->Some_0,
                vars,
            ) is Some)) ==> {
            let none_holds = forall|k: int|
                0 <= k < edges.len() ==> ((#[trigger] edges[k]).cond is Some ==> holds(
                    edges[k].cond->Some_0,
                    vars,
                ) == Some(false));
            &&& edges[i].cond is Some && holds(edges[i].cond->Some_0, vars) == Some(true) && (
            forall|k: int|
                0 <= k < edges.len() && k != i ==> ((#[trigger] edges[k]).cond is Some ==> holds(
                    edges[k].cond->Some_0,
                    vars,
                ) == Some(false))) ==> next_step(edges, vars) == Ok::<NextView, EngineErrorView>(
                NextView::Advance(edges[i].to),
            )
            &&& none_holds && edges[i].cond is None && (forall|k: int|
                0 <= k < edges.len() && k != i ==> (#[trigger] edges[k]).cond is Some)
                ==> next_step(edges, vars) == Ok::<NextView, EngineErrorView>(
                NextView::Advance(edges[i].to),
            )
            &&& i != j && edges[i].cond is Some && edges[j].cond is Some && holds(
                edges[i].cond->Some_0,
                vars,
            ) == Some(true) && holds(edges[j].cond->Some_0, vars) == Some(true) ==> next_step(
                edges,
                vars,
            ) is Ok && next_step(edges, vars)->Ok_0 is Pick
            &&& i != j && none_holds && edges[i].cond is None && edges[j].cond is None
                ==> next_step(edges, vars) is Ok && next_step(edges, vars)->Ok_0 is Pick
            &&& none_holds && (forall|k: int|
                0 <= k < edges.len() ==> (#[trigger] edges[k]).cond is Some) ==> next_step(
                edges,
                vars,
            ) is Ok && next_step(edges, vars)->Ok_0 is Pick
        },
        next_step(edges, vars) matches Ok(NextView::Pick(o)) ==> o.len() == edges.len()
            && forall|k: int|
            0 <= k < o.len() ==> (#[trigger] o[k]).0 == edges[k].to && o[k].1
                == match edges[k].label {
                Some(l) => l,
                None => "(tanpa syarat)"@,
            },
        !(next_step(edges, vars) matches Ok(NextView::End)),
{
    lemma_broken(edges, vars);
    lemma_matching(edges, vars);
    lemma_number_of_fallbacks(edges, i, j);
    lemma_number_of_fallbacks(edges, j, i);
    if edges[i].cond is Some && holds(edges[i].cond->Some_0, vars) is None && (forall|k: int|
        0 <= k < i ==> ((#[trigger] edges[k]).cond is Some ==> holds(
            edges[k].cond->Some_0,
            vars,
        ) is Some)) {
        lemma_first_broken(edges, vars, i);
    }
    if opens(edges[i], vars) && (forall|k: int|
        0 <= k < edges.len() && k != i ==> ((#[trigger] edges[k]).cond is Some ==> holds(
            edges[k].cond->Some_0,
            vars,
        ) == Some(false))) {
        assert forall|k: int| 0 <= k < edges.len() && k != i implies !opens(
            #[trigger] edges[k],
            vars,
        ) by {}
        lemma_sole_match(edges, vars, i);
    }
    if i != j && opens(edges[i], vars) && opens(edges[j], vars) {
        if i < j {
            lemma_two_matches(edges, vars, i, j);
        } else {
            lemma_two_matches(edges, vars, j, i);
        }
    }
    if forall|k: int|
        0 <= k < edges.len() ==> ((#[trigger] edges[k]).cond is Some ==> holds(
            edges[k].cond->Some_0,
            vars,
        ) == Some(false)) {
        assert forall|k: int| 0 <= k < edges.len() implies !opens(#[trigger] edges[k], vars) by {}
    }
}

/// The value in a condition stands with or without quotes of either kind around
/// it, and white space around that changes nothing.
pub proof fn law_quotes_and_white_space_do_not_count(
    a: Seq<char>,
    q: char,
    v: Seq<char>,
    b: Seq<char>,
)
    requires
        forall|i: int| 0 <= i < a.len() ==> is_space(#[trigger] a[i]),
        forall|i: int| 0 <= i < b.len() ==> is_space(#[trigger] b[i]),
        q == '"' || q == '\'',
        v.len() > 0 ==> v.first() != '"' && v.first() != '\'' && v.last() != '"' && v.last()
            != '\'',
    ensures
        unquoted(a + (seq![q] + v + seq![q]) + b) == v,
        (v.len() > 0 ==> !is_space(v.first()) && !is_space(v.last())) ==> unquoted(a + v + b) == v,
{
    let none = Seq::<char>::empty();
    let w = seq![q] + v + seq![q];
    assert(w.first() == q && w.last() == q);
    law_strip_takes_the_ends(a, w, b, Strip::Space);
    assert(none + v + none =~= v);
    if q == '"' {
        law_strip_takes_the_ends(seq![q], v, seq![q], Strip::Only('"'));
    } else {
        assert(none + w + none =~= w);
        law_strip_takes_the_ends(none, w, none, Strip::Only('"'));
        law_strip_takes_the_ends(seq![q], v, seq![q], Strip::Only('\''));
    }
    law_strip_takes_the_ends(none, v, none, Strip::Only('"'));
    law_strip_takes_the_ends(none, v, none, Strip::Only('\''));
    if v.len() > 0 ==> !is_space(v.first()) && !is_space(v.last()) {
        law_strip_takes_the_ends(a, v, b, Strip::Space);
    }
}

/// A condition compares the variable on its left with the text on its right:
/// `==` holds exactly when they are the same and `!=` exactly when they are not. A
/// variable without a value is the empty text. A text without either operator is
/// no condition.
pub proof fn law_conditions_compare(
    n: Seq<char>,
    v: Seq<char>,
    e: Seq<char>,
    vars: Map<Seq<char>, Seq<char>>,
)
    requires
        forall|i: int|
            0 <= i < n.len() ==> (#[trigger] n[i]) != '=' && n[i] != '!' && !is_space(n[i]),
        v.len() > 0 ==> v.first() != '"' && v.first() != '\'' && v.last() != '"' && v.last()
            != '\'' && !is_space(v.first()) && !is_space(v.last()),
        !v.contains('!'),
    ensures
        ({
            let value = if vars.contains_key(n) {
                vars[n]
            } else {
                Seq::<char>::empty()
            };
            &&& holds(n + seq!['=', '='] + v, vars) == Some(value == v)
            &&& holds(n + seq![' ', '=', '=', ' '] + v, vars) == Some(value == v)
            &&& holds(n + seq!['!', '='] + v, vars) == Some(value != v)
            &&& holds(n + seq![' ', '!', '=', ' '] + v, vars) == Some(value != v)
        }),
        holds(e, vars) is None <==> forall|i: int|
            0 <= i < e.len() - 1 ==> !((#[trigger] e[i] == '=' || e[i] == '!') && e[i + 1] == '='),
{
    let none = Seq::<char>::empty();
    let blank = seq![' '];
    if n.len() > 0 {
        assert(!is_space(n[0]) && !is_space(n[n.len() - 1]));
    }
    law_trim_takes_white_space(none, n, blank);
    law_trim_takes_white_space(none, n, none);
    assert(none + n + blank =~= n + blank);
    law_quotes_and_white_space_do_not_count(none, '"', v, none);
    law_quotes_and_white_space_do_not_count(blank, '"', v, none);
    assert(none + v + none =~= v);
    assert(blank + v + none =~= blank + v);
    lemma_plain_sides(n, v);
    lemma_plain_sides(n + blank, blank + v);
    law_conditions_are_opposites(n, v, vars);
    law_conditions_are_opposites(n + blank, blank + v, vars);
    assert(n + seq![' ', '=', '=', ' '] + v =~= (n + blank) + equal_mark() + (blank + v));
    assert(n + seq![' ', '!', '=', ' '] + v =~= (n + blank) + unequal_mark() + (blank + v));
    assert(value_or_empty(vars, n) =~= if vars.contains_key(n) {
        vars[n]
    } else {
        none
    });
    lemma_find_from(e, unequal_mark(), 0);
    lemma_find_from(e, equal_mark(), 0);
    if holds(e, vars) is None {
        assert forall|i: int| 0 <= i < e.len() - 1 implies !((#[trigger] e[i] == '=' || e[i]
            == '!') && e[i + 1] == '=') by {
            if e[i + 1] == '=' && e[i] == '=' {
                assert(e.subrange(i, i + 2) =~= equal_mark());
                assert(occurs_at(e, equal_mark(), i));
            }
            if e[i + 1] == '=' && e[i] == '!' {
                assert(e.subrange(i, i + 2) =~= unequal_mark());
                assert(occurs_at(e, unequal_mark(), i));
            }
        }
    } else {
        let mark = if find(e, unequal_mark()) is Some {
            unequal_mark()
        } else {
            equal_mark()
        };
        let i = find(e, mark)->Some_0;
        assert(occurs_at(e, mark, i));
        assert(e.subrange(i, i + 2)[0] == e[i]);
        assert(e.subrange(i, i + 2)[1] == e[i + 1]);
    }
}

proof fn lemma_plain_sides(a: Seq<char>, b: Seq<char>)
    requires
        forall|i: int| 0 <= i < a.len() ==> (#[trigger] a[i]) != '=' && a[i] != '!',
        !b.contains('!'),
    ensures
        forall|j: int| !occurs_at(a, unequal_mark(), j) && !occurs_at(a, equal_mark(), j),
        forall|j: int| !occurs_at(b, unequal_mark(), j),
        a.len() > 0 ==> a.last() != '!' && a.last() != '=',
{
    assert forall|j: int| !occurs_at(a, unequal_mark(), j) && !occurs_at(a, equal_mark(), j) by {
        if 0 <= j && j + 2 <= a.len() {
            assert(a.subrange(j, j + 2)[1] == a[j + 1]);
        }
    }
    assert forall|j: int| !occurs_at(b, unequal_mark(), j) by {
        if 0 <= j && j + 2 <= b.len() {
            assert(b.subrange(j, j + 2)[0] == b[j]);
            assert(b.contains(b[j]));
        }
    }
}

/// Where both operators stand in a condition, the first `!=` decides: all before
/// it is the variable, and all after it the value.
pub proof fn law_unequal_comes_first(a: Seq<char>, b: Seq<char>, vars: Map<Seq<char>, Seq<char>>)
    requires
        forall|i: int| 0 <= i < a.len() - 1 ==> !(#[trigger] a[i] == '!' && a[i + 1] == '='),
    ensures
        holds(a + seq!['!', '='] + b, vars) == Some(
            (if vars.contains_key(trimmed(a)) {
                vars[trimmed(a)]
            } else {
                Seq::<char>::empty()
            }) != unquoted(b),
        ),
{
    let s = a + seq!['!', '='] + b;
    let n = a.len() as int;
    assert(s.subrange(n, n + 2) =~= unequal_mark());
    assert forall|j: int| 0 <= j < n implies !occurs_at(s, unequal_mark(), j) by {
        if occurs_at(s, unequal_mark(), j) {
            assert(s.subrange(j, j + 2)[0] == s[j]);
            assert(s.subrange(j, j + 2)[1] == s[j + 1]);
            assert(s[j] == a[j]);
            if j + 1 < n {
                assert(s[j + 1] == a[j + 1]);
            }
        }
    }
    lemma_find_is(s, unequal_mark(), n);
    assert(s.take(n) =~= a);
    assert(s.skip(n + 2) =~= b);
    assert(value_or_empty(vars, trimmed(a)) =~= if vars.contains_key(trimmed(a)) {
        vars[trimmed(a)]
    } else {
        Seq::<char>::empty()
    });
}

/// All the quotes around a value are taken off, however many there are: the double
/// ones first, then the single ones.
pub proof fn law_all_quotes_are_taken_off(
    a: Seq<char>,
    d1: Seq<char>,
    s1: Seq<char>,
    v: Seq<char>,
    s2: Seq<char>,
    d2: Seq<char>,
    b: Seq<char>,
)
    requires
        forall|i: int| 0 <= i < a.len() ==> is_space(#[trigger] a[i]),
        forall|i: int| 0 <= i < b.len() ==> is_space(#[trigger] b[i]),
        forall|i: int| 0 <= i < d1.len() ==> #[trigger] d1[i] == '"',
        forall|i: int| 0 <= i < d2.len() ==> #[trigger] d2[i] == '"',
        forall|i: int| 0 <= i < s1.len() ==> #[trigger] s1[i] == '\'',
        forall|i: int| 0 <= i < s2.len() ==> #[trigger] s2[i] == '\'',
        v.len() > 0,
        v.first() != '"' && v.first() != '\'' && !is_space(v.first()),
        v.last() != '"' && v.last() != '\'' && !is_space(v.last()),
    ensures
        unquoted(a + (d1 + (s1 + v + s2) + d2) + b) == v,
{
    let m = s1 + v + s2;
    let w = d1 + m + d2;
    if s1.len() > 0 {
        assert(m.first() == s1[0]);
    } else {
        assert(m.first() == v.first());
    }
    if s2.len() > 0 {
        assert(m.last() == s2[s2.len() - 1]);
    } else {
        assert(m.last() == v.last());
    }
    if d1.len() > 0 {
        assert(w.first() == d1[0]);
    } else {
        assert(w.first() == m.first());
    }
    if d2.len() > 0 {
        assert(w.last() == d2[d2.len() - 1]);
    } else {
        assert(w.last() == m.last());
    }
    law_strip_takes_the_ends(a, w, b, Strip::Space);
    law_strip_takes_the_ends(d1, m, d2, Strip::Only('"'));
    law_strip_takes_the_ends(s1, v, s2, Strip::Only('\''));
}

} // verus!
