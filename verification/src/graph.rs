//! Directed graphs over the nodes `0..n`: the order in which the nodes become
//! ready, and what it says about cycles.

use vstd::prelude::*;

verus! {

/// An arc from the first node to the second.
pub type Arc = (int, int);

/// Every arc joins two of the `n` nodes.
pub open spec fn arcs_within(arcs: Seq<Arc>, n: nat) -> bool {
    forall|i: int|
        0 <= i < arcs.len() ==> 0 <= (#[trigger] arcs[i]).0 < n && 0 <= arcs[i].1 < n
}

/// The number of arcs into `v` from nodes that are not in `done`.
pub open spec fn waiting(arcs: Seq<Arc>, done: Set<int>, v: int) -> nat
    decreases arcs.len(),
{
    if arcs.len() == 0 {
        0
    } else {
        waiting(arcs.drop_last(), done, v) + if arcs.last().1 == v && !done.contains(arcs.last().0) {
            1nat
        } else {
            0
        }
    }
}

/// The number of arcs into `v`.
pub open spec fn indegree(arcs: Seq<Arc>, v: int) -> nat {
    waiting(arcs, Set::empty(), v)
}

/// The nodes, in ascending order, that no arc leads to.
pub open spec fn sources(arcs: Seq<Arc>, n: nat) -> Seq<int>
    decreases n,
{
    if n == 0 {
        seq![]
    } else if indegree(arcs, n - 1) == 0 {
        sources(arcs, (n - 1) as nat).push(n - 1)
    } else {
        sources(arcs, (n - 1) as nat)
    }
}

/// Like `waiting`, but the first `k` arcs no longer count if they leave `u`.
pub open spec fn waiting_past(arcs: Seq<Arc>, done: Set<int>, u: int, k: int, v: int) -> nat
    decreases arcs.len(),
{
    if arcs.len() == 0 {
        0
    } else {
        let last = arcs.len() - 1;
        waiting_past(arcs.drop_last(), done, u, k, v) + if arcs.last().1 == v && !done.contains(
            arcs.last().0,
        ) && !(arcs.last().0 == u && last < k) {
            1nat
        } else {
            0
        }
    }
}

/// The nodes that become ready when `u` is done, in the order of the arcs that
/// release them, looking at the first `k` arcs: a node is released by the arc
/// out of `u` after which it waits for nothing.
pub open spec fn released_by(arcs: Seq<Arc>, done: Set<int>, u: int, k: int) -> Seq<int>
    decreases k,
{
    if k <= 0 {
        seq![]
    } else {
        let head = released_by(arcs, done, u, k - 1);
        let arc = arcs[k - 1];
        if arc.0 == u && waiting_past(arcs, done, u, k, arc.1) == 0 {
            head.push(arc.1)
        } else {
            head
        }
    }
}

/// The nodes that become ready when `u` is done, after those in `done`.
pub open spec fn released(arcs: Seq<Arc>, done: Set<int>, u: int) -> Seq<int> {
    released_by(arcs, done, u, arcs.len() as int)
}

/// The list of ready nodes, extended by what its members from position `h` on
/// release, each in turn; `fuel` bounds the number of members looked at.
pub open spec fn ready_from(arcs: Seq<Arc>, list: Seq<int>, h: int, fuel: nat) -> Seq<int>
    decreases fuel,
{
    if fuel == 0 || h >= list.len() {
        list
    } else {
        ready_from(
            arcs,
            list + released(arcs, list.take(h).to_set(), list[h]),
            h + 1,
            (fuel - 1) as nat,
        )
    }
}

/// The nodes in the order in which they become ready, starting from `start`:
/// first come, first served.
pub open spec fn ready_order(arcs: Seq<Arc>, n: nat, start: int) -> Seq<int> {
    ready_from(arcs, seq![start], 0, n)
}

/// The nodes, in ascending order, that are not in a list.
pub open spec fn left_out(list: Seq<int>, n: nat) -> Seq<int>
    decreases n,
{
    if n == 0 {
        seq![]
    } else if list.contains(n - 1) {
        left_out(list, (n - 1) as nat)
    } else {
        left_out(list, (n - 1) as nat).push(n - 1)
    }
}

/// The number of arcs out of `v`.
pub open spec fn outdegree(arcs: Seq<Arc>, v: int) -> nat
    decreases arcs.len(),
{
    if arcs.len() == 0 {
        0
    } else {
        outdegree(arcs.drop_last(), v) + if arcs.last().0 == v {
            1nat
        } else {
            0
        }
    }
}

/// No node has more than one arc out of it.
pub open spec fn is_chain(arcs: Seq<Arc>, n: nat) -> bool {
    forall|v: int| 0 <= v < n ==> #[trigger] outdegree(arcs, v) <= 1
}

/// Following the arcs, `walk` visits its nodes one after the other.
pub open spec fn is_walk(arcs: Seq<Arc>, walk: Seq<int>) -> bool {
    forall|i: int|
        0 <= i < walk.len() - 1 ==> #[trigger] arcs.contains((walk[i], walk[i + 1]))
}

/// A walk of at least one arc comes back to where it began.
pub open spec fn is_cycle(arcs: Seq<Arc>, walk: Seq<int>) -> bool {
    walk.len() >= 2 && walk.first() == walk.last() && is_walk(arcs, walk)
}

pub open spec fn has_cycle(arcs: Seq<Arc>) -> bool {
    exists|walk: Seq<int>| is_cycle(arcs, walk)
}

/// The arc leads from an earlier member of the list to a later one.
pub open spec fn goes_forward(list: Seq<int>, arc: Arc) -> bool {
    exists|a: int, b: int| 0 <= a < b < list.len() && list[a] == arc.0 && list[b] == arc.1
}

/// Every arc leads from an earlier member of the list to a later one.
pub open spec fn is_topological(arcs: Seq<Arc>, list: Seq<int>) -> bool {
    forall|i: int| 0 <= i < arcs.len() ==> goes_forward(list, #[trigger] arcs[i])
}

/// The list holds each of the nodes `0..n` once and nothing else.
pub open spec fn is_permutation(list: Seq<int>, n: nat) -> bool {
    &&& list.len() == n
    &&& list.no_duplicates()
    &&& forall|i: int| 0 <= i < list.len() ==> 0 <= #[trigger] list[i] < n
}

/// What holds of the list of ready nodes at each point: no node twice, a node
/// is listed exactly when it waits for nothing but the members before `h`, and
/// what a member waited for stands before it.
pub open spec fn ready_list(arcs: Seq<Arc>, n: nat, list: Seq<int>, h: int) -> bool {
    &&& 0 <= h <= list.len()
    &&& list.no_duplicates()
    &&& forall|i: int| 0 <= i < list.len() ==> 0 <= #[trigger] list[i] < n
    &&& forall|v: int|
        0 <= v < n ==> (#[trigger] list.contains(v) <==> waiting(
            arcs,
            list.take(h).to_set(),
            v,
        ) == 0)
    &&& forall|j: int, a: int|
        0 <= j < list.len() && 0 <= a < arcs.len() && #[trigger] arcs[a].1 == #[trigger] list[j]
            ==> list.take(j).contains(arcs[a].0)
}

/// A node waits for nothing exactly when every arc into it comes from a node that is
/// done.
pub proof fn lemma_waiting_zero(arcs: Seq<Arc>, done: Set<int>, v: int)
    ensures
        waiting(arcs, done, v) == 0 <==> forall|a: int|
            0 <= a < arcs.len() && (#[trigger] arcs[a]).1 == v ==> done.contains(arcs[a].0),
    decreases arcs.len(),
{
    if arcs.len() > 0 {
        let d = arcs.drop_last();
        lemma_waiting_zero(d, done, v);
        if waiting(arcs, done, v) == 0 {
            assert forall|a: int| 0 <= a < arcs.len() && (#[trigger] arcs[a]).1
                == v implies done.contains(arcs[a].0) by {
                if a < d.len() {
                    assert(d[a] == arcs[a]);
                }
            }
        } else {
            if waiting(d, done, v) != 0 {
                let a = choose|a: int|
                    0 <= a < d.len() && (#[trigger] d[a]).1 == v && !done.contains(d[a].0);
                assert(arcs[a] == d[a]);
            } else {
                assert(arcs[arcs.len() - 1].1 == v);
            }
        }
    }
}

pub proof fn lemma_waiting_past_ends(arcs: Seq<Arc>, done: Set<int>, u: int, v: int)
    ensures
        waiting_past(arcs, done, u, 0, v) == waiting(arcs, done, v),
        forall|k: int|
            k >= arcs.len() ==> #[trigger] waiting_past(arcs, done, u, k, v) == waiting(
                arcs,
                done.insert(u),
                v,
            ),
    decreases arcs.len(),
{
    if arcs.len() > 0 {
        lemma_waiting_past_ends(arcs.drop_last(), done, u, v);
        assert forall|k: int| k >= arcs.len() implies #[trigger] waiting_past(arcs, done, u, k, v)
            == waiting(arcs, done.insert(u), v) by {
            assert(waiting_past(arcs.drop_last(), done, u, k, v) == waiting(
                arcs.drop_last(),
                done.insert(u),
                v,
            ));
        }
    }
}

/// Passing one more arc lowers the count of its target by one if the arc leaves
/// `u`, and changes nothing else.
pub proof fn lemma_waiting_past_step(arcs: Seq<Arc>, done: Set<int>, u: int, k: int, v: int)
    requires
        0 <= k < arcs.len(),
        !done.contains(u),
    ensures
        waiting_past(arcs, done, u, k, v) == waiting_past(arcs, done, u, k + 1, v) + if arcs[k]
            == (u, v) {
            1nat
        } else {
            0
        },
    decreases arcs.len(),
{
    let d = arcs.drop_last();
    if k < d.len() {
        lemma_waiting_past_step(d, done, u, k, v);
    } else {
        lemma_waiting_past_same(d, done, u, k, v);
    }
}

proof fn lemma_waiting_past_same(arcs: Seq<Arc>, done: Set<int>, u: int, k: int, v: int)
    requires
        k >= arcs.len(),
    ensures
        waiting_past(arcs, done, u, k, v) == waiting_past(arcs, done, u, k + 1, v),
    decreases arcs.len(),
{
    if arcs.len() > 0 {
        lemma_waiting_past_same(arcs.drop_last(), done, u, k, v);
    }
}

/// The released nodes are those that waited before and no longer wait, each
/// listed once.
proof fn lemma_released_by(arcs: Seq<Arc>, n: nat, done: Set<int>, u: int, k: int)
    requires
        0 <= k <= arcs.len(),
        arcs_within(arcs, n),
        !done.contains(u),
    ensures
        released_by(arcs, done, u, k).no_duplicates(),
        forall|i: int|
            0 <= i < released_by(arcs, done, u, k).len() ==> 0 <= #[trigger] released_by(
                arcs,
                done,
                u,
                k,
            )[i] < n,
        forall|v: int| #[trigger]
            released_by(arcs, done, u, k).contains(v) <==> waiting(arcs, done, v) > 0
                && waiting_past(arcs, done, u, k, v) == 0,
    decreases k,
{
    let now = released_by(arcs, done, u, k);
    if k > 0 {
        let head = released_by(arcs, done, u, k - 1);
        let arc = arcs[k - 1];
        lemma_released_by(arcs, n, done, u, k - 1);
        assert forall|v: int| #[trigger] now.contains(v) <==> waiting(arcs, done, v) > 0
            && waiting_past(arcs, done, u, k, v) == 0 by {
            lemma_waiting_past_step(arcs, done, u, k - 1, v);
            lemma_waiting_past_le(arcs, done, u, k - 1, v);
            assert(head.contains(v) <==> waiting(arcs, done, v) > 0 && waiting_past(
                arcs,
                done,
                u,
                k - 1,
                v,
            ) == 0);
            if now.len() > head.len() {
                assert(now == head.push(arc.1));
                if now.contains(v) {
                    let i = choose|i: int| 0 <= i < now.len() && now[i] == v;
                    if i < head.len() {
                        assert(head[i] == v);
                    }
                }
                if head.contains(v) {
                    let i = choose|i: int| 0 <= i < head.len() && head[i] == v;
                    assert(now[i] == v);
                }
                assert(now[head.len() as int] == arc.1);
            }
        }
        if now.len() > head.len() {
            lemma_waiting_past_step(arcs, done, u, k - 1, arc.1);
            assert(!head.contains(arc.1));
            assert(now.no_duplicates());
        }
    } else {
        assert forall|v: int| #[trigger] now.contains(v) <==> waiting(arcs, done, v) > 0
            && waiting_past(arcs, done, u, k, v) == 0 by {
            lemma_waiting_past_ends(arcs, done, u, v);
        }
    }
}

proof fn lemma_waiting_past_le(arcs: Seq<Arc>, done: Set<int>, u: int, k: int, v: int)
    ensures
        waiting_past(arcs, done, u, k, v) <= waiting(arcs, done, v),
    decreases arcs.len(),
{
    if arcs.len() > 0 {
        lemma_waiting_past_le(arcs.drop_last(), done, u, k, v);
    }
}

pub proof fn lemma_take_push(list: Seq<int>, h: int)
    requires
        0 <= h < list.len(),
    ensures
        list.take(h + 1).to_set() == list.take(h).to_set().insert(list[h]),
{
    let a = list.take(h);
    let b = list.take(h + 1);
    assert forall|x: int| #[trigger] b.to_set().contains(x) <==> a.to_set().insert(
        list[h],
    ).contains(x) by {
        if b.contains(x) {
            let i = choose|i: int| 0 <= i < b.len() && b[i] == x;
            if i < h {
                assert(a[i] == x);
            }
        }
        if a.contains(x) {
            let i = choose|i: int| 0 <= i < a.len() && a[i] == x;
            assert(b[i] == x);
        }
        assert(b[h] == list[h]);
    }
    assert(b.to_set() =~= a.to_set().insert(list[h]));
}

/// Doing the node at `h` and listing what it releases keeps the list a list of
/// ready nodes.
pub proof fn lemma_ready_step(arcs: Seq<Arc>, n: nat, list: Seq<int>, h: int)
    requires
        arcs_within(arcs, n),
        ready_list(arcs, n, list, h),
        h < list.len(),
    ensures
        ready_list(
            arcs,
            n,
            list + released(arcs, list.take(h).to_set(), list[h]),
            h + 1,
        ),
        !list.take(h).to_set().contains(list[h]),
{
    let u = list[h];
    let done = list.take(h).to_set();
    if done.contains(u) {
        let front = list.take(h);
        let i = choose|i: int| 0 <= i < front.len() && front[i] == u;
        assert(list[i] == list[h]);
    }
    let rel = released(arcs, done, u);
    let next = list + rel;
    lemma_released_by(arcs, n, done, u, arcs.len() as int);
    lemma_take_push(list, h);
    assert(next.take(h + 1) == list.take(h + 1));
    let done2 = next.take(h + 1).to_set();
    assert(done2 == done.insert(u));
    assert forall|v: int| 0 <= v < n implies (#[trigger] next.contains(v) <==> waiting(
        arcs,
        done2,
        v,
    ) == 0) by {
        lemma_waiting_past_ends(arcs, done, u, v);
        lemma_waiting_past_le(arcs, done, u, arcs.len() as int, v);
        assert(rel.contains(v) <==> waiting(arcs, done, v) > 0 && waiting(arcs, done2, v) == 0);
        assert(list.contains(v) <==> waiting(arcs, done, v) == 0);
        lemma_contains_concat(list, rel, v);
    }
    assert forall|i: int, j: int| 0 <= i < next.len() && 0 <= j < next.len() && i != j implies next[i]
        != next[j] by {
        let ll = list.len() as int;
        if i < ll && j >= ll {
            assert(list.contains(list[i]) && rel.contains(rel[j - ll]));
        } else if j < ll && i >= ll {
            assert(list.contains(list[j]) && rel.contains(rel[i - ll]));
        }
    }
    assert forall|j: int, a: int|
        0 <= j < next.len() && 0 <= a < arcs.len() && #[trigger] arcs[a].1
            == #[trigger] next[j] implies next.take(j).contains(arcs[a].0) by {
        if j < list.len() {
            assert(arcs[a].1 == list[j]);
            assert(next.take(j) == list.take(j));
        } else {
            let v = next[j];
            assert(rel.contains(rel[j - list.len()]));
            lemma_waiting_past_ends(arcs, done, u, v);
            lemma_waiting_zero(arcs, done2, v);
            assert(done2.contains(arcs[a].0));
            let front = next.take(h + 1);
            let i = choose|i: int| 0 <= i < front.len() && front[i] == arcs[a].0;
            assert(next.take(j)[i] == arcs[a].0);
        }
    }
}

proof fn lemma_contains_concat(a: Seq<int>, b: Seq<int>, v: int)
    ensures
        (a + b).contains(v) <==> a.contains(v) || b.contains(v),
{
    if a.contains(v) {
        let i = choose|i: int| 0 <= i < a.len() && a[i] == v;
        assert((a + b)[i] == v);
    }
    if b.contains(v) {
        let i = choose|i: int| 0 <= i < b.len() && b[i] == v;
        assert((a + b)[a.len() + i] == v);
    }
}

/// A list of different nodes is no longer than there are nodes.
pub proof fn lemma_pigeonhole(list: Seq<int>, n: nat)
    requires
        list.no_duplicates(),
        forall|i: int| 0 <= i < list.len() ==> 0 <= #[trigger] list[i] < n,
    ensures
        list.len() <= n,
{
    let all = vstd::set_lib::set_int_range(0, n as int);
    vstd::set_lib::lemma_int_range(0, n as int);
    list.unique_seq_to_set();
    assert(list.to_set().subset_of(all)) by {
        assert forall|x: int| list.to_set().contains(x) implies all.contains(x) by {
            let i = choose|i: int| 0 <= i < list.len() && list[i] == x;
        }
    }
    vstd::set_lib::lemma_len_subset(list.to_set(), all);
}

/// The sources are the nodes that no arc leads to, in ascending order.
pub proof fn lemma_sources(arcs: Seq<Arc>, n: nat)
    ensures
        forall|v: int| #[trigger]
            sources(arcs, n).contains(v) <==> 0 <= v < n && indegree(arcs, v) == 0,
        forall|i: int| 0 <= i < sources(arcs, n).len() ==> 0 <= #[trigger] sources(arcs, n)[i] < n,
        forall|i: int, j: int|
            0 <= i < j < sources(arcs, n).len() ==> sources(arcs, n)[i] < sources(arcs, n)[j],
    decreases n,
{
    if n > 0 {
        let m = (n - 1) as nat;
        lemma_sources(arcs, m);
        let s = sources(arcs, m);
        let t = sources(arcs, n);
        assert forall|v: int| #[trigger] t.contains(v) <==> 0 <= v < n && indegree(arcs, v) == 0 by {
            assert(s.contains(v) <==> 0 <= v < m && indegree(arcs, v) == 0);
            if t.len() > s.len() {
                lemma_contains_concat(s, seq![n - 1], v);
                assert(t == s + seq![n - 1]);
                assert(seq![n - 1][0] == n - 1);
            }
        }
    }
}

/// The nodes left out of a list are the others, in ascending order.
pub proof fn lemma_left_out(list: Seq<int>, n: nat)
    ensures
        forall|v: int| #[trigger]
            left_out(list, n).contains(v) <==> 0 <= v < n && !list.contains(v),
        forall|i: int| 0 <= i < left_out(list, n).len() ==> 0 <= #[trigger] left_out(list, n)[i] < n,
        forall|i: int, j: int|
            0 <= i < j < left_out(list, n).len() ==> left_out(list, n)[i] < left_out(list, n)[j],
    decreases n,
{
    if n > 0 {
        let m = (n - 1) as nat;
        lemma_left_out(list, m);
        let s = left_out(list, m);
        let t = left_out(list, n);
        assert forall|v: int| #[trigger] t.contains(v) <==> 0 <= v < n && !list.contains(v) by {
            assert(s.contains(v) <==> 0 <= v < m && !list.contains(v));
            if t.len() > s.len() {
                lemma_contains_concat(s, seq![n - 1], v);
                assert(t == s + seq![n - 1]);
                assert(seq![n - 1][0] == n - 1);
            }
        }
    }
}

/// A single source is a list of ready nodes.
pub proof fn lemma_ready_start(arcs: Seq<Arc>, n: nat, start: int)
    requires
        arcs_within(arcs, n),
        sources(arcs, n) == seq![start],
    ensures
        ready_list(arcs, n, seq![start], 0),
{
    let list = seq![start];
    lemma_sources(arcs, n);
    assert(sources(arcs, n)[0] == start);
    assert(list.take(0).to_set() =~= Set::<int>::empty());
    assert forall|v: int| 0 <= v < n implies (#[trigger] list.contains(v) <==> waiting(
        arcs,
        list.take(0).to_set(),
        v,
    ) == 0) by {
        assert(sources(arcs, n).contains(v) <==> indegree(arcs, v) == 0);
    }
    assert forall|j: int, a: int|
        0 <= j < list.len() && 0 <= a < arcs.len() && #[trigger] arcs[a].1
            == #[trigger] list[j] implies list.take(j).contains(arcs[a].0) by {
        assert(sources(arcs, n).contains(start));
        lemma_waiting_zero(arcs, Set::<int>::empty(), start);
    }
}

/// The start is the first to become ready.
pub proof fn lemma_ready_first(arcs: Seq<Arc>, n: nat, start: int)
    ensures
        ready_order(arcs, n, start).len() >= 1,
        ready_order(arcs, n, start)[0] == start,
{
    lemma_ready_from_prefix(arcs, seq![start], 0, n);
}

proof fn lemma_ready_from_prefix(arcs: Seq<Arc>, list: Seq<int>, h: int, fuel: nat)
    requires
        list.len() > 0,
    ensures
        ready_from(arcs, list, h, fuel).len() > 0,
        ready_from(arcs, list, h, fuel)[0] == list[0],
    decreases fuel,
{
    if fuel > 0 && h < list.len() {
        let next = list + released(arcs, list.take(h).to_set(), list[h]);
        lemma_ready_from_prefix(arcs, next, h + 1, (fuel - 1) as nat);
    }
}

/// The order in which the nodes become ready is a list of ready nodes with
/// nothing left to do.
pub proof fn lemma_ready_order(arcs: Seq<Arc>, n: nat, start: int)
    requires
        arcs_within(arcs, n),
        sources(arcs, n) == seq![start],
    ensures
        ready_list(
            arcs,
            n,
            ready_order(arcs, n, start),
            ready_order(arcs, n, start).len() as int,
        ),
        ready_order(arcs, n, start).len() <= n,
{
    lemma_ready_start(arcs, n, start);
    lemma_ready_from(arcs, n, seq![start], 0, n);
    lemma_pigeonhole(ready_order(arcs, n, start), n);
}

proof fn lemma_ready_from(arcs: Seq<Arc>, n: nat, list: Seq<int>, h: int, fuel: nat)
    requires
        arcs_within(arcs, n),
        ready_list(arcs, n, list, h),
        fuel == n - h,
    ensures
        ready_list(
            arcs,
            n,
            ready_from(arcs, list, h, fuel),
            ready_from(arcs, list, h, fuel).len() as int,
        ),
    decreases fuel,
{
    lemma_pigeonhole(list, n);
    if h < list.len() {
        lemma_ready_step(arcs, n, list, h);
        let next = list + released(arcs, list.take(h).to_set(), list[h]);
        lemma_ready_from(arcs, n, next, h + 1, (fuel - 1) as nat);
    }
}

/// Naming each node by its position in a list keeps the number of arcs into and
/// out of it.
pub proof fn lemma_renamed(arcs: Seq<Arc>, moved: Seq<Arc>, list: Seq<int>, n: nat)
    requires
        arcs_within(arcs, n),
        is_permutation(list, n),
        forall|v: int| 0 <= v < n ==> #[trigger] list.contains(v),
        moved.len() == arcs.len(),
        forall|i: int|
            0 <= i < arcs.len() ==> #[trigger] moved[i] == (
                list.index_of(arcs[i].0),
                list.index_of(arcs[i].1),
            ),
    ensures
        forall|w: int|
            #![trigger indegree(moved, w)]
            #![trigger outdegree(moved, w)]
            0 <= w < n ==> indegree(moved, w) == indegree(arcs, list[w]) && outdegree(moved, w)
                == outdegree(arcs, list[w]),
    decreases arcs.len(),
{
    if arcs.len() > 0 {
        let a = arcs.drop_last();
        let m = moved.drop_last();
        assert forall|i: int| 0 <= i < a.len() implies #[trigger] m[i] == (
            list.index_of(a[i].0),
            list.index_of(a[i].1),
        ) by {
            assert(m[i] == moved[i]);
        }
        assert forall|i: int| 0 <= i < a.len() implies 0 <= (#[trigger] a[i]).0 < n && 0 <= a[i].1
            < n by {
            assert(a[i] == arcs[i]);
        }
        lemma_renamed(a, m, list, n);
        let last = arcs[arcs.len() - 1];
        assert(moved[moved.len() - 1] == (list.index_of(last.0), list.index_of(last.1)));
        assert forall|w: int|
            #![trigger indegree(moved, w)]
            #![trigger outdegree(moved, w)]
            0 <= w < n implies indegree(moved, w) == indegree(arcs, list[w]) && outdegree(moved, w)
            == outdegree(arcs, list[w]) by {
            assert(indegree(m, w) == indegree(a, list[w]));
            assert(outdegree(m, w) == outdegree(a, list[w]));
            lemma_index_of(list, w);
            assert(list.contains(last.0) && list.contains(last.1));
        }
    }
}

/// A list of all nodes in which what a member waited for stands before it is
/// topological.
pub proof fn lemma_ready_all(arcs: Seq<Arc>, n: nat, list: Seq<int>)
    requires
        arcs_within(arcs, n),
        ready_list(arcs, n, list, list.len() as int),
        list.len() == n,
    ensures
        is_permutation(list, n),
        is_topological(arcs, list),
        forall|v: int| 0 <= v < n ==> #[trigger] list.contains(v),
{
    assert forall|v: int| 0 <= v < n implies #[trigger] list.contains(v) by {
        if !list.contains(v) {
            let more = list.push(v);
            assert(more.no_duplicates()) by {
                assert forall|i: int, j: int|
                    0 <= i < more.len() && 0 <= j < more.len() && i != j implies more[i]
                    != more[j] by {
                    if i < list.len() && j == list.len() {
                        assert(list.contains(list[i]));
                    } else if j < list.len() && i == list.len() {
                        assert(list.contains(list[j]));
                    }
                }
            }
            lemma_pigeonhole(more, n);
        }
    }
    assert forall|i: int| 0 <= i < arcs.len() implies goes_forward(list, #[trigger] arcs[i]) by {
        let v = arcs[i].1;
        assert(list.contains(v));
        let b = choose|b: int| 0 <= b < list.len() && list[b] == v;
        assert(list.take(b).contains(arcs[i].0));
        let front = list.take(b);
        let a = choose|a: int| 0 <= a < front.len() && front[a] == arcs[i].0;
        assert(list[a] == arcs[i].0);
    }
}

/// The position of a node in a list of different nodes.
pub proof fn lemma_index_of(list: Seq<int>, a: int)
    requires
        list.no_duplicates(),
        0 <= a < list.len(),
    ensures
        list.index_of(list[a]) == a,
{
    let x = list[a];
    assert(list.contains(x));
    let i = list.index_of(x);
    assert(0 <= i < list.len() && list[i] == x);
}

/// A graph with a topological list has no cycle: a walk only goes forward.
pub proof fn lemma_topological_acyclic(arcs: Seq<Arc>, list: Seq<int>)
    requires
        list.no_duplicates(),
        is_topological(arcs, list),
    ensures
        !has_cycle(arcs),
{
    if has_cycle(arcs) {
        let walk = choose|walk: Seq<int>| is_cycle(arcs, walk);
        lemma_walk_forward(arcs, list, walk, walk.len() - 1);
    }
}

proof fn lemma_walk_forward(arcs: Seq<Arc>, list: Seq<int>, walk: Seq<int>, k: int)
    requires
        list.no_duplicates(),
        is_topological(arcs, list),
        is_walk(arcs, walk),
        1 <= k < walk.len(),
    ensures
        list.index_of(walk[0]) < list.index_of(walk[k]),
    decreases k,
{
    assert(arcs.contains((walk[k - 1], walk[k - 1 + 1])));
    let i = choose|i: int| 0 <= i < arcs.len() && arcs[i] == (walk[k - 1], walk[k]);
    let arc = arcs[i];
    assert(goes_forward(list, arc));
    let (a, b) = choose|a: int, b: int|
        0 <= a < b < list.len() && list[a] == arc.0 && list[b] == arc.1;
    lemma_index_of(list, a);
    lemma_index_of(list, b);
    if k > 1 {
        lemma_walk_forward(arcs, list, walk, k - 1);
    }
}

/// A node that an unlisted node waits for and that is not listed either.
spec fn blocker(arcs: Seq<Arc>, list: Seq<int>, v: int) -> int {
    choose|u: int| !list.contains(u) && arcs.contains((u, v))
}

/// From `v` back to what it waits for, `k` times.
spec fn back(arcs: Seq<Arc>, list: Seq<int>, v: int, k: nat) -> int
    decreases k,
{
    if k == 0 {
        v
    } else {
        blocker(arcs, list, back(arcs, list, v, (k - 1) as nat))
    }
}

proof fn lemma_blocker(arcs: Seq<Arc>, n: nat, list: Seq<int>, v: int)
    requires
        arcs_within(arcs, n),
        ready_list(arcs, n, list, list.len() as int),
        0 <= v < n,
        !list.contains(v),
    ensures
        !list.contains(blocker(arcs, list, v)),
        arcs.contains((blocker(arcs, list, v), v)),
        0 <= blocker(arcs, list, v) < n,
{
    assert(list.take(list.len() as int) == list);
    lemma_waiting_zero(arcs, list.to_set(), v);
    let a = choose|a: int|
        0 <= a < arcs.len() && (#[trigger] arcs[a]).1 == v && !list.to_set().contains(arcs[a].0);
    assert(arcs[a] == (arcs[a].0, v));
    assert(arcs.contains((arcs[a].0, v)));
    assert(!list.contains(arcs[a].0));
    let u = blocker(arcs, list, v);
    let i = choose|i: int| 0 <= i < arcs.len() && arcs[i] == (u, v);
    assert(0 <= arcs[i].0 < n);
}

proof fn lemma_back(arcs: Seq<Arc>, n: nat, list: Seq<int>, v: int, k: nat)
    requires
        arcs_within(arcs, n),
        ready_list(arcs, n, list, list.len() as int),
        0 <= v < n,
        !list.contains(v),
    ensures
        0 <= back(arcs, list, v, k) < n,
        !list.contains(back(arcs, list, v, k)),
        arcs.contains((back(arcs, list, v, k + 1), back(arcs, list, v, k))),
    decreases k,
{
    if k > 0 {
        lemma_back(arcs, n, list, v, (k - 1) as nat);
        lemma_blocker(arcs, n, list, back(arcs, list, v, (k - 1) as nat));
    }
    lemma_blocker(arcs, n, list, back(arcs, list, v, k));
}

/// Where nodes are left out of the list of ready nodes, there is a cycle: each
/// of them waits for another of them.
pub proof fn lemma_ready_stuck(arcs: Seq<Arc>, n: nat, list: Seq<int>)
    requires
        arcs_within(arcs, n),
        ready_list(arcs, n, list, list.len() as int),
        list.len() < n,
    ensures
        has_cycle(arcs),
{
    let v = lemma_someone_left_out(list, n);
    let trail = Seq::new(n + 1, |k: int| back(arcs, list, v, k as nat));
    assert forall|k: int| 0 <= k < trail.len() implies 0 <= #[trigger] trail[k] < n by {
        lemma_back(arcs, n, list, v, k as nat);
    }
    if trail.no_duplicates() {
        lemma_pigeonhole(trail, n);
    }
    let (i, j) = choose|i: int, j: int|
        0 <= i < trail.len() && 0 <= j < trail.len() && i != j && trail[i] == trail[j];
    let lo = if i < j { i } else { j };
    let hi = if i < j { j } else { i };
    let walk = Seq::new((hi - lo + 1) as nat, |k: int| trail[hi - k]);
    assert forall|k: int| 0 <= k < walk.len() - 1 implies #[trigger] arcs.contains(
        (walk[k], walk[k + 1]),
    ) by {
        let m = hi - k - 1;
        lemma_back(arcs, n, list, v, m as nat);
        assert(walk[k] == back(arcs, list, v, (m + 1) as nat));
        assert(walk[k + 1] == back(arcs, list, v, m as nat));
    }
    assert(is_cycle(arcs, walk));
}

proof fn lemma_someone_left_out(list: Seq<int>, n: nat) -> (v: int)
    requires
        list.len() < n,
    ensures
        0 <= v < n,
        !list.contains(v),
{
    if forall|v: int| 0 <= v < n ==> #[trigger] list.contains(v) {
        let all = vstd::set_lib::set_int_range(0, n as int);
        vstd::set_lib::lemma_int_range(0, n as int);
        assert(all.subset_of(list.to_set()));
        list.lemma_cardinality_of_set();
        vstd::set_lib::lemma_len_subset(all, list.to_set());
    }
    choose|v: int| 0 <= v < n && !list.contains(v)
}

/// The member at `j` became ready with the arc `k`, out of the member at `p`: of all
/// arcs into it, by the place of the member that they leave and then by their own
/// place, it is the last.
pub open spec fn released_at(arcs: Seq<Arc>, list: Seq<int>, j: int, p: int, k: int) -> bool {
    &&& 0 <= p < j < list.len()
    &&& 0 <= k < arcs.len()
    &&& arcs[k] == (list[p], list[j])
    &&& forall|a: int|
        0 <= a < arcs.len() && (#[trigger] arcs[a]).1 == list[j] ==> exists|q: int|
            0 <= q <= p && #[trigger] list[q] == arcs[a].0 && (q < p || a <= k)
}

/// The member at `j` became ready with an arc out of a member before `h`.
pub open spec fn is_released(arcs: Seq<Arc>, list: Seq<int>, j: int, h: int) -> bool {
    exists|p: int, k: int| p < h && #[trigger] released_at(arcs, list, j, p, k)
}

/// The members of a list stand in the order of the arcs with which they became
/// ready, and these arcs leave members before `h`.
pub open spec fn in_turn(arcs: Seq<Arc>, list: Seq<int>, h: int) -> bool {
    &&& forall|j: int| 1 <= j < list.len() ==> #[trigger] is_released(arcs, list, j, h)
    &&& forall|i: int, p: int, k: int, j: int, p2: int, k2: int|
        1 <= i < j < list.len() && #[trigger] released_at(arcs, list, i, p, k)
            && #[trigger] released_at(arcs, list, j, p2, k2) ==> p < p2 || (p == p2 && k < k2)
}

proof fn lemma_waiting_past_zero(arcs: Seq<Arc>, done: Set<int>, u: int, k: int, v: int)
    requires
        waiting_past(arcs, done, u, k, v) == 0,
    ensures
        forall|a: int|
            0 <= a < arcs.len() && (#[trigger] arcs[a]).1 == v ==> done.contains(arcs[a].0) || (
            arcs[a].0 == u && a < k),
    decreases arcs.len(),
{
    if arcs.len() > 0 {
        let d = arcs.drop_last();
        lemma_waiting_past_zero(d, done, u, k, v);
        assert forall|a: int| 0 <= a < arcs.len() && (#[trigger] arcs[a]).1
            == v implies done.contains(arcs[a].0) || (arcs[a].0 == u && a < k) by {
            if a < d.len() {
                assert(d[a] == arcs[a]);
            }
        }
    }
}

proof fn lemma_released_in_turn(arcs: Seq<Arc>, done: Set<int>, u: int, k: int) -> (ks: Seq<int>)
    requires
        0 <= k <= arcs.len(),
    ensures
        ks.len() == released_by(arcs, done, u, k).len(),
        forall|m: int|
            0 <= m < ks.len() ==> {
                &&& 0 <= #[trigger] ks[m] < k
                &&& arcs[ks[m]] == (u, released_by(arcs, done, u, k)[m])
                &&& waiting_past(
                    arcs,
                    done,
                    u,
                    ks[m] + 1,
                    released_by(arcs, done, u, k)[m],
                ) == 0
            },
        forall|l: int, m: int| 0 <= l < m < ks.len() ==> ks[l] < ks[m],
    decreases k,
{
    if k <= 0 {
        Seq::empty()
    } else {
        let head = lemma_released_in_turn(arcs, done, u, k - 1);
        let arc = arcs[k - 1];
        if arc.0 == u && waiting_past(arcs, done, u, k, arc.1) == 0 {
            head.push(k - 1)
        } else {
            head
        }
    }
}

proof fn lemma_released_once(
    arcs: Seq<Arc>,
    list: Seq<int>,
    j: int,
    p: int,
    k: int,
    p2: int,
    k2: int,
)
    requires
        list.no_duplicates(),
        released_at(arcs, list, j, p, k),
        released_at(arcs, list, j, p2, k2),
    ensures
        p == p2,
        k == k2,
{
    assert(arcs[k].1 == list[j] && arcs[k2].1 == list[j]);
    let q = choose|q: int| 0 <= q <= p && #[trigger] list[q] == arcs[k2].0 && (q < p || k2 <= k);
    assert(q == p2);
    let q2 = choose|q: int| 0 <= q <= p2 && #[trigger] list[q] == arcs[k].0 && (q < p2 || k <= k2);
    assert(q2 == p);
}

proof fn lemma_released_same(
    arcs: Seq<Arc>,
    list: Seq<int>,
    next: Seq<int>,
    j: int,
    p: int,
    k: int,
)
    requires
        list.len() <= next.len(),
        forall|i: int| 0 <= i < list.len() ==> #[trigger] next[i] == list[i],
        j < list.len(),
    ensures
        released_at(arcs, list, j, p, k) == released_at(arcs, next, j, p, k),
{
    if released_at(arcs, list, j, p, k) {
        assert forall|a: int| 0 <= a < arcs.len() && (#[trigger] arcs[a]).1
            == next[j] implies exists|q: int|
            0 <= q <= p && #[trigger] next[q] == arcs[a].0 && (q < p || a <= k) by {
            let q = choose|q: int|
                0 <= q <= p && #[trigger] list[q] == arcs[a].0 && (q < p || a <= k);
            assert(next[q] == list[q]);
        }
    }
    if released_at(arcs, next, j, p, k) {
        assert forall|a: int| 0 <= a < arcs.len() && (#[trigger] arcs[a]).1
            == list[j] implies exists|q: int|
            0 <= q <= p && #[trigger] list[q] == arcs[a].0 && (q < p || a <= k) by {
            let q = choose|q: int|
                0 <= q <= p && #[trigger] next[q] == arcs[a].0 && (q < p || a <= k);
            assert(next[q] == list[q]);
        }
    }
}

proof fn lemma_in_turn_step(arcs: Seq<Arc>, n: nat, list: Seq<int>, h: int)
    requires
        arcs_within(arcs, n),
        ready_list(arcs, n, list, h),
        in_turn(arcs, list, h),
        h < list.len(),
    ensures
        in_turn(arcs, list + released(arcs, list.take(h).to_set(), list[h]), h + 1),
{
    let u = list[h];
    let done = list.take(h).to_set();
    let rel = released(arcs, done, u);
    let next = list + rel;
    lemma_ready_step(arcs, n, list, h);
    let ks = lemma_released_in_turn(arcs, done, u, arcs.len() as int);
    assert forall|i: int| 0 <= i < list.len() implies #[trigger] next[i] == list[i] by {}
    assert forall|m: int| 0 <= m < rel.len() implies #[trigger] released_at(
        arcs,
        next,
        list.len() + m,
        h,
        ks[m],
    ) by {
        let j = list.len() + m;
        assert(next[j] == rel[m]);
        assert(0 <= ks[m] < arcs.len());
        lemma_waiting_past_zero(arcs, done, u, ks[m] + 1, rel[m]);
        assert forall|a: int| 0 <= a < arcs.len() && (#[trigger] arcs[a]).1
            == next[j] implies exists|q: int|
            0 <= q <= h && #[trigger] next[q] == arcs[a].0 && (q < h || a <= ks[m]) by {
            if arcs[a].0 == u && a <= ks[m] {
                assert(next[h] == arcs[a].0);
            } else {
                let front = list.take(h);
                assert(front.contains(arcs[a].0));
                let q = choose|q: int| 0 <= q < front.len() && front[q] == arcs[a].0;
                assert(next[q] == arcs[a].0);
            }
        }
    }
    assert forall|j: int| 1 <= j < next.len() implies #[trigger] is_released(
        arcs,
        next,
        j,
        h + 1,
    ) by {
        if j < list.len() {
            assert(is_released(arcs, list, j, h));
            let (p, k) = choose|p: int, k: int|
                p < h && #[trigger] released_at(arcs, list, j, p, k);
            lemma_released_same(arcs, list, next, j, p, k);
            assert(released_at(arcs, next, j, p, k));
        } else {
            let m = j - list.len();
            assert(released_at(arcs, next, list.len() + m, h, ks[m]));
        }
    }
    assert forall|i: int, p: int, k: int, j: int, p2: int, k2: int|
        1 <= i < j < next.len() && #[trigger] released_at(arcs, next, i, p, k)
            && #[trigger] released_at(arcs, next, j, p2, k2) implies p < p2 || (p == p2 && k
        < k2) by {
        if j < list.len() {
            lemma_released_same(arcs, list, next, i, p, k);
            lemma_released_same(arcs, list, next, j, p2, k2);
        } else {
            let m = j - list.len();
            assert(released_at(arcs, next, list.len() + m, h, ks[m]));
            lemma_released_once(arcs, next, j, p2, k2, h, ks[m]);
            if i < list.len() {
                assert(is_released(arcs, list, i, h));
                let (q, l) = choose|q: int, l: int|
                    q < h && #[trigger] released_at(arcs, list, i, q, l);
                lemma_released_same(arcs, list, next, i, q, l);
                lemma_released_once(arcs, next, i, p, k, q, l);
            } else {
                let e = i - list.len();
                assert(released_at(arcs, next, list.len() + e, h, ks[e]));
                lemma_released_once(arcs, next, i, p, k, h, ks[e]);
            }
        }
    }
}

proof fn lemma_in_turn_from(arcs: Seq<Arc>, n: nat, list: Seq<int>, h: int, fuel: nat)
    requires
        arcs_within(arcs, n),
        ready_list(arcs, n, list, h),
        in_turn(arcs, list, h),
        fuel == n - h,
    ensures
        exists|g: int| in_turn(arcs, ready_from(arcs, list, h, fuel), g),
    decreases fuel,
{
    lemma_pigeonhole(list, n);
    if h < list.len() {
        lemma_ready_step(arcs, n, list, h);
        lemma_in_turn_step(arcs, n, list, h);
        let next = list + released(arcs, list.take(h).to_set(), list[h]);
        lemma_in_turn_from(arcs, n, next, h + 1, (fuel - 1) as nat);
        let all = ready_from(arcs, next, h + 1, (fuel - 1) as nat);
        assert(all == ready_from(arcs, list, h, fuel));
        let g = choose|g: int| in_turn(arcs, all, g);
        assert(in_turn(arcs, all, g));
    } else {
        assert(in_turn(arcs, ready_from(arcs, list, h, fuel), h));
    }
}

/// First come, first served: the nodes stand in the order of the arcs with which
/// they became ready.
pub proof fn lemma_ready_in_turn(arcs: Seq<Arc>, n: nat, start: int)
    requires
        arcs_within(arcs, n),
        sources(arcs, n) == seq![start],
    ensures
        exists|g: int| in_turn(arcs, ready_order(arcs, n, start), g),
{
    lemma_ready_start(arcs, n, start);
    lemma_in_turn_from(arcs, n, seq![start], 0, n);
    let all = ready_from(arcs, seq![start], 0, n);
    assert(all == ready_order(arcs, n, start));
    let g = choose|g: int| in_turn(arcs, all, g);
    assert(in_turn(arcs, all, g));
}

} // verus!
