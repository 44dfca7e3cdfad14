//! Flows: the graph of a chart joined with the runner's configuration.
//!
//! A flow is a directed graph without cycles and with one entry. The condition
//! of a branch is the label of its edge; the label `else`, a blank label and no
//! label at all mark a fallback.

use crate::chart::{flowmaid_parse, parse_chart, Chart, ChartView, Parsed, ParsedView};
use crate::config::{blank_step, opt_text, FlowConfig, StepConfig, StepConfigView};
use crate::graph::{
    arcs_within, has_cycle, indegree, is_chain, is_permutation, is_topological, left_out,
    outdegree, ready_from, ready_list, ready_order, released, released_by, sources, waiting,
    waiting_past, Arc,
};
use crate::strmap::StrMap;
use crate::text::{ascii_lower, join, joined, same_ignoring_ascii_case, same_text, texts, trim, trimmed};
use vstd::prelude::*;

verus! {

/// One step of a flow.
#[derive(Debug, Clone)]
pub struct FlowStep {
    pub node_id: String,
    pub title: String,
    pub cfg: StepConfig,
    /// The node has no entry in the configuration, so the step is manual.
    pub unconfigured: bool,
}

/// An edge of a flow; its ends are positions in the list of steps.
#[derive(Debug, Clone)]
pub struct FlowEdge {
    pub from: usize,
    pub to: usize,
    /// The condition; `None` marks a fallback.
    pub cond: Option<String>,
    /// The label as it was written, for display.
    pub label: Option<String>,
}

/// A flow.
#[derive(Debug)]
pub struct Flow {
    /// The Mermaid source.
    pub mermaid_src: String,
    /// All nodes in topological order.
    pub steps: Vec<FlowStep>,
    pub edges: Vec<FlowEdge>,
    /// The position of the entry.
    pub start: usize,
    /// No node has more than one outgoing edge.
    pub linear: bool,
}

/// Why a source and a configuration are not a flow.
#[derive(Debug)]
pub enum FlowError {
    /// The source cannot be parsed.
    Unparsable(String),
    /// The diagram is neither a flowchart nor a state diagram.
    NotAFlow(String),
    /// There are no nodes.
    Empty,
    /// An edge leads from or to something that is not a node.
    StrayEdge,
    /// Every node has an incoming edge.
    NoStart,
    /// More than one node has no incoming edge.
    ManyStarts(Vec<String>),
    /// These nodes are never reached, because of a cycle.
    Cyclic(Vec<String>),
    /// These steps are configured, but there is no such node.
    UnknownSteps(Vec<String>),
}

/// What a `FlowStep` holds.
pub struct FlowStepView {
    pub node_id: Seq<char>,
    pub title: Seq<char>,
    pub cfg: StepConfigView,
    pub unconfigured: bool,
}

/// What a `FlowEdge` holds.
pub struct FlowEdgeView {
    pub from: int,
    pub to: int,
    pub cond: Option<Seq<char>>,
    pub label: Option<Seq<char>>,
}

/// What a `Flow` holds.
pub struct FlowView {
    pub mermaid_src: Seq<char>,
    pub steps: Seq<FlowStepView>,
    pub edges: Seq<FlowEdgeView>,
    pub start: int,
    pub linear: bool,
}

/// What a `FlowError` holds.
pub enum FlowErrorView {
    Unparsable(Seq<char>),
    NotAFlow(Seq<char>),
    Empty,
    StrayEdge,
    NoStart,
    ManyStarts(Seq<Seq<char>>),
    Cyclic(Seq<Seq<char>>),
    UnknownSteps(Seq<Seq<char>>),
}

impl View for FlowStep {
    type V = FlowStepView;

    open spec fn view(&self) -> FlowStepView {
        FlowStepView {
            node_id: self.node_id@,
            title: self.title@,
            cfg: self.cfg@,
            unconfigured: self.unconfigured,
        }
    }
}

impl View for FlowEdge {
    type V = FlowEdgeView;

    open spec fn view(&self) -> FlowEdgeView {
        FlowEdgeView {
            from: self.from as int,
            to: self.to as int,
            cond: opt_text(self.cond),
            label: opt_text(self.label),
        }
    }
}

impl View for Flow {
    type V = FlowView;

    open spec fn view(&self) -> FlowView {
        FlowView {
            mermaid_src: self.mermaid_src@,
            steps: Seq::new(self.steps@.len(), |i: int| self.steps@[i]@),
            edges: Seq::new(self.edges@.len(), |i: int| self.edges@[i]@),
            start: self.start as int,
            linear: self.linear,
        }
    }
}

impl View for FlowError {
    type V = FlowErrorView;

    open spec fn view(&self) -> FlowErrorView {
        match self {
            FlowError::Unparsable(s) => FlowErrorView::Unparsable(s@),
            FlowError::NotAFlow(s) => FlowErrorView::NotAFlow(s@),
            FlowError::Empty => FlowErrorView::Empty,
            FlowError::StrayEdge => FlowErrorView::StrayEdge,
            FlowError::NoStart => FlowErrorView::NoStart,
            FlowError::ManyStarts(ids) => FlowErrorView::ManyStarts(texts(ids@)),
            FlowError::Cyclic(ids) => FlowErrorView::Cyclic(texts(ids@)),
            FlowError::UnknownSteps(ids) => FlowErrorView::UnknownSteps(texts(ids@)),
        }
    }
}

/// What a loaded flow or its error holds.
pub open spec fn loaded(r: Result<Flow, FlowError>) -> Result<FlowView, FlowErrorView> {
    match r {
        Ok(f) => Ok(f@),
        Err(e) => Err(e@),
    }
}

/// The arcs of a chart.
pub open spec fn chart_arcs(c: ChartView) -> Seq<Arc> {
    Seq::new(c.edges.len(), |i: int| (c.edges[i].from, c.edges[i].to))
}

/// The arcs of a flow.
pub open spec fn flow_arcs(f: FlowView) -> Seq<Arc> {
    Seq::new(f.edges.len(), |i: int| (f.edges[i].from, f.edges[i].to))
}

/// Every edge of a chart joins two of its nodes.
pub open spec fn chart_wf(c: ChartView) -> bool {
    arcs_within(chart_arcs(c), c.nodes.len())
}

/// The ids of the nodes at the listed positions.
pub open spec fn ids_at(c: ChartView, list: Seq<int>) -> Seq<Seq<char>> {
    Seq::new(list.len(), |i: int| c.nodes[list[i]].id)
}

pub open spec fn has_node(c: ChartView, id: Seq<char>) -> bool {
    exists|i: int| 0 <= i < c.nodes.len() && (#[trigger] c.nodes[i]).id == id
}

/// The keys, in their order, that are no node ids.
pub open spec fn unknown_keys(c: ChartView, keys: Seq<Seq<char>>) -> Seq<Seq<char>>
    decreases keys.len(),
{
    if keys.len() == 0 {
        seq![]
    } else if has_node(c, keys.last()) {
        unknown_keys(c, keys.drop_last())
    } else {
        unknown_keys(c, keys.drop_last()).push(keys.last())
    }
}

/// The condition that a label states: none if it is missing, blank or `else`.
pub open spec fn condition_of(label: Option<Seq<char>>) -> Option<Seq<char>> {
    match label {
        None => None,
        Some(l) => {
            let t = trimmed(l);
            if t.len() == 0 || t.map_values(|c: char| ascii_lower(c)) == "else"@ {
                None
            } else {
                Some(t)
            }
        },
    }
}

/// The step of a node: its configuration where there is one, else a manual step.
pub open spec fn step_of(
    c: ChartView,
    steps: Map<Seq<char>, StepConfigView>,
    node: int,
) -> FlowStepView {
    let id = c.nodes[node].id;
    FlowStepView {
        node_id: id,
        title: c.nodes[node].label,
        cfg: if steps.contains_key(id) {
            steps[id]
        } else {
            blank_step(true)
        },
        unconfigured: !steps.contains_key(id),
    }
}

/// The edge of a flow that an edge of the chart becomes when the nodes are in
/// the given order.
pub open spec fn edge_of(c: ChartView, order: Seq<int>, i: int) -> FlowEdgeView {
    FlowEdgeView {
        from: order.index_of(c.edges[i].from),
        to: order.index_of(c.edges[i].to),
        cond: condition_of(c.edges[i].label),
        label: c.edges[i].label,
    }
}

/// The flow that a chart and a configuration make, or why they make none.
pub open spec fn assembled(
    src: Seq<char>,
    c: ChartView,
    keys: Seq<Seq<char>>,
    steps: Map<Seq<char>, StepConfigView>,
) -> Result<FlowView, FlowErrorView> {
    let n = c.nodes.len();
    let arcs = chart_arcs(c);
    let starts = sources(arcs, n);
    let order = ready_order(arcs, n, starts[0]);
    let unknown = unknown_keys(c, keys);
    if n == 0 {
        Err(FlowErrorView::Empty)
    } else if starts.len() == 0 {
        Err(FlowErrorView::NoStart)
    } else if starts.len() > 1 {
        Err(FlowErrorView::ManyStarts(ids_at(c, starts)))
    } else if order.len() != n {
        Err(FlowErrorView::Cyclic(ids_at(c, left_out(order, n))))
    } else if unknown.len() > 0 {
        Err(FlowErrorView::UnknownSteps(unknown))
    } else {
        Ok(
            FlowView {
                mermaid_src: src,
                steps: Seq::new(n, |k: int| step_of(c, steps, order[k])),
                edges: Seq::new(c.edges.len(), |i: int| edge_of(c, order, i)),
                start: 0,
                linear: is_chain(arcs, n),
            },
        )
    }
}

/// The flow that a source and a configuration make, or why they make none.
pub open spec fn loaded_from(
    src: Seq<char>,
    parsed: ParsedView,
    keys: Seq<Seq<char>>,
    steps: Map<Seq<char>, StepConfigView>,
) -> Result<FlowView, FlowErrorView> {
    match parsed {
        ParsedView::Failed(e) => Err(FlowErrorView::Unparsable(e)),
        ParsedView::Round(t) => Err(FlowErrorView::NotAFlow(t)),
        ParsedView::Other(t) => Err(FlowErrorView::NotAFlow(t)),
        ParsedView::Chart(c) => if chart_wf(c) {
            assembled(src, c, keys, steps)
        } else {
            Err(FlowErrorView::StrayEdge)
        },
    }
}

/// The keys of the configured steps, in ascending order.
pub open spec fn step_keys(steps: StrMap<StepConfig>) -> Seq<Seq<char>> {
    Seq::new(steps.entries().len(), |i: int| steps.entries()[i].0)
}

/// The configured steps.
pub open spec fn step_map(steps: StrMap<StepConfig>) -> Map<Seq<char>, StepConfigView> {
    steps@.map_values(|s: StepConfig| s@)
}

/// A list of positions as mathematical integers.
pub open spec fn ints(v: Seq<usize>) -> Seq<int> {
    Seq::new(v.len(), |i: int| v[i] as int)
}

/// For each node the number of incoming edges.
fn indegrees(chart: &Chart) -> (r: Vec<usize>)
    requires
        chart_wf(chart@),
    ensures
        r@.len() == chart@.nodes.len(),
        forall|v: int|
            0 <= v < r@.len() ==> #[trigger] r@[v] == indegree(chart_arcs(chart@), v),
{
    let n = chart.nodes.len();
    let ghost arcs = chart_arcs(chart@);
    let mut r: Vec<usize> = Vec::new();
    while r.len() < n
        invariant
            r.len() <= n,
            forall|v: int| 0 <= v < r@.len() ==> #[trigger] r@[v] == 0,
        decreases n - r.len(),
    {
        r.push(0);
    }
    let mut k: usize = 0;
    while k < chart.edges.len()
        invariant
            k <= chart.edges.len(),
            n == chart.nodes.len(),
            r@.len() == n,
            arcs == chart_arcs(chart@),
            chart_wf(chart@),
            forall|v: int|
                0 <= v < n ==> #[trigger] r@[v] == indegree(arcs.take(k as int), v) && r@[v] <= k,
        decreases chart.edges.len() - k,
    {
        let to = chart.edges[k].to;
        proof {
            assert(arcs[k as int].1 == to);
            assert(arcs.take(k + 1).drop_last() == arcs.take(k as int));
            assert(arcs.take(k + 1).last() == arcs[k as int]);
        }
        let d = r[to];
        r.set(to, d + 1);
        k += 1;
    }
    assert(arcs.take(k as int) == arcs);
    r
}

/// The nodes without incoming edges.
fn starts_of(indeg: &Vec<usize>, Ghost(arcs): Ghost<Seq<Arc>>) -> (r: Vec<usize>)
    requires
        forall|v: int| 0 <= v < indeg@.len() ==> #[trigger] indeg@[v] == indegree(arcs, v),
    ensures
        ints(r@) == sources(arcs, indeg@.len()),
{
    let mut r: Vec<usize> = Vec::new();
    let mut v: usize = 0;
    assert(ints(r@) =~= sources(arcs, 0));
    while v < indeg.len()
        invariant
            v <= indeg.len(),
            forall|v: int| 0 <= v < indeg@.len() ==> #[trigger] indeg@[v] == indegree(arcs, v),
            ints(r@) == sources(arcs, v as nat),
        decreases indeg.len() - v,
    {
        let ghost before = ints(r@);
        if indeg[v] == 0 {
            r.push(v);
            assert(ints(r@) =~= before.push(v as int));
        }
        v += 1;
    }
    r
}

/// The nodes in the order in which they become ready.
#[verifier::loop_isolation(false)]
fn ready_nodes(chart: &Chart, indegree_of: Vec<usize>, start: usize) -> (r: Vec<usize>)
    requires
        chart_wf(chart@),
        sources(chart_arcs(chart@), chart@.nodes.len()) == seq![start as int],
        indegree_of@.len() == chart@.nodes.len(),
        forall|v: int|
            0 <= v < indegree_of@.len() ==> #[trigger] indegree_of@[v] == indegree(
                chart_arcs(chart@),
                v,
            ),
    ensures
        ints(r@) == ready_order(chart_arcs(chart@), chart@.nodes.len(), start as int),
        ready_list(chart_arcs(chart@), chart@.nodes.len(), ints(r@), r@.len() as int),
{
    let ghost arcs = chart_arcs(chart@);
    let ghost n = chart@.nodes.len();
    let mut indeg = indegree_of;
    let mut list: Vec<usize> = Vec::new();
    list.push(start);
    let mut h: usize = 0;
    proof {
        assert(ints(list@) =~= seq![start as int]);
        crate::graph::lemma_ready_start(arcs, n, start as int);
        assert(ints(list@).take(0).to_set() =~= Set::<int>::empty());
        crate::graph::lemma_pigeonhole(ints(list@), n);
    }
    while h < list.len()
        invariant
            ready_list(arcs, n, ints(list@), h as int),
            ints(list@).len() <= n,
            ready_order(arcs, n, start as int) == ready_from(
                arcs,
                ints(list@),
                h as int,
                (n - h) as nat,
            ),
            indeg@.len() == n,
            forall|v: int|
                0 <= v < n ==> #[trigger] indeg@[v] == waiting(
                    arcs,
                    ints(list@).take(h as int).to_set(),
                    v,
                ),
        decreases n - h,
    {
        let u = list[h];
        let ghost base = ints(list@);
        let ghost done = base.take(h as int).to_set();
        proof {
            assert(base[h as int] == u);
            crate::graph::lemma_ready_step(arcs, n, base, h as int);
            assert forall|v: int| 0 <= v < n implies #[trigger] indeg@[v] == waiting_past(
                arcs,
                done,
                u as int,
                0,
                v,
            ) by {
                crate::graph::lemma_waiting_past_ends(arcs, done, u as int, v);
            }
        }
        let mut k: usize = 0;
        assert(base + released_by(arcs, done, u as int, 0) =~= base);
        while k < chart.edges.len()
            invariant
                k <= chart.edges.len(),
                indeg@.len() == n,
                ints(list@) == base + released_by(arcs, done, u as int, k as int),
                forall|v: int|
                    0 <= v < n ==> #[trigger] indeg@[v] == waiting_past(
                        arcs,
                        done,
                        u as int,
                        k as int,
                        v,
                    ),
            decreases chart.edges.len() - k,
        {
            let to = chart.edges[k].to;
            let ghost before = ints(list@);
            let ghost counts = indeg@;
            proof {
                assert(arcs[k as int] == (chart.edges@[k as int].from as int, to as int));
                assert forall|v: int| 0 <= v < n implies #[trigger] counts[v] == waiting_past(
                    arcs,
                    done,
                    u as int,
                    k + 1,
                    v,
                ) + if arcs[k as int] == (u as int, v) {
                    1nat
                } else {
                    0
                } by {
                    crate::graph::lemma_waiting_past_step(arcs, done, u as int, k as int, v);
                }
                assert(counts[to as int] == waiting_past(arcs, done, u as int, k + 1, to as int)
                    + if arcs[k as int] == (u as int, to as int) {
                    1nat
                } else {
                    0
                });
            }
            if chart.edges[k].from == u {
                let d = indeg[to];
                indeg.set(to, d - 1);
                if d == 1 {
                    list.push(to);
                    assert(ints(list@) =~= before.push(to as int));
                    assert(before.push(to as int) =~= base + released_by(
                        arcs,
                        done,
                        u as int,
                        k as int,
                    ).push(to as int));
                }
            }
            k += 1;
        }
        proof {
            assert(ints(list@) == base + released(arcs, done, u as int));
            let next = ints(list@);
            assert(ready_list(arcs, n, next, h + 1));
            crate::graph::lemma_pigeonhole(next, n);
            assert(next.take(h + 1) =~= base.take(h + 1));
            crate::graph::lemma_take_push(base, h as int);
            assert forall|v: int| 0 <= v < n implies #[trigger] indeg@[v] == waiting(
                arcs,
                next.take(h + 1).to_set(),
                v,
            ) by {
                crate::graph::lemma_waiting_past_ends(arcs, done, u as int, v);
            }
        }
        h += 1;
    }
    list
}

/// The ids of the nodes at the listed positions.
fn ids_of(chart: &Chart, list: &Vec<usize>) -> (r: Vec<String>)
    requires
        forall|i: int| 0 <= i < list@.len() ==> (#[trigger] list@[i]) < chart.nodes@.len(),
    ensures
        texts(r@) == ids_at(chart@, ints(list@)),
{
    let mut r: Vec<String> = Vec::new();
    let mut i: usize = 0;
    while i < list.len()
        invariant
            i <= list.len(),
            r@.len() == i,
            forall|i: int| 0 <= i < list@.len() ==> (#[trigger] list@[i]) < chart.nodes@.len(),
            forall|j: int| 0 <= j < i ==> #[trigger] r@[j]@ == chart@.nodes[list@[j] as int].id,
        decreases list.len() - i,
    {
        r.push(chart.nodes[list[i]].id.clone());
        i += 1;
    }
    assert(texts(r@) =~= ids_at(chart@, ints(list@)));
    r
}

fn lists(list: &Vec<usize>, v: usize) -> (r: bool)
    ensures
        r == ints(list@).contains(v as int),
{
    let mut i: usize = 0;
    while i < list.len()
        invariant
            i <= list.len(),
            forall|j: int| 0 <= j < i ==> #[trigger] list@[j] != v,
        decreases list.len() - i,
    {
        if list[i] == v {
            assert(ints(list@)[i as int] == v);
            return true;
        }
        i += 1;
    }
    false
}

/// The nodes that are not listed.
fn nodes_left_out(list: &Vec<usize>, n: usize) -> (r: Vec<usize>)
    ensures
        ints(r@) == left_out(ints(list@), n as nat),
{
    let mut r: Vec<usize> = Vec::new();
    let mut v: usize = 0;
    assert(ints(r@) =~= left_out(ints(list@), 0));
    while v < n
        invariant
            v <= n,
            ints(r@) == left_out(ints(list@), v as nat),
        decreases n - v,
    {
        let ghost before = ints(r@);
        if !lists(list, v) {
            r.push(v);
            assert(ints(r@) =~= before.push(v as int));
        }
        v += 1;
    }
    r
}

fn knows_node(chart: &Chart, id: &str) -> (r: bool)
    ensures
        r == has_node(chart@, id@),
{
    let mut i: usize = 0;
    while i < chart.nodes.len()
        invariant
            i <= chart.nodes.len(),
            forall|j: int| 0 <= j < i ==> (#[trigger] chart@.nodes[j]).id != id@,
        decreases chart.nodes.len() - i,
    {
        if same_text(chart.nodes[i].id.as_str(), id) {
            assert(chart@.nodes[i as int].id == id@);
            return true;
        }
        i += 1;
    }
    false
}

/// The configured steps that are no nodes.
fn unknown_steps(chart: &Chart, steps: &StrMap<StepConfig>) -> (r: Vec<String>)
    ensures
        texts(r@) == unknown_keys(chart@, step_keys(*steps)),
{
    let ghost keys = step_keys(*steps);
    let mut r: Vec<String> = Vec::new();
    let mut i: usize = 0;
    assert(texts(r@) =~= unknown_keys(chart@, keys.take(0)));
    while i < steps.len()
        invariant
            i <= steps.entries().len(),
            keys == step_keys(*steps),
            texts(r@) == unknown_keys(chart@, keys.take(i as int)),
        decreases steps.entries().len() - i,
    {
        let ghost before = texts(r@);
        let id = steps.entry(i).0;
        proof {
            assert(keys.take(i + 1).drop_last() =~= keys.take(i as int));
            assert(keys.take(i + 1).last() == id@);
        }
        if !knows_node(chart, id.as_str()) {
            r.push(id.clone());
            assert(texts(r@) =~= before.push(id@));
        }
        i += 1;
    }
    assert(keys.take(i as int) =~= keys);
    r
}

/// For each node its position in the order.
fn positions(order: &Vec<usize>) -> (r: Vec<usize>)
    requires
        is_permutation(ints(order@), order@.len()),
        forall|v: int| 0 <= v < order@.len() ==> #[trigger] ints(order@).contains(v),
    ensures
        r@.len() == order@.len(),
        forall|v: int| 0 <= v < r@.len() ==> #[trigger] r@[v] == ints(order@).index_of(v),
{
    let n = order.len();
    let ghost list = ints(order@);
    let mut r: Vec<usize> = Vec::new();
    while r.len() < n
        invariant
            r.len() <= n,
        decreases n - r.len(),
    {
        r.push(0);
    }
    let mut k: usize = 0;
    while k < n
        invariant
            k <= n,
            n == order@.len(),
            list == ints(order@),
            is_permutation(list, order@.len()),
            r@.len() == n,
            forall|j: int| 0 <= j < k ==> #[trigger] r@[list[j]] == j,
        decreases n - k,
    {
        assert(list[k as int] == order@[k as int]);
        r.set(order[k], k);
        k += 1;
    }
    assert forall|v: int| 0 <= v < r@.len() implies #[trigger] r@[v] == list.index_of(v) by {
        assert(list.contains(v));
        let j = list.index_of(v);
        assert(0 <= j < list.len() && list[j] == v);
        assert(r@[list[j]] == j);
    }
    r
}

/// The condition that a label states.
fn condition(label: &Option<String>) -> (r: Option<String>)
    ensures
        opt_text(r) == condition_of(opt_text(*label)),
{
    match label {
        None => None,
        Some(l) => {
            let t = trim(l.as_str());
            proof {
                reveal_strlit("else");
                assert("else"@.map_values(|c: char| ascii_lower(c)) =~= "else"@);
            }
            if t.as_str().is_empty() || same_ignoring_ascii_case(t.as_str(), "else") {
                None
            } else {
                Some(t)
            }
        },
    }
}

/// Whether no node has more than one outgoing edge.
fn chain(chart: &Chart) -> (r: bool)
    requires
        chart_wf(chart@),
    ensures
        r == is_chain(chart_arcs(chart@), chart@.nodes.len()),
{
    let n = chart.nodes.len();
    let ghost arcs = chart_arcs(chart@);
    let mut out: Vec<usize> = Vec::new();
    while out.len() < n
        invariant
            out.len() <= n,
            forall|v: int| 0 <= v < out@.len() ==> #[trigger] out@[v] == 0,
        decreases n - out.len(),
    {
        out.push(0);
    }
    let mut k: usize = 0;
    while k < chart.edges.len()
        invariant
            k <= chart.edges.len(),
            n == chart.nodes.len(),
            out@.len() == n,
            arcs == chart_arcs(chart@),
            chart_wf(chart@),
            forall|v: int|
                0 <= v < n ==> #[trigger] out@[v] == outdegree(arcs.take(k as int), v) && out@[v]
                    <= k,
        decreases chart.edges.len() - k,
    {
        let from = chart.edges[k].from;
        proof {
            assert(arcs[k as int].0 == from);
            assert(arcs.take(k + 1).drop_last() == arcs.take(k as int));
            assert(arcs.take(k + 1).last() == arcs[k as int]);
        }
        let d = out[from];
        out.set(from, d + 1);
        k += 1;
    }
    assert(arcs.take(k as int) == arcs);
    let mut v: usize = 0;
    while v < n
        invariant
            v <= n,
            n == chart@.nodes.len(),
            arcs == chart_arcs(chart@),
            out@.len() == n,
            forall|v: int| 0 <= v < n ==> #[trigger] out@[v] == outdegree(arcs, v),
            forall|w: int| 0 <= w < v ==> #[trigger] outdegree(arcs, w) <= 1,
        decreases n - v,
    {
        assert(out@[v as int] == outdegree(arcs, v as int));
        if out[v] > 1 {
            return false;
        }
        v += 1;
    }
    true
}

/// Joins a chart with a configuration. The steps come in the order in which
/// they become ready, a node without an entry becomes a manual step, and the
/// edges keep their order.
pub fn assemble(src: String, chart: Chart, cfg: FlowConfig) -> (r: Result<Flow, FlowError>)
    requires
        chart_wf(chart@),
    ensures
        loaded(r) == assembled(src@, chart@, step_keys(cfg.steps), step_map(cfg.steps)),
        r matches Ok(f) ==> flow_wf(f@),
{
    let n = chart.nodes.len();
    let ghost c = chart@;
    let ghost arcs = chart_arcs(c);
    let ghost smap = step_map(cfg.steps);
    if n == 0 {
        return Err(FlowError::Empty);
    }
    let indeg = indegrees(&chart);
    let starts = starts_of(&indeg, Ghost(arcs));
    proof {
        crate::graph::lemma_sources(arcs, n as nat);
        assert forall|i: int| 0 <= i < starts@.len() implies (#[trigger] starts@[i]) < n by {
            assert(sources(arcs, n as nat)[i] == starts@[i]);
        }
    }
    if starts.len() == 0 {
        return Err(FlowError::NoStart);
    }
    if starts.len() > 1 {
        return Err(FlowError::ManyStarts(ids_of(&chart, &starts)));
    }
    let start = starts[0];
    assert(sources(arcs, n as nat) =~= seq![start as int]) by {
        assert(ints(starts@)[0] == start);
    }
    let order = ready_nodes(&chart, indeg, start);
    let ghost list = ints(order@);
    proof {
        crate::graph::lemma_pigeonhole(list, n as nat);
    }
    if order.len() != n {
        let stuck = nodes_left_out(&order, n);
        proof {
            crate::graph::lemma_left_out(list, n as nat);
            assert forall|i: int| 0 <= i < stuck@.len() implies (#[trigger] stuck@[i]) < n by {
                assert(left_out(list, n as nat)[i] == stuck@[i]);
            }
        }
        return Err(FlowError::Cyclic(ids_of(&chart, &stuck)));
    }
    proof {
        crate::graph::lemma_ready_all(arcs, n as nat, list);
    }
    let unknown = unknown_steps(&chart, &cfg.steps);
    assert(texts(unknown@).len() == unknown@.len());
    if unknown.len() > 0 {
        return Err(FlowError::UnknownSteps(unknown));
    }
    let pos = positions(&order);
    let mut steps: Vec<FlowStep> = Vec::new();
    let mut k: usize = 0;
    while k < n
        invariant
            k <= n,
            n == chart.nodes@.len(),
            c == chart@,
            smap == step_map(cfg.steps),
            list == ints(order@),
            order@.len() == n,
            is_permutation(list, n as nat),
            steps@.len() == k,
            forall|j: int| 0 <= j < k ==> (#[trigger] steps@[j])@ == step_of(c, smap, list[j]),
        decreases n - k,
    {
        assert(list[k as int] == order@[k as int]);
        let node = &chart.nodes[order[k]];
        let found = cfg.steps.get(node.id.as_str());
        let unconfigured = found.is_none();
        let step_cfg = match found {
            Some(s) => s.clone(),
            None => {
                let mut blank = StepConfig::default();
                blank.manual = true;
                blank
            },
        };
        steps.push(
            FlowStep {
                node_id: node.id.clone(),
                title: node.label.clone(),
                cfg: step_cfg,
                unconfigured,
            },
        );
        k += 1;
    }
    let mut edges: Vec<FlowEdge> = Vec::new();
    let mut i: usize = 0;
    while i < chart.edges.len()
        invariant
            i <= chart.edges.len(),
            c == chart@,
            chart_wf(c),
            n == chart.nodes@.len(),
            list == ints(order@),
            order@.len() == n,
            pos@.len() == n,
            forall|v: int| 0 <= v < n ==> #[trigger] pos@[v] == list.index_of(v),
            edges@.len() == i,
            forall|j: int| 0 <= j < i ==> (#[trigger] edges@[j])@ == edge_of(c, list, j),
        decreases chart.edges.len() - i,
    {
        let e = &chart.edges[i];
        proof {
            assert(chart_arcs(c)[i as int] == (e.from as int, e.to as int));
        }
        edges.push(
            FlowEdge {
                from: pos[e.from],
                to: pos[e.to],
                cond: condition(&e.label),
                label: e.label.clone(),
            },
        );
        i += 1;
    }
    proof {
        assert(ready_order(arcs, n as nat, start as int)[0] == start) by {
            crate::graph::lemma_ready_first(arcs, n as nat, start as int);
        }
        crate::graph::lemma_index_of(list, 0);
    }
    let linear = chain(&chart);
    let flow = Flow { mermaid_src: src, steps, edges, start: pos[start], linear };
    proof {
        let want = assembled(src@, c, step_keys(cfg.steps), smap)->Ok_0;
        assert(flow@.steps =~= want.steps);
        assert(flow@.edges =~= want.edges);
        law_loaded_flows_are_well_formed(
            src@,
            ParsedView::Chart(c),
            step_keys(cfg.steps),
            step_map(cfg.steps),
        );
    }
    Ok(flow)
}

/// Parses a Mermaid source and joins the chart with a configuration.
pub fn load(src: String, cfg: FlowConfig) -> (r: Result<Flow, FlowError>)
    ensures
        loaded(r) == loaded_from(
            src@,
            flowmaid_parse(src@),
            step_keys(cfg.steps),
            step_map(cfg.steps),
        ),
        r matches Ok(f) ==> flow_wf(f@),
{
    match parse_chart(src.as_str()) {
        Parsed::Failed(e) => Err(FlowError::Unparsable(e)),
        Parsed::Round(t) => Err(FlowError::NotAFlow(t)),
        Parsed::Other(t) => Err(FlowError::NotAFlow(t)),
        Parsed::Chart(chart) => {
            if within(&chart) {
                assemble(src, chart, cfg)
            } else {
                Err(FlowError::StrayEdge)
            }
        },
    }
}

/// Whether every edge joins two of the nodes.
fn within(chart: &Chart) -> (r: bool)
    ensures
        r == chart_wf(chart@),
{
    let ghost arcs = chart_arcs(chart@);
    let n = chart.nodes.len();
    let mut i: usize = 0;
    while i < chart.edges.len()
        invariant
            i <= chart.edges.len(),
            n == chart@.nodes.len(),
            arcs == chart_arcs(chart@),
            forall|j: int|
                0 <= j < i ==> 0 <= (#[trigger] arcs[j]).0 < n && 0 <= arcs[j].1 < n,
        decreases chart.edges.len() - i,
    {
        assert(arcs[i as int] == (
            chart.edges@[i as int].from as int,
            chart.edges@[i as int].to as int,
        ));
        if chart.edges[i].from >= n || chart.edges[i].to >= n {
            return false;
        }
        i += 1;
    }
    true
}

/// What a list of borrowed edges holds.
pub open spec fn edge_views(v: Seq<&FlowEdge>) -> Seq<FlowEdgeView> {
    Seq::new(v.len(), |i: int| v[i]@)
}

/// The edges that leave a step, in their order.
pub open spec fn edges_from(edges: Seq<FlowEdgeView>, i: int) -> Seq<FlowEdgeView>
    decreases edges.len(),
{
    if edges.len() == 0 {
        seq![]
    } else if edges.last().from == i {
        edges_from(edges.drop_last(), i).push(edges.last())
    } else {
        edges_from(edges.drop_last(), i)
    }
}

impl Flow {
    /// The edges that leave a step.
    pub fn outgoing(&self, i: usize) -> (r: Vec<&FlowEdge>)
        ensures
            edge_views(r@) == edges_from(self@.edges, i as int),
    {
        let ghost all = self@.edges;
        let mut r: Vec<&FlowEdge> = Vec::new();
        let mut k: usize = 0;
        assert(edge_views(r@) =~= edges_from(all.take(0), i as int));
        while k < self.edges.len()
            invariant
                k <= self.edges.len(),
                all == self@.edges,
                edge_views(r@) == edges_from(all.take(k as int), i as int),
            decreases self.edges.len() - k,
        {
            let ghost before = edge_views(r@);
            let e = &self.edges[k];
            proof {
                assert(all.take(k + 1).drop_last() =~= all.take(k as int));
                assert(all.take(k + 1).last() == e@);
            }
            if e.from == i {
                r.push(e);
                assert(edge_views(r@) =~= before.push(e@));
            }
            k += 1;
        }
        assert(all.take(k as int) =~= all);
        r
    }
}

/// What an error says, for the source at a path.
pub open spec fn error_text(e: FlowErrorView, path: Seq<char>) -> Seq<char> {
    match e {
        FlowErrorView::Unparsable(t) => "parse mermaid "@ + path + ": "@ + t,
        FlowErrorView::NotAFlow(t) => "diagram must be flowchart/stateDiagram, got "@ + t,
        FlowErrorView::Empty => "empty flow: no nodes in "@ + path,
        FlowErrorView::StrayEdge => "edge without a node in "@ + path,
        FlowErrorView::NoStart => "cyclic graph: no start node (all have an incoming edge)"@,
        FlowErrorView::ManyStarts(ids) => "more than one start node ("@ + joined(ids, ", "@)
            + ") — a flow needs a single entry point"@,
        FlowErrorView::Cyclic(ids) => "cyclic graph detected (node: "@ + joined(ids, ", "@)
            + ") — only DAGs are supported"@,
        FlowErrorView::UnknownSteps(ids) => "step in flow.yaml not found in flow.mmd: "@ + joined(
            ids,
            ", "@,
        ),
    }
}

impl FlowError {
    /// What the error says, for the source at a path.
    pub fn message(&self, path: &str) -> (r: String)
        ensures
            r@ == error_text(self@, path@),
    {
        match self {
            FlowError::Unparsable(t) => "parse mermaid ".to_owned().concat(path).concat(": ").concat(
                t.as_str(),
            ),
            FlowError::NotAFlow(t) => {
                "diagram must be flowchart/stateDiagram, got ".to_owned().concat(t.as_str())
            },
            FlowError::Empty => "empty flow: no nodes in ".to_owned().concat(path),
            FlowError::StrayEdge => "edge without a node in ".to_owned().concat(path),
            FlowError::NoStart => {
                "cyclic graph: no start node (all have an incoming edge)".to_owned()
            },
            FlowError::ManyStarts(ids) => {
                "more than one start node (".to_owned().concat(join(ids, ", ").as_str()).concat(
                    ") — a flow needs a single entry point",
                )
            },
            FlowError::Cyclic(ids) => {
                "cyclic graph detected (node: ".to_owned().concat(join(ids, ", ").as_str()).concat(
                    ") — only DAGs are supported",
                )
            },
            FlowError::UnknownSteps(ids) => {
                "step in flow.yaml not found in flow.mmd: ".to_owned().concat(
                    join(ids, ", ").as_str(),
                )
            },
        }
    }
}

/// What every loaded flow is: it has steps, the entry comes first and is the
/// only step that no edge leads to, every edge leads to a later step, and the
/// flow is marked linear exactly when no step has two outgoing edges.
pub open spec fn flow_wf(f: FlowView) -> bool {
    let n = f.steps.len();
    &&& n > 0
    &&& f.start == 0
    &&& forall|i: int|
        0 <= i < f.edges.len() ==> 0 <= (#[trigger] f.edges[i]).from < f.edges[i].to < n
    &&& sources(flow_arcs(f), n) == seq![0int]
    &&& f.linear == is_chain(flow_arcs(f), n)
}

/// What holds when a chart and a configuration make a flow.
proof fn lemma_assembled(
    src: Seq<char>,
    c: ChartView,
    keys: Seq<Seq<char>>,
    steps: Map<Seq<char>, StepConfigView>,
) -> (order: Seq<int>)
    requires
        chart_wf(c),
        assembled(src, c, keys, steps) is Ok,
    ensures
        order == ready_order(chart_arcs(c), c.nodes.len(), sources(chart_arcs(c), c.nodes.len())[0]),
        sources(chart_arcs(c), c.nodes.len()) == seq![order[0]],
        is_permutation(order, c.nodes.len()),
        is_topological(chart_arcs(c), order),
        forall|v: int| 0 <= v < c.nodes.len() ==> #[trigger] order.contains(v),
{
    let n = c.nodes.len();
    let arcs = chart_arcs(c);
    let start = sources(arcs, n)[0];
    assert(sources(arcs, n) =~= seq![start]);
    let order = ready_order(arcs, n, start);
    crate::graph::lemma_ready_first(arcs, n, start);
    crate::graph::lemma_ready_order(arcs, n, start);
    crate::graph::lemma_ready_all(arcs, n, order);
    order
}

/// Every flow that loads is well formed.
pub proof fn law_loaded_flows_are_well_formed(
    src: Seq<char>,
    parsed: ParsedView,
    keys: Seq<Seq<char>>,
    steps: Map<Seq<char>, StepConfigView>,
)
    requires
        loaded_from(src, parsed, keys, steps) is Ok,
    ensures
        flow_wf(loaded_from(src, parsed, keys, steps)->Ok_0),
{
    let c = parsed->Chart_0;
    let n = c.nodes.len();
    let arcs = chart_arcs(c);
    let order = lemma_assembled(src, c, keys, steps);
    let f = assembled(src, c, keys, steps)->Ok_0;
    let moved = flow_arcs(f);
    assert forall|i: int| 0 <= i < f.edges.len() implies 0 <= (#[trigger] f.edges[i]).from
        < f.edges[i].to < n by {
        let arc = arcs[i];
        assert(crate::graph::goes_forward(order, arc));
        let (a, b) = choose|a: int, b: int|
            0 <= a < b < order.len() && order[a] == arc.0 && order[b] == arc.1;
        crate::graph::lemma_index_of(order, a);
        crate::graph::lemma_index_of(order, b);
        assert(f.edges[i] == edge_of(c, order, i));
    }
    crate::graph::lemma_renamed(arcs, moved, order, n);
    crate::graph::lemma_sources(arcs, n);
    crate::graph::lemma_sources(moved, n);
    crate::graph::lemma_index_of(order, 0);
    let s = sources(moved, n);
    assert(s =~= seq![0int]) by {
        assert(sources(arcs, n).contains(order[0]));
        assert(indegree(moved, 0) == 0);
        assert(s.contains(0));
        assert forall|i: int| 0 <= i < s.len() implies s[i] == 0 by {
            assert(s.contains(s[i]));
            let v = order[s[i]];
            crate::graph::lemma_index_of(order, s[i]);
            assert(indegree(arcs, v) == 0);
            assert(sources(arcs, n).contains(v));
            assert(v == order[0]);
        }
        if s.len() > 1 {
            assert(s[0] < s[1]);
        }
    }
    assert(is_chain(moved, n) == is_chain(arcs, n)) by {
        if is_chain(arcs, n) {
            assert forall|w: int| 0 <= w < n implies #[trigger] outdegree(moved, w) <= 1 by {
                assert(outdegree(moved, w) == outdegree(arcs, order[w]));
            }
        }
        if is_chain(moved, n) {
            assert forall|v: int| 0 <= v < n implies #[trigger] outdegree(arcs, v) <= 1 by {
                assert(order.contains(v));
                let w = choose|w: int| 0 <= w < order.len() && order[w] == v;
                assert(outdegree(moved, w) == outdegree(arcs, order[w]));
            }
        }
    }
}

/// A chart with a cycle never becomes a flow.
pub proof fn law_cycles_are_rejected(
    src: Seq<char>,
    parsed: ParsedView,
    keys: Seq<Seq<char>>,
    steps: Map<Seq<char>, StepConfigView>,
)
    requires
        parsed is Chart,
        has_cycle(chart_arcs(parsed->Chart_0)),
    ensures
        loaded_from(src, parsed, keys, steps) is Err,
{
    let c = parsed->Chart_0;
    if loaded_from(src, parsed, keys, steps) is Ok {
        let order = lemma_assembled(src, c, keys, steps);
        crate::graph::lemma_topological_acyclic(chart_arcs(c), order);
    }
}

/// A chart is called cyclic only if it has a cycle: when no node is a start,
/// and when nodes are left over.
pub proof fn law_cyclic_charts_have_a_cycle(
    src: Seq<char>,
    parsed: ParsedView,
    keys: Seq<Seq<char>>,
    steps: Map<Seq<char>, StepConfigView>,
)
    requires
        parsed is Chart,
        loaded_from(src, parsed, keys, steps) matches Err(e) && (e is NoStart || e is Cyclic),
    ensures
        has_cycle(chart_arcs(parsed->Chart_0)),
{
    let c = parsed->Chart_0;
    let n = c.nodes.len();
    let arcs = chart_arcs(c);
    let starts = sources(arcs, n);
    if starts.len() == 0 {
        let none = Seq::<int>::empty();
        crate::graph::lemma_sources(arcs, n);
        assert(none.take(0).to_set() =~= Set::<int>::empty());
        assert forall|v: int| 0 <= v < n implies (#[trigger] none.contains(v) <==> waiting(
            arcs,
            none.take(0).to_set(),
            v,
        ) == 0) by {
            assert(!starts.contains(v));
        }
        crate::graph::lemma_ready_stuck(arcs, n, none);
    } else {
        assert(starts =~= seq![starts[0]]);
        crate::graph::lemma_ready_order(arcs, n, starts[0]);
        crate::graph::lemma_ready_stuck(arcs, n, ready_order(arcs, n, starts[0]));
    }
}

/// Every node of the chart is exactly one step of the loaded flow, and the
/// order of the steps is the order in which the nodes become ready.
pub proof fn law_every_node_is_one_step(
    src: Seq<char>,
    c: ChartView,
    keys: Seq<Seq<char>>,
    steps: Map<Seq<char>, StepConfigView>,
)
    requires
        chart_wf(c),
        assembled(src, c, keys, steps) is Ok,
    ensures
        ({
            let f = assembled(src, c, keys, steps)->Ok_0;
            let arcs = chart_arcs(c);
            let order = ready_order(arcs, c.nodes.len(), sources(arcs, c.nodes.len())[0]);
            &&& is_permutation(order, c.nodes.len())
            &&& f.steps.len() == c.nodes.len()
            &&& forall|k: int|
                0 <= k < f.steps.len() ==> (#[trigger] f.steps[k]).node_id
                    == c.nodes[order[k]].id
        }),
{
    let order = lemma_assembled(src, c, keys, steps);
}

/// A configured step is never dropped: where a flow loads, every key of the
/// configuration is a step with that configuration.
pub proof fn law_configured_steps_are_used(
    src: Seq<char>,
    c: ChartView,
    keys: Seq<Seq<char>>,
    steps: Map<Seq<char>, StepConfigView>,
    i: int,
)
    requires
        chart_wf(c),
        assembled(src, c, keys, steps) is Ok,
        0 <= i < keys.len(),
        steps.contains_key(keys[i]),
    ensures
        ({
            let f = assembled(src, c, keys, steps)->Ok_0;
            exists|k: int|
                {
                    &&& 0 <= k < f.steps.len()
                    &&& (#[trigger] f.steps[k]).node_id == keys[i]
                    &&& f.steps[k].cfg == steps[keys[i]]
                    &&& !f.steps[k].unconfigured
                }
        }),
{
    let order = lemma_assembled(src, c, keys, steps);
    let f = assembled(src, c, keys, steps)->Ok_0;
    lemma_known_key(c, keys, i);
    let v = choose|v: int| 0 <= v < c.nodes.len() && (#[trigger] c.nodes[v]).id == keys[i];
    assert(order.contains(v));
    let k = choose|k: int| 0 <= k < order.len() && order[k] == v;
    assert(f.steps[k] == step_of(c, steps, order[k]));
}

proof fn lemma_known_key(c: ChartView, keys: Seq<Seq<char>>, i: int)
    requires
        0 <= i < keys.len(),
        unknown_keys(c, keys).len() == 0,
    ensures
        has_node(c, keys[i]),
    decreases keys.len(),
{
    if i < keys.len() - 1 {
        lemma_known_key(c, keys.drop_last(), i);
    }
}

/// A node without a configuration is a manual step with nothing else.
pub proof fn law_unconfigured_nodes_are_manual(
    src: Seq<char>,
    c: ChartView,
    keys: Seq<Seq<char>>,
    steps: Map<Seq<char>, StepConfigView>,
    k: int,
)
    requires
        chart_wf(c),
        assembled(src, c, keys, steps) is Ok,
        0 <= k < c.nodes.len(),
    ensures
        ({
            let s = assembled(src, c, keys, steps)->Ok_0.steps[k];
            &&& s.unconfigured <==> !steps.contains_key(s.node_id)
            &&& s.unconfigured ==> s.cfg == blank_step(true) && s.cfg.is_manual()
        }),
{
    let order = lemma_assembled(src, c, keys, steps);
}

/// Some edge of a chart leads to a node.
pub open spec fn has_incoming(c: ChartView, v: int) -> bool {
    exists|i: int| 0 <= i < c.edges.len() && (#[trigger] c.edges[i]).to == v
}

proof fn lemma_no_arc_into(c: ChartView, v: int)
    ensures
        indegree(chart_arcs(c), v) == 0 <==> !has_incoming(c, v),
{
    let arcs = chart_arcs(c);
    crate::graph::lemma_waiting_zero(arcs, Set::empty(), v);
    if indegree(arcs, v) == 0 {
        assert forall|i: int| 0 <= i < c.edges.len() implies (#[trigger] c.edges[i]).to != v by {
            assert(arcs[i].1 == c.edges[i].to);
        }
    }
    if forall|i: int| 0 <= i < c.edges.len() ==> (#[trigger] c.edges[i]).to != v {
        assert forall|a: int| 0 <= a < arcs.len() && (#[trigger] arcs[a]).1 == v implies Set::<
            int,
        >::empty().contains(arcs[a].0) by {
            assert(c.edges[a].to != v);
        }
    }
}

proof fn lemma_unknown_keys(c: ChartView, keys: Seq<Seq<char>>)
    ensures
        forall|k: Seq<char>| #[trigger]
            unknown_keys(c, keys).contains(k) <==> keys.contains(k) && !has_node(c, k),
    decreases keys.len(),
{
    if keys.len() > 0 {
        let front = keys.drop_last();
        let last = keys.last();
        let before = unknown_keys(c, front);
        let now = unknown_keys(c, keys);
        lemma_unknown_keys(c, front);
        assert forall|k: Seq<char>| #[trigger] now.contains(k) <==> keys.contains(k) && !has_node(
            c,
            k,
        ) by {
            assert(before.contains(k) <==> front.contains(k) && !has_node(c, k));
            if keys.contains(k) {
                let i = choose|i: int| 0 <= i < keys.len() && keys[i] == k;
                if i < front.len() {
                    assert(front[i] == k);
                }
            }
            if front.contains(k) {
                let i = choose|i: int| 0 <= i < front.len() && front[i] == k;
                assert(keys[i] == k);
            }
            assert(keys[keys.len() - 1] == last);
            if before.contains(k) {
                let i = choose|i: int| 0 <= i < before.len() && before[i] == k;
                assert(now[i] == k);
            }
            if now.contains(k) && now.len() > before.len() {
                let i = choose|i: int| 0 <= i < now.len() && now[i] == k;
                if i < before.len() {
                    assert(before[i] == k);
                }
            }
            if now.len() > before.len() {
                assert(now[before.len() as int] == last);
            }
        }
    }
}

/// A sound chart loads: if it has a node, every edge joins two of its nodes, one
/// node alone has no incoming edge, there is no cycle, and every configured step is
/// one of the nodes, then there is a flow. The number of edges does not matter, nor
/// how often the paths part and meet.
pub proof fn law_sound_charts_load(
    src: Seq<char>,
    c: ChartView,
    keys: Seq<Seq<char>>,
    steps: Map<Seq<char>, StepConfigView>,
    start: int,
)
    requires
        0 <= start < c.nodes.len(),
        forall|i: int|
            0 <= i < c.edges.len() ==> 0 <= (#[trigger] c.edges[i]).from < c.nodes.len() && 0
                <= c.edges[i].to < c.nodes.len(),
        !has_incoming(c, start),
        forall|v: int| 0 <= v < c.nodes.len() && v != start ==> #[trigger] has_incoming(c, v),
        !has_cycle(chart_arcs(c)),
        forall|k: int|
            0 <= k < keys.len() ==> exists|v: int|
                0 <= v < c.nodes.len() && (#[trigger] c.nodes[v]).id == #[trigger] keys[k],
    ensures
        loaded_from(src, ParsedView::Chart(c), keys, steps) is Ok,
{
    let n = c.nodes.len();
    let arcs = chart_arcs(c);
    let starts = sources(arcs, n);
    assert forall|i: int| 0 <= i < arcs.len() implies 0 <= (#[trigger] arcs[i]).0 < n && 0
        <= arcs[i].1 < n by {
        assert(arcs[i] == (c.edges[i].from, c.edges[i].to));
    }
    crate::graph::lemma_sources(arcs, n);
    lemma_no_arc_into(c, start);
    assert(starts.contains(start));
    assert forall|i: int| 0 <= i < starts.len() implies starts[i] == start by {
        let v = starts[i];
        assert(starts.contains(v));
        lemma_no_arc_into(c, v);
    }
    if starts.len() > 1 {
        assert(starts[0] < starts[1]);
    }
    let r = loaded_from(src, ParsedView::Chart(c), keys, steps);
    if r is Err {
        lemma_unknown_keys(c, keys);
        let unknown = unknown_keys(c, keys);
        if unknown.len() > 0 {
            assert(unknown.contains(unknown[0]));
            let k = choose|k: int| 0 <= k < keys.len() && keys[k] == unknown[0];
            assert(keys[k] == unknown[0]);
            let v = choose|v: int| 0 <= v < n && (#[trigger] c.nodes[v]).id == keys[k];
            assert(has_node(c, keys[k]));
        }
        if r->Err_0 is Cyclic {
            law_cyclic_charts_have_a_cycle(src, ParsedView::Chart(c), keys, steps);
        }
    }
}

/// Nodes are called cyclic exactly where they wait for each other: each of them has
/// an edge from another of them, and no other node has one.
pub open spec fn wait_for_each_other(c: ChartView, stuck: Seq<int>) -> bool {
    &&& forall|i: int|
        0 <= i < stuck.len() ==> 0 <= #[trigger] stuck[i] < c.nodes.len() && exists|e: int|
            0 <= e < c.edges.len() && (#[trigger] c.edges[e]).to == stuck[i] && stuck.contains(
                c.edges[e].from,
            )
    &&& forall|e: int|
        0 <= e < c.edges.len() && stuck.contains((#[trigger] c.edges[e]).from) ==> stuck.contains(
            c.edges[e].to,
        )
}

/// Every error names a defect that is there. A source is called unparsable, or no
/// flow, only if the parser says so; empty, only without a node; stray, only if an
/// edge ends at no node. No start means that every node has an incoming edge; many
/// starts are all the nodes without one, two or more, in their order; cyclic nodes
/// wait for each other, and there is a cycle; unknown steps are all the configured
/// ones that are no node.
pub proof fn law_errors_name_their_defect(
    src: Seq<char>,
    parsed: ParsedView,
    keys: Seq<Seq<char>>,
    steps: Map<Seq<char>, StepConfigView>,
)
    requires
        loaded_from(src, parsed, keys, steps) is Err,
    ensures
        match loaded_from(src, parsed, keys, steps)->Err_0 {
            FlowErrorView::Unparsable(t) => parsed == ParsedView::Failed(t),
            FlowErrorView::NotAFlow(t) => parsed == ParsedView::Round(t) || parsed
                == ParsedView::Other(t),
            FlowErrorView::Empty => parsed is Chart && parsed->Chart_0.nodes.len() == 0,
            FlowErrorView::StrayEdge => parsed is Chart && exists|i: int|
                0 <= i < parsed->Chart_0.edges.len() && !(0 <= (
                #[trigger] parsed->Chart_0.edges[i]).from < parsed->Chart_0.nodes.len() && 0
                    <= parsed->Chart_0.edges[i].to < parsed->Chart_0.nodes.len()),
            FlowErrorView::NoStart => parsed is Chart && parsed->Chart_0.nodes.len() > 0
                && forall|v: int|
                0 <= v < parsed->Chart_0.nodes.len() ==> #[trigger] has_incoming(
                    parsed->Chart_0,
                    v,
                ),
            FlowErrorView::ManyStarts(ids) => parsed is Chart && exists|starts: Seq<int>|
                {
                    &&& starts.len() >= 2
                    &&& #[trigger] ids_at(parsed->Chart_0, starts) == ids
                    &&& forall|i: int, j: int|
                        0 <= i < j < starts.len() ==> starts[i] < starts[j]
                    &&& forall|v: int|
                        0 <= v < parsed->Chart_0.nodes.len() ==> (#[trigger] starts.contains(v)
                            <==> !has_incoming(parsed->Chart_0, v))
                    &&& forall|i: int|
                        0 <= i < starts.len() ==> 0 <= #[trigger] starts[i]
                            < parsed->Chart_0.nodes.len()
                },
            FlowErrorView::Cyclic(ids) => parsed is Chart && has_cycle(
                chart_arcs(parsed->Chart_0),
            ) && exists|stuck: Seq<int>|
                {
                    &&& stuck.len() > 0
                    &&& #[trigger] ids_at(parsed->Chart_0, stuck) == ids
                    &&& forall|i: int, j: int|
                        0 <= i < j < stuck.len() ==> stuck[i] < stuck[j]
                    &&& wait_for_each_other(parsed->Chart_0, stuck)
                },
            FlowErrorView::UnknownSteps(ids) => parsed is Chart && ids.len() > 0 && forall|
                k: Seq<char>,
            | #[trigger]
                ids.contains(k) <==> keys.contains(k) && forall|v: int|
                    0 <= v < parsed->Chart_0.nodes.len() ==> (
                    #[trigger] parsed->Chart_0.nodes[v]).id != k,
        },
{
    if parsed is Chart {
        let c = parsed->Chart_0;
        let n = c.nodes.len();
        let arcs = chart_arcs(c);
        if !chart_wf(c) {
            let i = choose|i: int|
                0 <= i < arcs.len() && !(0 <= (#[trigger] arcs[i]).0 < n && 0 <= arcs[i].1 < n);
            assert(arcs[i] == (c.edges[i].from, c.edges[i].to));
        } else {
            let starts = sources(arcs, n);
            crate::graph::lemma_sources(arcs, n);
            assert forall|v: int| 0 <= v < n implies (#[trigger] starts.contains(v)
                <==> !has_incoming(c, v)) by {
                lemma_no_arc_into(c, v);
            }
            if starts.len() == 0 {
                assert forall|v: int| 0 <= v < n implies #[trigger] has_incoming(c, v) by {
                    assert(!starts.contains(v));
                }
            } else if starts.len() > 1 {
                assert(ids_at(c, starts) == ids_at(c, starts));
            } else if n > 0 {
                let start = starts[0];
                assert(starts =~= seq![start]);
                let order = ready_order(arcs, n, start);
                let stuck = left_out(order, n);
                crate::graph::lemma_ready_order(arcs, n, start);
                if order.len() != n {
                    law_cyclic_charts_have_a_cycle(src, parsed, keys, steps);
                    lemma_stuck(c, order);
                    crate::graph::lemma_left_out(order, n);
                    assert(ids_at(c, stuck) == ids_at(c, stuck));
                } else {
                    lemma_unknown_keys(c, keys);
                    let ids = unknown_keys(c, keys);
                    assert forall|k: Seq<char>| #[trigger] ids.contains(k) <==> keys.contains(k)
                        && forall|v: int| 0 <= v < n ==> (#[trigger] c.nodes[v]).id != k by {
                        if !has_node(c, k) {
                            assert forall|v: int| 0 <= v < n implies (
                            #[trigger] c.nodes[v]).id != k by {}
                        }
                    }
                }
            }
        }
    }
}

proof fn lemma_stuck(c: ChartView, order: Seq<int>)
    requires
        chart_wf(c),
        crate::graph::ready_list(chart_arcs(c), c.nodes.len(), order, order.len() as int),
        order.len() < c.nodes.len(),
    ensures
        left_out(order, c.nodes.len()).len() > 0,
        wait_for_each_other(c, left_out(order, c.nodes.len())),
{
    let n = c.nodes.len();
    let arcs = chart_arcs(c);
    let stuck = left_out(order, n);
    let done = order.take(order.len() as int).to_set();
    crate::graph::lemma_left_out(order, n);
    assert(order.take(order.len() as int) =~= order);
    if stuck.len() == 0 {
        assert forall|v: int| 0 <= v < n implies #[trigger] order.contains(v) by {
            assert(!stuck.contains(v));
        }
        let all = Seq::new(n, |i: int| i);
        let places = Seq::new(n, |i: int| order.index_of(i));
        assert forall|i: int| 0 <= i < places.len() implies 0 <= #[trigger] places[i]
            < order.len() by {
            assert(order.contains(i));
        }
        assert(places.no_duplicates()) by {
            assert forall|i: int, j: int|
                0 <= i < places.len() && 0 <= j < places.len() && i != j implies places[i]
                != places[j] by {
                assert(order.contains(i) && order.contains(j));
                assert(order[places[i]] == i && order[places[j]] == j);
            }
        }
        crate::graph::lemma_pigeonhole(places, order.len());
    }
    assert forall|i: int| 0 <= i < stuck.len() implies 0 <= #[trigger] stuck[i] < n && exists|
        e: int,
    |
        0 <= e < c.edges.len() && (#[trigger] c.edges[e]).to == stuck[i] && stuck.contains(
            c.edges[e].from,
        ) by {
        let v = stuck[i];
        assert(stuck.contains(v));
        assert(!order.contains(v));
        crate::graph::lemma_waiting_zero(arcs, done, v);
        let e = choose|e: int|
            0 <= e < arcs.len() && (#[trigger] arcs[e]).1 == v && !done.contains(arcs[e].0);
        assert(arcs[e] == (c.edges[e].from, c.edges[e].to));
        assert(!order.contains(arcs[e].0));
        assert(stuck.contains(c.edges[e].from));
    }
    assert forall|e: int|
        0 <= e < c.edges.len() && stuck.contains(
            (#[trigger] c.edges[e]).from,
        ) implies stuck.contains(c.edges[e].to) by {
        let v = c.edges[e].to;
        assert(arcs[e] == (c.edges[e].from, v));
        crate::graph::lemma_waiting_zero(arcs, done, v);
        if order.contains(v) {
            assert(done.contains(arcs[e].0));
            assert(order.contains(arcs[e].0));
        }
    }
}

/// Every defect is refused, and of several the first counts: a chart without a node
/// is empty; one without a start has no start; two starts are too many; then a
/// cycle; then a configured step that is no node.
pub proof fn law_defects_are_refused(
    src: Seq<char>,
    c: ChartView,
    keys: Seq<Seq<char>>,
    steps: Map<Seq<char>, StepConfigView>,
    v: int,
    w: int,
    k: int,
)
    ensures
        ({
            let r = loaded_from(src, ParsedView::Chart(c), keys, steps);
            let joined_nodes = forall|i: int|
                0 <= i < c.edges.len() ==> 0 <= (#[trigger] c.edges[i]).from < c.nodes.len() && 0
                    <= c.edges[i].to < c.nodes.len();
            let v_starts = 0 <= v < c.nodes.len() && !has_incoming(c, v);
            let w_starts = 0 <= w < c.nodes.len() && !has_incoming(c, w);
            &&& !joined_nodes ==> r == Err::<FlowView, FlowErrorView>(FlowErrorView::StrayEdge)
            &&& joined_nodes && c.nodes.len() == 0 ==> r == Err::<FlowView, FlowErrorView>(
                FlowErrorView::Empty,
            )
            &&& joined_nodes && c.nodes.len() > 0 && (forall|x: int|
                0 <= x < c.nodes.len() ==> #[trigger] has_incoming(c, x)) ==> r == Err::<
                FlowView,
                FlowErrorView,
            >(FlowErrorView::NoStart)
            &&& joined_nodes && v_starts && w_starts && v != w ==> r is Err
                && r->Err_0 is ManyStarts
            &&& joined_nodes && has_cycle(chart_arcs(c)) ==> r is Err && (r->Err_0 is NoStart
                || r->Err_0 is ManyStarts || r->Err_0 is Cyclic)
            &&& 0 <= k < keys.len() && (forall|x: int|
                0 <= x < c.nodes.len() ==> (#[trigger] c.nodes[x]).id != keys[k]) ==> r is Err
        }),
        loaded_from(src, ParsedView::Failed(src), keys, steps) is Err,
        loaded_from(src, ParsedView::Round(src), keys, steps) is Err,
        loaded_from(src, ParsedView::Other(src), keys, steps) is Err,
{
    let n = c.nodes.len();
    let arcs = chart_arcs(c);
    let starts = sources(arcs, n);
    let joined_nodes = forall|i: int|
        0 <= i < c.edges.len() ==> 0 <= (#[trigger] c.edges[i]).from < c.nodes.len() && 0
            <= c.edges[i].to < c.nodes.len();
    if joined_nodes {
        assert forall|i: int| 0 <= i < arcs.len() implies 0 <= (#[trigger] arcs[i]).0 < n && 0
            <= arcs[i].1 < n by {
            assert(arcs[i] == (c.edges[i].from, c.edges[i].to));
        }
    } else {
        let i = choose|i: int|
            0 <= i < c.edges.len() && !(0 <= (#[trigger] c.edges[i]).from < n && 0
                <= c.edges[i].to < n);
        assert(arcs[i] == (c.edges[i].from, c.edges[i].to));
    }
    crate::graph::lemma_sources(arcs, n);
    lemma_no_arc_into(c, v);
    lemma_no_arc_into(c, w);
    if starts.len() > 0 {
        let s = starts[0];
        assert(starts.contains(s));
        lemma_no_arc_into(c, s);
    }
    if starts.contains(v) && starts.contains(w) && v != w {
        let i = choose|i: int| 0 <= i < starts.len() && starts[i] == v;
        let j = choose|j: int| 0 <= j < starts.len() && starts[j] == w;
        assert(i != j);
    }
    if joined_nodes && has_cycle(arcs) {
        law_cycles_are_rejected(src, ParsedView::Chart(c), keys, steps);
        if n == 0 {
            let walk = choose|walk: Seq<int>| crate::graph::is_cycle(arcs, walk);
            assert(arcs.contains((walk[0], walk[0int + 1])));
        }
        if starts.len() == 1 && n > 0 {
            assert(starts =~= seq![starts[0]]);
            let order = ready_order(arcs, n, starts[0]);
            crate::graph::lemma_ready_order(arcs, n, starts[0]);
            if order.len() == n {
                crate::graph::lemma_ready_all(arcs, n, order);
                crate::graph::lemma_topological_acyclic(arcs, order);
            }
        }
    }
    if 0 <= k < keys.len() && (forall|x: int|
        0 <= x < c.nodes.len() ==> (#[trigger] c.nodes[x]).id != keys[k]) {
        lemma_unknown_keys(c, keys);
        assert(keys.contains(keys[k]));
        assert(!has_node(c, keys[k]));
        assert(unknown_keys(c, keys).contains(keys[k]));
    }
}

/// A text is `else`, in small or capital letters.
pub open spec fn says_else(t: Seq<char>) -> bool {
    &&& t.len() == 4
    &&& t[0] == 'e' || t[0] == 'E'
    &&& t[1] == 'l' || t[1] == 'L'
    &&& t[2] == 's' || t[2] == 'S'
    &&& t[3] == 'e' || t[3] == 'E'
}

proof fn lemma_else(l: Seq<char>)
    ensures
        condition_of(Some(l)) == if trimmed(l).len() == 0 || says_else(trimmed(l)) {
            None
        } else {
            Some(trimmed(l))
        },
{
    reveal_strlit("else");
    let t = trimmed(l);
    let low = t.map_values(|c: char| ascii_lower(c));
    assert(low.len() == t.len());
    if says_else(t) {
        assert(low =~= "else"@);
    }
    if low == "else"@ {
        assert("else"@.len() == 4);
        assert(low[0] == 'e' && low[1] == 'l' && low[2] == 's' && low[3] == 'e');
        assert(ascii_lower(t[0]) == 'e');
        assert(ascii_lower(t[1]) == 'l');
        assert(ascii_lower(t[2]) == 's');
        assert(ascii_lower(t[3]) == 'e');
    }
}

/// A loaded flow is its chart: there is an order of the nodes, each once, in which
/// the steps stand, with the ids, titles and configurations of their nodes; every
/// edge joins the steps of the nodes that it joined, leads to a later one, and
/// keeps its label; and the label without white space around it is its condition,
/// unless it is missing, blank or `else`. The first step is the one that no edge
/// leads to, and the flow is linear exactly when no two edges leave one step.
pub proof fn law_flows_are_their_charts(
    src: Seq<char>,
    c: ChartView,
    keys: Seq<Seq<char>>,
    steps: Map<Seq<char>, StepConfigView>,
) -> (order: Seq<int>)
    requires
        loaded_from(src, ParsedView::Chart(c), keys, steps) is Ok,
    ensures
        ({
            let f = loaded_from(src, ParsedView::Chart(c), keys, steps)->Ok_0;
            &&& f.mermaid_src == src
            &&& f.start == 0
            &&& f.steps.len() == c.nodes.len() == order.len()
            &&& f.edges.len() == c.edges.len()
            &&& order.no_duplicates()
            &&& forall|k: int|
                0 <= k < order.len() ==> {
                    &&& 0 <= #[trigger] order[k] < c.nodes.len()
                    &&& f.steps[k].node_id == c.nodes[order[k]].id
                    &&& f.steps[k].title == c.nodes[order[k]].label
                    &&& f.steps[k].unconfigured == !steps.contains_key(c.nodes[order[k]].id)
                    &&& steps.contains_key(c.nodes[order[k]].id) ==> f.steps[k].cfg
                        == steps[c.nodes[order[k]].id]
                    &&& !steps.contains_key(c.nodes[order[k]].id) ==> f.steps[k].cfg.manual
                        && f.steps[k].cfg.request is None
                }
            &&& forall|i: int|
                0 <= i < c.edges.len() ==> {
                    &&& 0 <= (#[trigger] f.edges[i]).from < f.edges[i].to < order.len()
                    &&& order[f.edges[i].from] == c.edges[i].from
                    &&& order[f.edges[i].to] == c.edges[i].to
                    &&& f.edges[i].label == c.edges[i].label
                    &&& f.edges[i].cond == match c.edges[i].label {
                        None => None,
                        Some(l) => if trimmed(l).len() == 0 || says_else(trimmed(l)) {
                            None
                        } else {
                            Some(trimmed(l))
                        },
                    }
                }
            &&& f.linear <==> forall|i: int, j: int|
                0 <= i < c.edges.len() && 0 <= j < c.edges.len() && i != j ==> (
                #[trigger] c.edges[i]).from != (#[trigger] c.edges[j]).from
            &&& !has_incoming(c, order[0])
            &&& forall|k: int| 1 <= k < order.len() ==> has_incoming(c, #[trigger] order[k])
        }),
{
    let n = c.nodes.len();
    let arcs = chart_arcs(c);
    let order = lemma_assembled(src, c, keys, steps);
    let f = loaded_from(src, ParsedView::Chart(c), keys, steps)->Ok_0;
    law_loaded_flows_are_well_formed(src, ParsedView::Chart(c), keys, steps);
    assert forall|k: int| 0 <= k < order.len() implies {
        &&& 0 <= #[trigger] order[k] < c.nodes.len()
        &&& f.steps[k].node_id == c.nodes[order[k]].id
        &&& f.steps[k].title == c.nodes[order[k]].label
        &&& f.steps[k].unconfigured == !steps.contains_key(c.nodes[order[k]].id)
        &&& steps.contains_key(c.nodes[order[k]].id) ==> f.steps[k].cfg
            == steps[c.nodes[order[k]].id]
        &&& !steps.contains_key(c.nodes[order[k]].id) ==> f.steps[k].cfg.manual
            && f.steps[k].cfg.request is None
    } by {
        assert(f.steps[k] == step_of(c, steps, order[k]));
    }
    assert forall|i: int| 0 <= i < c.edges.len() implies {
        &&& 0 <= (#[trigger] f.edges[i]).from < f.edges[i].to < order.len()
        &&& order[f.edges[i].from] == c.edges[i].from
        &&& order[f.edges[i].to] == c.edges[i].to
        &&& f.edges[i].label == c.edges[i].label
        &&& f.edges[i].cond == match c.edges[i].label {
            None => None,
            Some(l) => if trimmed(l).len() == 0 || says_else(trimmed(l)) {
                None
            } else {
                Some(trimmed(l))
            },
        }
    } by {
        assert(f.edges[i] == edge_of(c, order, i));
        assert(arcs[i] == (c.edges[i].from, c.edges[i].to));
        assert(order.contains(arcs[i].0) && order.contains(arcs[i].1));
        if c.edges[i].label is Some {
            lemma_else(c.edges[i].label->Some_0);
        }
    }
    lemma_chain(arcs, n);
    assert(is_chain(arcs, n) <==> forall|i: int, j: int|
        0 <= i < c.edges.len() && 0 <= j < c.edges.len() && i != j ==> (
        #[trigger] c.edges[i]).from != (#[trigger] c.edges[j]).from) by {
        if is_chain(arcs, n) {
            assert forall|i: int, j: int|
                0 <= i < c.edges.len() && 0 <= j < c.edges.len() && i != j implies (
            #[trigger] c.edges[i]).from != (#[trigger] c.edges[j]).from by {
                assert(arcs[i].0 == c.edges[i].from && arcs[j].0 == c.edges[j].from);
            }
        }
        if forall|i: int, j: int|
            0 <= i < c.edges.len() && 0 <= j < c.edges.len() && i != j ==> (
            #[trigger] c.edges[i]).from != (#[trigger] c.edges[j]).from {
            assert forall|i: int, j: int|
                0 <= i < arcs.len() && 0 <= j < arcs.len() && i != j implies (
            #[trigger] arcs[i]).0 != (#[trigger] arcs[j]).0 by {
                assert(c.edges[i].from != c.edges[j].from);
            }
        }
    }
    let starts = sources(arcs, n);
    crate::graph::lemma_sources(arcs, n);
    assert(starts[0] == order[0]);
    assert(starts.contains(order[0]));
    lemma_no_arc_into(c, order[0]);
    assert forall|k: int| 1 <= k < order.len() implies has_incoming(c, #[trigger] order[k]) by {
        lemma_no_arc_into(c, order[k]);
        if starts.contains(order[k]) {
            let i = choose|i: int| 0 <= i < starts.len() && starts[i] == order[k];
        }
    }
    order
}

proof fn lemma_outdegree(arcs: Seq<Arc>, v: int)
    ensures
        outdegree(arcs, v) <= 1 <==> forall|i: int, j: int|
            0 <= i < arcs.len() && 0 <= j < arcs.len() && i != j ==> !((#[trigger] arcs[i]).0 == v
                && (#[trigger] arcs[j]).0 == v),
        outdegree(arcs, v) == 0 <==> forall|i: int|
            0 <= i < arcs.len() ==> (#[trigger] arcs[i]).0 != v,
    decreases arcs.len(),
{
    if arcs.len() > 0 {
        let n = arcs.len() - 1;
        let d = arcs.drop_last();
        lemma_outdegree(d, v);
        assert(arcs[n] == arcs.last());
        assert forall|i: int| 0 <= i < n implies #[trigger] d[i] == arcs[i] by {}
        if outdegree(d, v) > 0 {
            let i = choose|i: int| 0 <= i < d.len() && (#[trigger] d[i]).0 == v;
            assert(arcs[i].0 == v);
            if arcs[n].0 == v {
                assert(i != n);
            }
        }
        if outdegree(d, v) > 1 {
            let (i, j) = choose|i: int, j: int|
                0 <= i < d.len() && 0 <= j < d.len() && i != j && (#[trigger] d[i]).0 == v && (
                #[trigger] d[j]).0 == v;
            assert(arcs[i].0 == v && arcs[j].0 == v);
        }
        if outdegree(arcs, v) <= 1 {
            assert forall|i: int, j: int|
                0 <= i < arcs.len() && 0 <= j < arcs.len() && i != j implies !((
            #[trigger] arcs[i]).0 == v && (#[trigger] arcs[j]).0 == v) by {
                if i < n && j < n {
                    assert(!(d[i].0 == v && d[j].0 == v));
                } else if i < n {
                    assert(d[i] == arcs[i]);
                } else {
                    assert(d[j] == arcs[j]);
                }
            }
        }
        if outdegree(arcs, v) == 0 {
            assert forall|i: int| 0 <= i < arcs.len() implies (#[trigger] arcs[i]).0 != v by {
                if i < n {
                    assert(d[i].0 != v);
                }
            }
        }
    }
}

proof fn lemma_chain(arcs: Seq<Arc>, n: nat)
    requires
        crate::graph::arcs_within(arcs, n),
    ensures
        is_chain(arcs, n) <==> forall|i: int, j: int|
            0 <= i < arcs.len() && 0 <= j < arcs.len() && i != j ==> (#[trigger] arcs[i]).0 != (
            #[trigger] arcs[j]).0,
{
    if is_chain(arcs, n) {
        assert forall|i: int, j: int|
            0 <= i < arcs.len() && 0 <= j < arcs.len() && i != j implies (#[trigger] arcs[i]).0
            != (#[trigger] arcs[j]).0 by {
            lemma_outdegree(arcs, arcs[i].0);
            assert(outdegree(arcs, arcs[i].0) <= 1);
        }
    } else {
        let v = choose|v: int| 0 <= v < n && !(#[trigger] outdegree(arcs, v) <= 1);
        lemma_outdegree(arcs, v);
    }
}

/// The steps come first come, first served: with the last of its incoming edges a
/// step becomes ready, by the place of the step that an edge leaves and then by the
/// place of the edge in the chart, and the steps stand in the order in which they
/// become ready.
pub proof fn law_steps_stand_in_the_order_they_become_ready(
    src: Seq<char>,
    c: ChartView,
    keys: Seq<Seq<char>>,
    steps: Map<Seq<char>, StepConfigView>,
    a: int,
    b: int,
)
    requires
        loaded_from(src, ParsedView::Chart(c), keys, steps) is Ok,
        0 < a < b < c.nodes.len(),
    ensures
        ({
            let f = loaded_from(src, ParsedView::Chart(c), keys, steps)->Ok_0;
            exists|e: int|
                {
                    &&& 0 <= e < f.edges.len()
                    &&& (#[trigger] f.edges[e]).to == b
                    &&& forall|d: int|
                        0 <= d < f.edges.len() && (#[trigger] f.edges[d]).to == a ==> {
                            ||| f.edges[d].from < f.edges[e].from
                            ||| f.edges[d].from == f.edges[e].from && d < e
                        }
                }
        }),
{
    let n = c.nodes.len();
    let arcs = chart_arcs(c);
    let order = lemma_assembled(src, c, keys, steps);
    let f = loaded_from(src, ParsedView::Chart(c), keys, steps)->Ok_0;
    crate::graph::lemma_ready_in_turn(arcs, n, order[0]);
    let g = choose|g: int| crate::graph::in_turn(arcs, order, g);
    assert(crate::graph::is_released(arcs, order, a, g));
    assert(crate::graph::is_released(arcs, order, b, g));
    let (p, k) = choose|p: int, k: int|
        p < g && #[trigger] crate::graph::released_at(arcs, order, a, p, k);
    let (q, e) = choose|q: int, e: int|
        q < g && #[trigger] crate::graph::released_at(arcs, order, b, q, e);
    assert(f.edges[e] == edge_of(c, order, e));
    assert(arcs[e] == (c.edges[e].from, c.edges[e].to));
    crate::graph::lemma_index_of(order, q);
    crate::graph::lemma_index_of(order, b);
    assert(f.edges[e].from == q && f.edges[e].to == b);
    assert forall|d: int| 0 <= d < f.edges.len() && (#[trigger] f.edges[d]).to == a implies {
        ||| f.edges[d].from < f.edges[e].from
        ||| f.edges[d].from == f.edges[e].from && d < e
    } by {
        assert(f.edges[d] == edge_of(c, order, d));
        assert(arcs[d] == (c.edges[d].from, c.edges[d].to));
        assert(order.contains(arcs[d].0) && order.contains(arcs[d].1));
        assert(arcs[d].1 == order[a]);
        let r = choose|r: int|
            0 <= r <= p && #[trigger] order[r] == arcs[d].0 && (r < p || d <= k);
        crate::graph::lemma_index_of(order, r);
        assert(f.edges[d].from == r);
    }
}

/// The edges out of a step are those of the flow that leave it, all of them and in
/// their order.
pub proof fn law_edges_out_of_a_step(
    a: Seq<FlowEdgeView>,
    b: Seq<FlowEdgeView>,
    e: FlowEdgeView,
    i: int,
)
    ensures
        edges_from(seq![], i) == Seq::<FlowEdgeView>::empty(),
        edges_from(seq![e], i) == if e.from == i {
            seq![e]
        } else {
            seq![]
        },
        edges_from(a + b, i) == edges_from(a, i) + edges_from(b, i),
    decreases b.len(),
{
    assert(seq![e].drop_last() =~= Seq::<FlowEdgeView>::empty());
    reveal_with_fuel(edges_from, 2);
    if e.from == i {
        assert(edges_from(seq![e], i) =~= seq![e]);
    }
    if b.len() == 0 {
        assert(a + b =~= a);
        assert(edges_from(a, i) + edges_from(b, i) =~= edges_from(a, i));
    } else {
        assert((a + b).last() == b.last());
        assert((a + b).drop_last() =~= a + b.drop_last());
        law_edges_out_of_a_step(a, b.drop_last(), e, i);
        if b.last().from == i {
            assert(edges_from(a, i) + edges_from(b.drop_last(), i).push(b.last()) =~= (edges_from(
                a,
                i,
            ) + edges_from(b.drop_last(), i)).push(b.last()));
        }
    }
}

/// The message of an error names what is wrong: the file, the type of the diagram,
/// or all the nodes or steps that it is about.
pub proof fn law_messages_name_what_is_wrong(
    path: Seq<char>,
    t: Seq<char>,
    ids: Seq<Seq<char>>,
)
    ensures
        error_text(FlowErrorView::Unparsable(t), path) == "parse mermaid "@ + path + ": "@ + t,
        error_text(FlowErrorView::NotAFlow(t), path)
            == "diagram must be flowchart/stateDiagram, got "@ + t,
        error_text(FlowErrorView::Empty, path) == "empty flow: no nodes in "@ + path,
        error_text(FlowErrorView::NoStart, path)
            == "cyclic graph: no start node (all have an incoming edge)"@,
        error_text(FlowErrorView::ManyStarts(ids), path) == "more than one start node ("@ + joined(
            ids,
            ", "@,
        ) + ") — a flow needs a single entry point"@,
        error_text(FlowErrorView::Cyclic(ids), path) == "cyclic graph detected (node: "@ + joined(
            ids,
            ", "@,
        ) + ") — only DAGs are supported"@,
        error_text(FlowErrorView::UnknownSteps(ids), path)
            == "step in flow.yaml not found in flow.mmd: "@ + joined(ids, ", "@),
{
}

/// Nodes are named by their ids, each in its place; the configured steps are all the
/// keys of the configuration, each with what stands under it.
pub proof fn law_nodes_and_steps_are_named(
    c: ChartView,
    list: Seq<int>,
    steps: StrMap<StepConfig>,
    k: Seq<char>,
)
    ensures
        ids_at(c, list).len() == list.len(),
        forall|i: int|
            0 <= i < list.len() ==> #[trigger] ids_at(c, list)[i] == c.nodes[list[i]].id,
        step_keys(steps).len() == steps.entries().len(),
        forall|i: int|
            0 <= i < steps.entries().len() ==> #[trigger] step_keys(steps)[i]
                == steps.entries()[i].0,
        step_map(steps).contains_key(k) <==> steps@.contains_key(k),
        steps@.contains_key(k) ==> step_map(steps)[k] == steps@[k]@,
        steps.wf() ==> (step_keys(steps).contains(k) <==> steps@.contains_key(k)),
{
    let e = steps.entries();
    if steps.wf() {
        crate::strmap::lemma_ascending_map(e);
        if step_keys(steps).contains(k) {
            let i = choose|i: int| 0 <= i < step_keys(steps).len() && step_keys(steps)[i] == k;
            assert(steps@.contains_pair(e[i].0, e[i].1));
        }
        if steps@.contains_key(k) {
            let i = choose|i: int| 0 <= i < e.len() && e[i].0 == k;
            assert(step_keys(steps)[i] == k);
        }
    }
}

} // verus!
