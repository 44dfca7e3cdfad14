//! Walking a flow: what the answers of an operator and the reports of the steps
//! mean for where a run stands. The caller prints, asks, sends and draws; each
//! function here takes what came of that and says what is next.

use crate::branch::{
    choose_next, law_next_is_a_target, next_step, option_views, Next, NextView,
};
use crate::config::text_map;
use crate::diagram::NodeState;
use crate::engine::{Outcome, OutcomeView};
use crate::error::{EngineError, EngineErrorView};
use crate::flow::{edges_from, flow_wf, Flow, FlowEdgeView, FlowView};
use crate::strmap::StrMap;
use crate::text::{
    ascii, ascii_lower, decimal, law_digits_give_the_number_back, law_numbers_are_digits,
    number_upto, parse_upto, same_text, trim, trimmed,
};
use vstd::prelude::*;

verus! {

/// What the operator was asked last.
#[derive(Debug)]
pub enum Asked {
    /// What to do with the current step.
    Step,
    /// What to do now that the current step failed.
    Retry,
    /// Which of these branches to take.
    Branch(Vec<(usize, String)>),
}

/// Where a run stands.
#[derive(Debug)]
pub struct Walk {
    /// The current step.
    pub cur: usize,
    /// How many steps were entered, the current one included.
    pub ran: usize,
    /// No step failed so far.
    pub ok_all: bool,
    pub asked: Asked,
}

/// What is next.
#[derive(Debug)]
pub enum Then {
    /// Show the current step and ask what to do with it.
    AskStep,
    /// Ask what to do with a failed step.
    AskRetry,
    /// Ask which branch to take.
    AskBranch,
    /// The answer was no branch: ask again.
    AskAgain,
    /// Run the current step and report.
    Run,
    /// Show the variables, then ask for the current step again.
    ShowVars,
    /// The run is over, and went well or not.
    Stop(bool),
    /// The run cannot go on: the edges do not decide, and nobody is asked.
    Ambiguous(Vec<(usize, String)>),
    /// The run cannot go on.
    Error(EngineError),
}

/// A turn of a run: the status that a step takes, and what is next.
#[derive(Debug)]
pub struct Turn {
    /// The step that takes the status.
    pub at: usize,
    pub mark: Option<NodeState>,
    pub next: Then,
}

/// What an `Asked` holds.
pub enum AskedView {
    Step,
    Retry,
    Branch(Seq<(int, Seq<char>)>),
}

/// What a `Walk` holds.
pub struct WalkView {
    pub cur: int,
    pub ran: int,
    pub ok_all: bool,
    pub asked: AskedView,
}

/// What a `Then` holds.
pub enum ThenView {
    AskStep,
    AskRetry,
    AskBranch,
    AskAgain,
    Run,
    ShowVars,
    Stop(bool),
    Ambiguous(Seq<(int, Seq<char>)>),
    Error(EngineErrorView),
}

/// What a `Turn` holds.
pub struct TurnView {
    pub at: int,
    pub mark: Option<NodeState>,
    pub next: ThenView,
}

impl View for Asked {
    type V = AskedView;

    open spec fn view(&self) -> AskedView {
        match *self {
            Asked::Step => AskedView::Step,
            Asked::Retry => AskedView::Retry,
            Asked::Branch(o) => AskedView::Branch(option_views(o@)),
        }
    }
}

impl View for Walk {
    type V = WalkView;

    open spec fn view(&self) -> WalkView {
        WalkView {
            cur: self.cur as int,
            ran: self.ran as int,
            ok_all: self.ok_all,
            asked: self.asked@,
        }
    }
}

impl View for Then {
    type V = ThenView;

    open spec fn view(&self) -> ThenView {
        match *self {
            Then::AskStep => ThenView::AskStep,
            Then::AskRetry => ThenView::AskRetry,
            Then::AskBranch => ThenView::AskBranch,
            Then::AskAgain => ThenView::AskAgain,
            Then::Run => ThenView::Run,
            Then::ShowVars => ThenView::ShowVars,
            Then::Stop(b) => ThenView::Stop(b),
            Then::Ambiguous(o) => ThenView::Ambiguous(option_views(o@)),
            Then::Error(e) => ThenView::Error(e@),
        }
    }
}

impl View for Turn {
    type V = TurnView;

    open spec fn view(&self) -> TurnView {
        TurnView { at: self.at as int, mark: self.mark, next: self.next@ }
    }
}

/// A walk that fits a flow: it stands on a step, has entered no more steps than
/// lie up to there, and the branches to choose from lie ahead.
pub open spec fn walk_wf(f: FlowView, w: WalkView) -> bool {
    &&& 0 <= w.cur < f.steps.len()
    &&& 1 <= w.ran <= w.cur + 1
    &&& w.asked matches AskedView::Branch(o) ==> lie_ahead(f, w.cur, o)
}

/// The targets of a choice lie ahead of a step.
pub open spec fn lie_ahead(f: FlowView, cur: int, o: Seq<(int, Seq<char>)>) -> bool {
    forall|i: int| 0 <= i < o.len() ==> cur < (#[trigger] o[i]).0 < f.steps.len()
}

/// The walk at the entry of a flow.
pub open spec fn walk_start(f: FlowView) -> WalkView {
    WalkView { cur: f.start, ran: 1, ok_all: true, asked: AskedView::Step }
}

/// Entering a step.
pub open spec fn entered(w: WalkView, t: int) -> WalkView {
    WalkView { cur: t, ran: w.ran + 1, ok_all: w.ok_all, asked: AskedView::Step }
}

/// Leaving the current step along its edges.
pub open spec fn moved(f: FlowView, vars: Map<Seq<char>, Seq<char>>, w: WalkView) -> (
    WalkView,
    ThenView,
) {
    match next_step(edges_from(f.edges, w.cur), vars) {
        Err(e) => (w, ThenView::Error(e)),
        Ok(NextView::Advance(t)) => (entered(w, t), ThenView::AskStep),
        Ok(NextView::End) => (w, ThenView::Stop(w.ok_all)),
        Ok(NextView::Pick(o)) => (
            WalkView { asked: AskedView::Branch(o), ..w },
            ThenView::AskBranch,
        ),
    }
}

/// The current step takes a status and the run leaves it.
pub open spec fn onward(
    f: FlowView,
    vars: Map<Seq<char>, Seq<char>>,
    w: WalkView,
    mark: NodeState,
) -> (WalkView, TurnView) {
    let m = moved(f, vars, w);
    (m.0, TurnView { at: w.cur, mark: Some(mark), next: m.1 })
}

/// A turn in which no step takes a status and the run stays where it is.
pub open spec fn stay(w: WalkView, next: ThenView) -> (WalkView, TurnView) {
    (w, TurnView { at: w.cur, mark: None, next })
}

/// What an answer means. `q` ends the run. For a step, `s` skips it, `vars`
/// shows the variables, and anything else runs it, or goes on if it is manual.
/// After a failure, `r` runs it again, `s` skips it, and anything else ends the
/// run. At a branch, a number takes that branch.
pub open spec fn answered(
    f: FlowView,
    vars: Map<Seq<char>, Seq<char>>,
    w: WalkView,
    answer: Seq<char>,
) -> (WalkView, TurnView) {
    match w.asked {
        AskedView::Step => if answer == "q"@ {
            stay(w, ThenView::Stop(false))
        } else if f.steps[w.cur].cfg.is_manual() {
            onward(f, vars, w, NodeState::Manual)
        } else if answer == "s"@ {
            onward(f, vars, w, NodeState::Skip)
        } else if answer == "vars"@ {
            stay(w, ThenView::ShowVars)
        } else {
            stay(w, ThenView::Run)
        },
        AskedView::Retry => if answer == "r"@ {
            stay(w, ThenView::Run)
        } else if answer == "s"@ {
            onward(f, vars, w, NodeState::Skip)
        } else {
            stay(w, ThenView::Stop(false))
        },
        AskedView::Branch(o) => if answer == "q"@ {
            stay(w, ThenView::Stop(false))
        } else {
            match number_upto(answer, usize::MAX as nat) {
                Some(k) => if 1 <= k <= o.len() {
                    (
                        entered(w, o[k - 1].0),
                        TurnView { at: w.cur, mark: None, next: ThenView::AskStep },
                    )
                } else {
                    stay(w, ThenView::AskAgain)
                },
                None => stay(w, ThenView::AskAgain),
            }
        },
    }
}

/// What the report on the current step means: a failed step is asked about, and
/// any other is left behind.
pub open spec fn reported(
    f: FlowView,
    vars: Map<Seq<char>, Seq<char>>,
    w: WalkView,
    outcome: OutcomeView,
) -> (WalkView, TurnView) {
    match outcome {
        OutcomeView::Passed => onward(f, vars, w, NodeState::Passed),
        OutcomeView::Skipped(_) => onward(f, vars, w, NodeState::Skip),
        OutcomeView::Manual => onward(f, vars, w, NodeState::Manual),
        OutcomeView::Failed(_) => (
            WalkView { ok_all: false, asked: AskedView::Retry, ..w },
            TurnView { at: w.cur, mark: Some(NodeState::Fail), next: ThenView::AskRetry },
        ),
    }
}

/// A turn of an unattended run: where the operator would be asked for a branch,
/// the run cannot go on.
pub open spec fn unattended(before: WalkView, t: (WalkView, TurnView)) -> (WalkView, TurnView) {
    match t.0.asked {
        AskedView::Branch(o) => (
            before,
            TurnView { next: ThenView::Ambiguous(o), ..t.1 },
        ),
        _ => t,
    }
}

/// What an unattended run does with the current step: a manual step is left
/// behind, and any other is run.
pub open spec fn auto_entered(f: FlowView, vars: Map<Seq<char>, Seq<char>>, w: WalkView) -> (
    WalkView,
    TurnView,
) {
    if f.steps[w.cur].cfg.is_manual() {
        unattended(w, onward(f, vars, w, NodeState::Manual))
    } else {
        stay(w, ThenView::Run)
    }
}

/// What the report on the current step means for an unattended run: a failed
/// step ends it, and any other is left behind.
pub open spec fn auto_reported(
    f: FlowView,
    vars: Map<Seq<char>, Seq<char>>,
    w: WalkView,
    outcome: OutcomeView,
) -> (WalkView, TurnView) {
    match outcome {
        OutcomeView::Passed => unattended(w, onward(f, vars, w, NodeState::Passed)),
        OutcomeView::Skipped(_) => unattended(w, onward(f, vars, w, NodeState::Skip)),
        OutcomeView::Manual => unattended(w, onward(f, vars, w, NodeState::Manual)),
        OutcomeView::Failed(_) => (
            w,
            TurnView { at: w.cur, mark: Some(NodeState::Fail), next: ThenView::Stop(false) },
        ),
    }
}

proof fn lemma_edges_from(edges: Seq<FlowEdgeView>, i: int)
    ensures
        forall|k: int|
            0 <= k < edges_from(edges, i).len() ==> {
                &&& (#[trigger] edges_from(edges, i)[k]).from == i
                &&& exists|j: int| 0 <= j < edges.len() && edges[j] == edges_from(edges, i)[k]
            },
    decreases edges.len(),
{
    if edges.len() > 0 {
        let front = edges.drop_last();
        lemma_edges_from(front, i);
        assert forall|k: int| 0 <= k < edges_from(edges, i).len() implies {
            &&& (#[trigger] edges_from(edges, i)[k]).from == i
            &&& exists|j: int| 0 <= j < edges.len() && edges[j] == edges_from(edges, i)[k]
        } by {
            if k < edges_from(front, i).len() {
                let e = edges_from(front, i)[k];
                let j = choose|j: int| 0 <= j < front.len() && front[j] == e;
                assert(edges[j] == e);
            } else {
                assert(edges[edges.len() - 1] == edges_from(edges, i)[k]);
            }
        }
    }
}

/// What follows a step of a loaded flow, and what is offered in a choice, lies
/// ahead of it.
pub proof fn lemma_targets_ahead(f: FlowView, vars: Map<Seq<char>, Seq<char>>, cur: int)
    requires
        flow_wf(f),
        0 <= cur < f.steps.len(),
    ensures
        next_step(edges_from(f.edges, cur), vars) matches Ok(NextView::Advance(t)) ==> cur < t
            < f.steps.len(),
        next_step(edges_from(f.edges, cur), vars) matches Ok(NextView::Pick(o)) ==> lie_ahead(
            f,
            cur,
            o,
        ),
{
    let out = edges_from(f.edges, cur);
    lemma_edges_from(f.edges, cur);
    law_next_is_a_target(out, vars);
    assert forall|k: int| 0 <= k < out.len() implies cur < (#[trigger] out[k]).to
        < f.steps.len() by {
        let j = choose|j: int| 0 <= j < f.edges.len() && f.edges[j] == out[k];
        assert(f.edges[j].from == cur);
    }
}

proof fn lemma_moved(f: FlowView, vars: Map<Seq<char>, Seq<char>>, w: WalkView)
    requires
        flow_wf(f),
        walk_wf(f, w),
    ensures
        walk_wf(f, moved(f, vars, w).0),
        w.cur <= moved(f, vars, w).0.cur,
        moved(f, vars, w).0.cur == w.cur ==> moved(f, vars, w).0.ran == w.ran,
{
    lemma_targets_ahead(f, vars, w.cur);
}

/// A run goes forward only: an answer or a report leaves the walk on the same
/// step or on a later one, and a step that is left is never entered again. So no
/// more steps are entered than the flow has.
pub proof fn law_walks_go_forward(
    f: FlowView,
    vars: Map<Seq<char>, Seq<char>>,
    w: WalkView,
    answer: Seq<char>,
    outcome: OutcomeView,
)
    requires
        flow_wf(f),
        walk_wf(f, w),
    ensures
        goes_on(f, w, answered(f, vars, w, answer).0),
        goes_on(f, w, reported(f, vars, w, outcome).0),
        goes_on(f, w, auto_entered(f, vars, w).0),
        goes_on(f, w, auto_reported(f, vars, w, outcome).0),
{
    lemma_moved(f, vars, w);
}

/// From one walk to a later one of the same run.
pub open spec fn goes_on(f: FlowView, w: WalkView, v: WalkView) -> bool {
    &&& walk_wf(f, v)
    &&& w.cur <= v.cur
    &&& v.ran == w.ran + if w.cur == v.cur {
        0int
    } else {
        1int
    }
    &&& v.ran <= f.steps.len()
    &&& v.ok_all ==> w.ok_all
}

/// A run that ends well had no failure: a failed step is remembered, also when
/// it is skipped afterwards.
pub proof fn law_a_failure_is_remembered(
    f: FlowView,
    vars: Map<Seq<char>, Seq<char>>,
    w: WalkView,
    answer: Seq<char>,
    outcome: OutcomeView,
)
    requires
        flow_wf(f),
        walk_wf(f, w),
        !w.ok_all,
    ensures
        answered(f, vars, w, answer).1.next != ThenView::Stop(true),
        reported(f, vars, w, outcome).1.next != ThenView::Stop(true),
        !answered(f, vars, w, answer).0.ok_all,
        !reported(f, vars, w, outcome).0.ok_all,
{
}

/// An unattended run never asks: each of its turns runs a step, enters one, or
/// ends the run; and a failed step ends it.
pub proof fn law_unattended_runs_never_ask(
    f: FlowView,
    vars: Map<Seq<char>, Seq<char>>,
    w: WalkView,
    outcome: OutcomeView,
)
    requires
        w.asked is Step,
    ensures
        auto_entered(f, vars, w).0.asked is Step,
        auto_reported(f, vars, w, outcome).0.asked is Step,
        !asks(auto_entered(f, vars, w).1.next),
        !asks(auto_reported(f, vars, w, outcome).1.next),
        outcome is Failed ==> auto_reported(f, vars, w, outcome).1.next == ThenView::Stop(false),
{
}

/// The operator is needed for more than running the step that was entered.
pub open spec fn asks(t: ThenView) -> bool {
    t is AskRetry || t is AskBranch || t is AskAgain || t is ShowVars
}

/// A run that ends well has come to a step that no edge leaves.
pub proof fn law_success_is_at_the_end(
    f: FlowView,
    vars: Map<Seq<char>, Seq<char>>,
    w: WalkView,
    answer: Seq<char>,
    outcome: OutcomeView,
)
    ensures
        answered(f, vars, w, answer).1.next == ThenView::Stop(true) ==> edges_from(
            f.edges,
            w.cur,
        ).len() == 0,
        reported(f, vars, w, outcome).1.next == ThenView::Stop(true) ==> edges_from(
            f.edges,
            w.cur,
        ).len() == 0,
        auto_entered(f, vars, w).1.next == ThenView::Stop(true) ==> edges_from(
            f.edges,
            w.cur,
        ).len() == 0,
        auto_reported(f, vars, w, outcome).1.next == ThenView::Stop(true) ==> edges_from(
            f.edges,
            w.cur,
        ).len() == 0,
{
}

/// A round of an unattended run: the current step is entered, run where it is
/// not manual, and left. `world` says how a step goes: its outcome, and the
/// variables after it.
pub open spec fn auto_round(
    f: FlowView,
    vars: Map<Seq<char>, Seq<char>>,
    w: WalkView,
    world: spec_fn(int) -> (OutcomeView, Map<Seq<char>, Seq<char>>),
) -> (WalkView, ThenView, Map<Seq<char>, Seq<char>>) {
    let e = auto_entered(f, vars, w);
    if e.1.next is Run {
        let r = auto_reported(f, world(w.cur).1, w, world(w.cur).0);
        (r.0, r.1.next, world(w.cur).1)
    } else {
        (e.0, e.1.next, vars)
    }
}

proof fn lemma_auto_round(
    f: FlowView,
    vars: Map<Seq<char>, Seq<char>>,
    w: WalkView,
    world: spec_fn(int) -> (OutcomeView, Map<Seq<char>, Seq<char>>),
)
    requires
        flow_wf(f),
        walk_wf(f, w),
        w.asked is Step,
    ensures
        ({
            let r = auto_round(f, vars, w, world);
            &&& walk_wf(f, r.0)
            &&& r.0.asked is Step
            &&& r.1 is AskStep ==> {
                &&& w.cur < r.0.cur < f.steps.len()
                &&& joined_by_edge(f, w.cur, r.0.cur)
            }
            &&& r.1 is AskStep || r.1 is Stop || r.1 is Ambiguous || r.1 is Error
            &&& r.1 == ThenView::Stop(true) ==> edges_from(f.edges, w.cur).len() == 0
            &&& (r.1 is AskStep || r.1 == ThenView::Stop(true)) ==> goes_well(f, w.cur, world)
        }),
{
    lemma_moved(f, vars, w);
    lemma_moved(f, world(w.cur).1, w);
    lemma_targets_ahead(f, vars, w.cur);
    lemma_targets_ahead(f, world(w.cur).1, w.cur);
    lemma_next_is_joined(f, vars, w.cur);
    lemma_next_is_joined(f, world(w.cur).1, w.cur);
}

/// An edge leads from one step to another.
pub open spec fn joined_by_edge(f: FlowView, a: int, b: int) -> bool {
    exists|j: int| 0 <= j < f.edges.len() && (#[trigger] f.edges[j]).from == a && f.edges[j].to == b
}

/// A step is manual, or does not fail.
pub open spec fn goes_well(
    f: FlowView,
    i: int,
    world: spec_fn(int) -> (OutcomeView, Map<Seq<char>, Seq<char>>),
) -> bool {
    f.steps[i].cfg.is_manual() || !(world(i).0 is Failed)
}

proof fn lemma_next_is_joined(f: FlowView, vars: Map<Seq<char>, Seq<char>>, cur: int)
    ensures
        next_step(edges_from(f.edges, cur), vars) matches Ok(NextView::Advance(t))
            ==> joined_by_edge(f, cur, t),
{
    let out = edges_from(f.edges, cur);
    lemma_edges_from(f.edges, cur);
    law_next_is_a_target(out, vars);
    match next_step(out, vars) {
        Ok(NextView::Advance(t)) => {
            let i = choose|i: int| 0 <= i < out.len() && (#[trigger] out[i]).to == t;
            let j = choose|j: int| 0 <= j < f.edges.len() && f.edges[j] == out[i];
            assert(f.edges[j].from == cur && f.edges[j].to == t);
        },
        _ => {},
    }
}

/// An unattended run: the steps it enters, and how it ends.
pub open spec fn auto_run(
    f: FlowView,
    vars: Map<Seq<char>, Seq<char>>,
    w: WalkView,
    world: spec_fn(int) -> (OutcomeView, Map<Seq<char>, Seq<char>>),
) -> (Seq<int>, ThenView)
    decreases f.steps.len() - w.cur,
    when flow_wf(f) && walk_wf(f, w) && w.asked is Step
    via auto_run_decreases
{
    let r = auto_round(f, vars, w, world);
    if r.1 is AskStep {
        let rest = auto_run(f, r.2, r.0, world);
        (seq![w.cur] + rest.0, rest.1)
    } else {
        (seq![w.cur], r.1)
    }
}

#[via_fn]
proof fn auto_run_decreases(
    f: FlowView,
    vars: Map<Seq<char>, Seq<char>>,
    w: WalkView,
    world: spec_fn(int) -> (OutcomeView, Map<Seq<char>, Seq<char>>),
) {
    lemma_auto_round(f, vars, w, world);
}

/// The steps of a run are a path: each is joined by an edge to the next, which
/// lies ahead of it.
pub open spec fn is_path(f: FlowView, p: Seq<int>) -> bool {
    &&& forall|i: int| 0 <= i < p.len() ==> 0 <= (#[trigger] p[i]) < f.steps.len()
    &&& forall|i: int, j: int| 0 <= i < j < p.len() ==> #[trigger] p[i] < #[trigger] p[j]
    &&& forall|i: int|
        0 < i < p.len() ==> joined_by_edge(f, #[trigger] p[i - 1], p[i])
}

proof fn lemma_auto_run(
    f: FlowView,
    vars: Map<Seq<char>, Seq<char>>,
    w: WalkView,
    world: spec_fn(int) -> (OutcomeView, Map<Seq<char>, Seq<char>>),
)
    requires
        flow_wf(f),
        walk_wf(f, w),
        w.asked is Step,
    ensures
        ({
            let r = auto_run(f, vars, w, world);
            &&& r.0.len() >= 1
            &&& r.0[0] == w.cur
            &&& r.0.len() <= f.steps.len() - w.cur
            &&& is_path(f, r.0)
            &&& r.1 is Stop || r.1 is Ambiguous || r.1 is Error
            &&& r.1 == ThenView::Stop(true) ==> {
                &&& edges_from(f.edges, r.0.last()).len() == 0
                &&& forall|i: int| 0 <= i < r.0.len() ==> goes_well(f, #[trigger] r.0[i], world)
            }
        }),
    decreases f.steps.len() - w.cur,
{
    lemma_auto_round(f, vars, w, world);
    let t = auto_round(f, vars, w, world);
    let r = auto_run(f, vars, w, world);
    if t.1 is AskStep {
        lemma_auto_run(f, t.2, t.0, world);
        let rest = auto_run(f, t.2, t.0, world);
        assert(r.0 =~= seq![w.cur] + rest.0);
        assert forall|i: int, j: int| 0 <= i < j < r.0.len() implies #[trigger] r.0[i]
            < #[trigger] r.0[j] by {
            assert(r.0[j] == rest.0[j - 1]);
            if i > 0 {
                assert(r.0[i] == rest.0[i - 1]);
            } else if j > 1 {
                assert(rest.0[0] < rest.0[j - 1]);
            }
        }
        assert forall|i: int| 0 < i < r.0.len() implies joined_by_edge(
            f,
            #[trigger] r.0[i - 1],
            r.0[i],
        ) by {
            assert(r.0[i] == rest.0[i - 1]);
            if i > 1 {
                assert(r.0[i - 1] == rest.0[i - 2]);
                assert(joined_by_edge(f, rest.0[(i - 1) - 1], rest.0[i - 1]));
            }
        }
        assert forall|i: int| 0 <= i < r.0.len() implies 0 <= (#[trigger] r.0[i])
            < f.steps.len() by {
            if i > 0 {
                assert(r.0[i] == rest.0[i - 1]);
            }
        }
        if r.1 == ThenView::Stop(true) {
            assert(r.0.last() == rest.0.last());
            assert forall|i: int| 0 <= i < r.0.len() implies goes_well(
                f,
                #[trigger] r.0[i],
                world,
            ) by {
                if i > 0 {
                    assert(r.0[i] == rest.0[i - 1]);
                }
            }
        }
    }
}

/// An unattended run, however its steps go, is a path from the entry of the flow
/// along its edges: it enters no step twice, so it ends. Where it ends well, no
/// step on the path failed and no edge leads on.
pub proof fn law_unattended_runs_are_paths(
    f: FlowView,
    vars: Map<Seq<char>, Seq<char>>,
    world: spec_fn(int) -> (OutcomeView, Map<Seq<char>, Seq<char>>),
)
    requires
        flow_wf(f),
    ensures
        ({
            let r = auto_run(f, vars, walk_start(f), world);
            &&& r.0.len() >= 1
            &&& r.0[0] == f.start
            &&& r.0.len() <= f.steps.len()
            &&& is_path(f, r.0)
            &&& r.1 is Stop || r.1 is Ambiguous || r.1 is Error
            &&& r.1 == ThenView::Stop(true) ==> {
                &&& edges_from(f.edges, r.0.last()).len() == 0
                &&& forall|i: int| 0 <= i < r.0.len() ==> goes_well(f, #[trigger] r.0[i], world)
            }
        }),
{
    lemma_auto_run(f, vars, walk_start(f), world);
}

impl Walk {
    /// The walk at the entry of a flow.
    pub fn begin(flow: &Flow) -> (w: Self)
        requires
            flow_wf(flow@),
        ensures
            w@ == walk_start(flow@),
            walk_wf(flow@, w@),
    {
        Walk { cur: flow.start, ran: 1, ok_all: true, asked: Asked::Step }
    }

    fn leave(&mut self, flow: &Flow, vars: &StrMap<String>) -> (t: Then)
        requires
            flow_wf(flow@),
            walk_wf(flow@, old(self)@),
        ensures
            (final(self)@, t@) == moved(flow@, text_map(*vars), old(self)@),
    {
        let edges = flow.outgoing(self.cur);
        proof {
            lemma_moved(flow@, text_map(*vars), self@);
        }
        match choose_next(edges.as_slice(), vars) {
            Err(e) => Then::Error(e),
            Ok(Next::Advance(t)) => {
                assert(t < flow.steps.len() && self.ran <= t);
                self.cur = t;
                self.ran = self.ran + 1;
                self.asked = Asked::Step;
                Then::AskStep
            },
            Ok(Next::End) => Then::Stop(self.ok_all),
            Ok(Next::Pick(o)) => {
                self.asked = Asked::Branch(o);
                Then::AskBranch
            },
        }
    }

    fn go_on(&mut self, flow: &Flow, vars: &StrMap<String>, mark: NodeState) -> (t: Turn)
        requires
            flow_wf(flow@),
            walk_wf(flow@, old(self)@),
        ensures
            (final(self)@, t@) == onward(flow@, text_map(*vars), old(self)@, mark),
    {
        let at = self.cur;
        let next = self.leave(flow, vars);
        Turn { at, mark: Some(mark), next }
    }

    fn hold(&self, next: Then) -> (t: Turn)
        ensures
            (self@, t@) == stay(self@, next@),
    {
        Turn { at: self.cur, mark: None, next }
    }

    /// Takes the answer of the operator.
    pub fn answer(&mut self, flow: &Flow, vars: &StrMap<String>, answer: &str) -> (t: Turn)
        requires
            flow_wf(flow@),
            walk_wf(flow@, old(self)@),
        ensures
            (final(self)@, t@) == answered(flow@, text_map(*vars), old(self)@, answer@),
            walk_wf(flow@, final(self)@),
    {
        proof {
            lemma_moved(flow@, text_map(*vars), self@);
        }
        let choice = match &self.asked {
            Asked::Step => {
                if same_text(answer, "q") {
                    return self.hold(Then::Stop(false));
                }
                if flow.steps[self.cur].cfg.is_manual() {
                    return self.go_on(flow, vars, NodeState::Manual);
                }
                if same_text(answer, "s") {
                    return self.go_on(flow, vars, NodeState::Skip);
                }
                if same_text(answer, "vars") {
                    return self.hold(Then::ShowVars);
                }
                return self.hold(Then::Run);
            },
            Asked::Retry => {
                if same_text(answer, "r") {
                    return self.hold(Then::Run);
                }
                if same_text(answer, "s") {
                    return self.go_on(flow, vars, NodeState::Skip);
                }
                return self.hold(Then::Stop(false));
            },
            Asked::Branch(o) => {
                if same_text(answer, "q") {
                    return self.hold(Then::Stop(false));
                }
                match parse_upto(answer, usize::MAX) {
                    Some(k) => {
                        if 1 <= k && k <= o.len() {
                            assert(option_views(o@)[k - 1].0 == o@[k - 1].0);
                            Some(o[k - 1].0)
                        } else {
                            None
                        }
                    },
                    None => None,
                }
            },
        };
        match choice {
            Some(target) => {
                let at = self.cur;
                assert(target < flow.steps.len() && self.ran <= target);
                self.cur = target;
                self.ran = self.ran + 1;
                self.asked = Asked::Step;
                Turn { at, mark: None, next: Then::AskStep }
            },
            None => self.hold(Then::AskAgain),
        }
    }

    /// Takes the report on the current step.
    pub fn report(&mut self, flow: &Flow, vars: &StrMap<String>, outcome: &Outcome) -> (t: Turn)
        requires
            flow_wf(flow@),
            walk_wf(flow@, old(self)@),
        ensures
            (final(self)@, t@) == reported(flow@, text_map(*vars), old(self)@, outcome@),
            walk_wf(flow@, final(self)@),
    {
        proof {
            lemma_moved(flow@, text_map(*vars), self@);
        }
        match outcome {
            Outcome::Passed => self.go_on(flow, vars, NodeState::Passed),
            Outcome::Skipped(_) => self.go_on(flow, vars, NodeState::Skip),
            Outcome::Manual => self.go_on(flow, vars, NodeState::Manual),
            Outcome::Failed(_) => {
                self.ok_all = false;
                self.asked = Asked::Retry;
                Turn { at: self.cur, mark: Some(NodeState::Fail), next: Then::AskRetry }
            },
        }
    }

    fn go_on_unattended(&mut self, flow: &Flow, vars: &StrMap<String>, mark: NodeState) -> (t: Turn)
        requires
            flow_wf(flow@),
            walk_wf(flow@, old(self)@),
            old(self)@.asked is Step,
        ensures
            (final(self)@, t@) == unattended(
                old(self)@,
                onward(flow@, text_map(*vars), old(self)@, mark),
            ),
    {
        let t = self.go_on(flow, vars, mark);
        match &self.asked {
            Asked::Branch(_) => {},
            _ => {
                return t;
            },
        }
        let mut asked = Asked::Step;
        std::mem::swap(&mut asked, &mut self.asked);
        match asked {
            Asked::Branch(o) => Turn { at: t.at, mark: t.mark, next: Then::Ambiguous(o) },
            _ => t,
        }
    }

    /// What an unattended run does with the current step.
    pub fn auto_enter(&mut self, flow: &Flow, vars: &StrMap<String>) -> (t: Turn)
        requires
            flow_wf(flow@),
            walk_wf(flow@, old(self)@),
            old(self)@.asked is Step,
        ensures
            (final(self)@, t@) == auto_entered(flow@, text_map(*vars), old(self)@),
            walk_wf(flow@, final(self)@),
            final(self)@.asked is Step,
    {
        proof {
            lemma_moved(flow@, text_map(*vars), self@);
        }
        if flow.steps[self.cur].cfg.is_manual() {
            self.go_on_unattended(flow, vars, NodeState::Manual)
        } else {
            self.hold(Then::Run)
        }
    }

    /// Takes the report on the current step of an unattended run.
    pub fn auto_report(&mut self, flow: &Flow, vars: &StrMap<String>, outcome: &Outcome) -> (t: Turn)
        requires
            flow_wf(flow@),
            walk_wf(flow@, old(self)@),
            old(self)@.asked is Step,
        ensures
            (final(self)@, t@) == auto_reported(flow@, text_map(*vars), old(self)@, outcome@),
            walk_wf(flow@, final(self)@),
            final(self)@.asked is Step,
    {
        proof {
            lemma_moved(flow@, text_map(*vars), self@);
        }
        match outcome {
            Outcome::Passed => self.go_on_unattended(flow, vars, NodeState::Passed),
            Outcome::Skipped(_) => self.go_on_unattended(flow, vars, NodeState::Skip),
            Outcome::Manual => self.go_on_unattended(flow, vars, NodeState::Manual),
            Outcome::Failed(_) => {
                Turn { at: self.cur, mark: Some(NodeState::Fail), next: Then::Stop(false) }
            },
        }
    }
}

/// The text that `str::to_lowercase` makes of a text.
pub uninterp spec fn lowercase(s: Seq<char>) -> Seq<char>;

/// Calls `str::to_lowercase`. An ASCII text has its capital letters made small,
/// and nothing else of it changes.
#[verifier::external_body]
fn to_lowercase(s: &str) -> (r: String)
    ensures
        r@ == lowercase(s@),
        ascii(s@) ==> r@ == s@.map_values(|c: char| ascii_lower(c)),
{
    s.to_lowercase()
}

/// What a line of input is as an answer: without surrounding white space and in
/// small letters. The end of the input is the answer `q`.
pub fn answer_of(line: Option<String>) -> (r: String)
    ensures
        match line {
            Some(s) => r@ == lowercase(trimmed(s@)),
            None => r@ == "q"@,
        },
        line matches Some(s) ==> (ascii(trimmed(s@)) ==> r@ == trimmed(s@).map_values(
            |c: char| ascii_lower(c),
        )),
{
    match line {
        Some(s) => to_lowercase(trim(s.as_str()).as_str()),
        None => "q".to_owned(),
    }
}

/// A report leads on. A failed step stays the current one, is marked so, and is
/// asked about. Any other is marked with what became of it and left along its
/// edges: to the step that follows, which is then asked about; to the end, where
/// the run went well exactly if no step failed; or to a choice. A condition that
/// is none ends the run with that error.
pub proof fn law_reports_lead_on(
    f: FlowView,
    vars: Map<Seq<char>, Seq<char>>,
    w: WalkView,
    outcome: OutcomeView,
)
    ensures
        ({
            let t = reported(f, vars, w, outcome);
            &&& t.1.at == w.cur
            &&& t.1.mark == Some(
                match outcome {
                    OutcomeView::Passed => NodeState::Passed,
                    OutcomeView::Skipped(_) => NodeState::Skip,
                    OutcomeView::Manual => NodeState::Manual,
                    OutcomeView::Failed(_) => NodeState::Fail,
                },
            )
            &&& outcome is Failed ==> {
                &&& t.1.next is AskRetry
                &&& t.0.cur == w.cur && t.0.ran == w.ran && !t.0.ok_all && t.0.asked is Retry
            }
            &&& !(outcome is Failed) ==> t.0.ok_all == w.ok_all && match next_step(
                edges_from(f.edges, w.cur),
                vars,
            ) {
                Ok(NextView::Advance(k)) => {
                    &&& t.1.next is AskStep
                    &&& t.0.cur == k && t.0.ran == w.ran + 1 && t.0.asked is Step
                },
                Ok(NextView::End) => t.1.next == ThenView::Stop(w.ok_all) && t.0 == w,
                Ok(NextView::Pick(o)) => {
                    &&& t.1.next is AskBranch
                    &&& t.0.cur == w.cur && t.0.ran == w.ran
                    &&& t.0.asked == AskedView::Branch(o)
                },
                Err(e) => t.1.next == ThenView::Error(e) && t.0 == w,
            }
        }),
{
}

/// Answers are obeyed. `q` ends the run, and so does the end of the patience with a
/// failed step. A skipped step is left as if it had reported so, and a manual step
/// as if it had been done. Asked about a step, `vars` shows the variables and
/// anything else runs it; asked about a failed step, `r` runs it again. At a branch
/// the number of an offer, counted from one, enters its step, and anything else is
/// asked again. Whatever only asks or runs leaves the run where it is.
pub proof fn law_answers_are_obeyed(
    f: FlowView,
    vars: Map<Seq<char>, Seq<char>>,
    w: WalkView,
    answer: Seq<char>,
    why: Seq<char>,
    k: nat,
)
    ensures
        ({
            let t = answered(f, vars, w, answer);
            let manual = f.steps[w.cur].cfg.manual || f.steps[w.cur].cfg.request is None;
            let stays = t.0 == w && t.1.at == w.cur && t.1.mark is None;
            &&& w.asked is Step || w.asked is Branch ==> (answer == "q"@ ==> stays && t.1.next
                == ThenView::Stop(false))
            &&& w.asked is Step && answer != "q"@ && manual ==> t == reported(
                f,
                vars,
                w,
                OutcomeView::Manual,
            )
            &&& w.asked is Step && !manual && answer == "s"@ ==> t == reported(
                f,
                vars,
                w,
                OutcomeView::Skipped(why),
            )
            &&& w.asked is Step && !manual && answer == "vars"@ ==> stays && t.1.next is ShowVars
            &&& w.asked is Step && !manual && answer != "q"@ && answer != "s"@ && answer
                != "vars"@ ==> stays && t.1.next is Run
            &&& w.asked is Retry && answer == "r"@ ==> stays && t.1.next is Run
            &&& w.asked is Retry && answer == "s"@ ==> t == reported(
                f,
                vars,
                w,
                OutcomeView::Skipped(why),
            )
            &&& w.asked is Retry && answer != "r"@ && answer != "s"@ ==> stays && t.1.next
                == ThenView::Stop(false)
            &&& w.asked matches AskedView::Branch(o) ==> {
                &&& answer == decimal(k) && 1 <= k <= o.len() && k <= usize::MAX ==> {
                    &&& t.0.cur == o[k - 1].0 && t.0.ran == w.ran + 1 && t.0.ok_all == w.ok_all
                    &&& t.0.asked is Step && t.1.next is AskStep && t.1.mark is None
                }
                &&& answer == decimal(k) && !(1 <= k <= o.len()) ==> stays && t.1.next is AskAgain
                &&& answer.len() == 0 ==> stays && t.1.next is AskAgain
                &&& answer != "q"@ && (exists|i: int|
                    0 <= i < answer.len() && !('0' as int <= (#[trigger] answer[i]) as int
                        <= '9' as int) && answer[i] != '+') ==> stays && t.1.next is AskAgain
            }
        }),
{
    reveal_strlit("q");
    reveal_strlit("s");
    reveal_strlit("r");
    reveal_strlit("vars");
    assert("q"@ != "s"@ && "q"@ != "vars"@) by {
        assert("q"@[0] == 'q' && "s"@[0] == 's' && "vars"@[0] == 'v');
    }
    assert("s"@ != "vars"@ && "s"@ != "r"@) by {
        assert("s"@[0] == 's' && "r"@[0] == 'r' && "vars"@[0] == 'v');
    }
    law_digits_give_the_number_back(k, usize::MAX as nat);
    law_numbers_are_digits(answer, usize::MAX as nat);
    if answer == decimal(k) {
        assert('0' as int <= decimal(k)[0] as int <= '9' as int);
        assert("q"@[0] == 'q');
    }
}

/// An unattended run does what an attended one does with a report, except that
/// nobody is asked: a failed step ends it badly, and so does a choice, which is
/// named and leaves the run where it is. A manual step is left as if it had been
/// done, and any other is run.
pub proof fn law_unattended_runs_ask_nobody(
    f: FlowView,
    vars: Map<Seq<char>, Seq<char>>,
    w: WalkView,
    outcome: OutcomeView,
)
    requires
        w.asked is Step,
    ensures
        ({
            let a = auto_reported(f, vars, w, outcome);
            let t = reported(f, vars, w, outcome);
            &&& outcome is Failed ==> a.0 == w && a.1.mark == Some(NodeState::Fail) && a.1.at
                == w.cur && a.1.next == ThenView::Stop(false)
            &&& !(outcome is Failed) ==> a.1.mark == t.1.mark && a.1.at == t.1.at
            &&& !(outcome is Failed) && !(t.1.next is AskBranch) ==> a == t
            &&& !(outcome is Failed) && t.1.next is AskBranch ==> a.0 == w && a.1.next
                == ThenView::Ambiguous(t.0.asked->Branch_0)
        }),
        ({
            let e = auto_entered(f, vars, w);
            let manual = f.steps[w.cur].cfg.manual || f.steps[w.cur].cfg.request is None;
            &&& manual ==> e == auto_reported(f, vars, w, OutcomeView::Manual)
            &&& !manual ==> e.0 == w && e.1.mark is None && e.1.next is Run
        }),
        walk_start(f).cur == f.start,
        walk_start(f).ran == 1,
        walk_start(f).ok_all,
        walk_start(f).asked is Step,
{
}

} // verus!
