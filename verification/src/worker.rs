//! The worker behind the window: it takes commands, runs steps, and tells the
//! window what happened. Channels, pauses and requests are the caller's.

use crate::branch::{choose_next, next_step, option_views, Next, NextView};
use crate::config::{opt_text, text_entries, text_map};
use crate::diagram::NodeState;
use crate::engine::{
    is_run, opt_json, pair_texts, run_step, takes_request, Ctx, CtxView, Outcome, OutcomeView, Reply,
    Request, StepReport, StepReportView,
};
use crate::flow::{edge_views, edges_from, flow_wf, Flow, FlowEdge, FlowEdgeView, FlowView};
use crate::json::JsonView;
use crate::strmap::{entries_map, lemma_listed, listed, text_lt, StrMap};
use crate::text::texts;
use crate::walk::lemma_targets_ahead;
use vstd::prelude::*;

verus! {

/// A command to the worker.
#[derive(Debug)]
pub enum Cmd {
    /// Run the current step and go on if it did not fail.
    Next,
    /// Leave the current step unrun.
    Skip,
    /// Run step after step.
    Auto,
    /// Go back to the start, with the variables of the start.
    Reset,
    /// Run this step. The run goes on only if it is the current one and did not
    /// fail.
    RunAt(usize),
    /// Take this branch, where a choice is pending.
    Choose(usize),
    /// Stop.
    Quit,
}

/// What a step came to.
#[derive(Debug)]
pub struct StepResult {
    pub idx: usize,
    pub state: NodeState,
    pub status: Option<u16>,
    pub ms: u128,
    pub msg: String,
    pub request_line: Option<String>,
    pub request_body: Option<serde_json::Value>,
    pub curl: Option<String>,
    pub auth_info: Option<String>,
    pub notes: Vec<String>,
    pub body: Option<serde_json::Value>,
    /// The variables after the step.
    pub vars: Vec<(String, String)>,
}

/// What the worker tells.
#[derive(Debug)]
pub enum Evt {
    Started(usize),
    Done(StepResult),
    /// The edges do not decide: one of these is to be chosen.
    NeedChoice(Vec<(usize, String)>),
    /// The path is complete.
    FlowDone,
    AutoDone,
    Reset,
}

/// Why a step is being run.
#[derive(Debug, Clone, Copy, PartialEq, Eq, Structural)]
pub enum Job {
    Next,
    RunAt,
    Auto,
}

/// What the worker does now.
#[derive(Debug, Clone, Copy, PartialEq, Eq, Structural)]
pub enum Todo {
    /// Wait for a command.
    Wait,
    /// Run a step, then hand in what it came to.
    Run(usize, Job),
    /// The same, after a short pause.
    Pause(usize, Job),
    Quit,
}

/// How far a run got by leaving a step.
#[derive(Debug, Clone, Copy, PartialEq, Eq, Structural)]
pub enum Moved {
    Advanced,
    Ended,
    NeedPick,
}

/// Where the worker stands.
#[derive(Debug, Clone, Copy, PartialEq, Eq, Structural)]
pub struct Walker {
    pub cur: usize,
    pub start: usize,
    /// The path is complete.
    pub finished: bool,
    /// A choice is pending.
    pub pending: bool,
}

/// What a `StepResult` holds.
pub struct StepResultView {
    pub idx: int,
    pub state: NodeState,
    pub status: Option<u16>,
    pub ms: nat,
    pub msg: Seq<char>,
    pub request_line: Option<Seq<char>>,
    pub request_body: Option<JsonView>,
    pub curl: Option<Seq<char>>,
    pub auth_info: Option<Seq<char>>,
    pub notes: Seq<Seq<char>>,
    pub body: Option<JsonView>,
    pub vars: Seq<(Seq<char>, Seq<char>)>,
}

impl View for StepResult {
    type V = StepResultView;

    open spec fn view(&self) -> StepResultView {
        StepResultView {
            idx: self.idx as int,
            state: self.state,
            status: self.status,
            ms: self.ms as nat,
            msg: self.msg@,
            request_line: opt_text(self.request_line),
            request_body: opt_json(self.request_body),
            curl: opt_text(self.curl),
            auth_info: opt_text(self.auth_info),
            notes: texts(self.notes@),
            body: opt_json(self.body),
            vars: pair_texts(self.vars@),
        }
    }
}

/// What an `Evt` holds.
pub enum EvtView {
    Started(int),
    Done(StepResultView),
    NeedChoice(Seq<(int, Seq<char>)>),
    FlowDone,
    AutoDone,
    Reset,
}

impl View for Evt {
    type V = EvtView;

    open spec fn view(&self) -> EvtView {
        match *self {
            Evt::Started(i) => EvtView::Started(i as int),
            Evt::Done(r) => EvtView::Done(r@),
            Evt::NeedChoice(o) => EvtView::NeedChoice(option_views(o@)),
            Evt::FlowDone => EvtView::FlowDone,
            Evt::AutoDone => EvtView::AutoDone,
            Evt::Reset => EvtView::Reset,
        }
    }
}

/// What a list of events holds.
pub open spec fn evt_views(v: Seq<Evt>) -> Seq<EvtView> {
    Seq::new(v.len(), |i: int| v[i]@)
}

/// The result of a step about which nothing is known but its status.
pub open spec fn bare_result(
    i: int,
    state: NodeState,
    msg: Seq<char>,
    vars: Seq<(Seq<char>, Seq<char>)>,
) -> StepResultView {
    StepResultView {
        idx: i,
        state,
        status: None,
        ms: 0,
        msg,
        request_line: None,
        request_body: None,
        curl: None,
        auth_info: None,
        notes: seq![],
        body: None,
        vars,
    }
}

/// The status that an outcome gives a step.
pub open spec fn state_of(o: OutcomeView) -> NodeState {
    match o {
        OutcomeView::Passed => NodeState::Passed,
        OutcomeView::Skipped(_) => NodeState::Skip,
        OutcomeView::Manual => NodeState::Manual,
        OutcomeView::Failed(_) => NodeState::Fail,
    }
}

/// What is said about an outcome.
pub open spec fn message_of(o: OutcomeView) -> Seq<char> {
    match o {
        OutcomeView::Skipped(r) => r,
        OutcomeView::Failed(m) => m,
        _ => seq![],
    }
}

/// The result that a report on a step is.
pub open spec fn result_of(
    i: int,
    rep: StepReportView,
    vars: Seq<(Seq<char>, Seq<char>)>,
) -> StepResultView {
    StepResultView {
        idx: i,
        state: state_of(rep.outcome),
        status: rep.http_status,
        ms: rep.ms,
        msg: message_of(rep.outcome),
        request_line: rep.request_line,
        request_body: rep.request_body,
        curl: rep.curl,
        auth_info: rep.auth_info,
        notes: rep.notes,
        body: rep.body,
        vars,
    }
}

/// The edges as a choice that shows the labels they have.
pub open spec fn offered_as_labelled(edges: Seq<FlowEdgeView>) -> Seq<(int, Seq<char>)> {
    Seq::new(
        edges.len(),
        |i: int|
            (
                edges[i].to,
                match edges[i].label {
                    Some(l) => l,
                    None => Seq::<char>::empty(),
                },
            ),
    )
}

/// Leaving the current step along its edges. A condition that is none makes it a
/// choice.
pub open spec fn resolved(f: FlowView, vars: Map<Seq<char>, Seq<char>>, w: Walker) -> (
    Walker,
    Moved,
    Seq<EvtView>,
) {
    let edges = edges_from(f.edges, w.cur as int);
    match next_step(edges, vars) {
        Ok(NextView::Advance(t)) => (
            Walker { cur: t as usize, ..w },
            Moved::Advanced,
            seq![],
        ),
        Ok(NextView::End) => (
            Walker { finished: true, ..w },
            Moved::Ended,
            seq![EvtView::FlowDone],
        ),
        Ok(NextView::Pick(o)) => (
            Walker { pending: true, ..w },
            Moved::NeedPick,
            seq![EvtView::NeedChoice(o)],
        ),
        Err(_) => (
            Walker { pending: true, ..w },
            Moved::NeedPick,
            seq![EvtView::NeedChoice(offered_as_labelled(edges))],
        ),
    }
}

/// Steps can be taken: the path is not complete and no choice is pending.
pub open spec fn is_free(w: Walker) -> bool {
    !w.finished && !w.pending
}

/// The worker at the entry of a flow.
pub open spec fn at_start(start: usize) -> Walker {
    Walker { cur: start, start, finished: false, pending: false }
}

/// What a command means: the walker after it, what is told, and what is to do.
pub open spec fn commanded(
    f: FlowView,
    vars: Map<Seq<char>, Seq<char>>,
    w: Walker,
    cmd: Cmd,
) -> (Walker, Seq<EvtView>, Todo) {
    match cmd {
        Cmd::Quit => (w, seq![], Todo::Quit),
        Cmd::Reset => (at_start(w.start), seq![EvtView::Reset], Todo::Wait),
        Cmd::Choose(t) => if w.pending {
            (Walker { pending: false, cur: t, ..w }, seq![], Todo::Wait)
        } else {
            (w, seq![], Todo::Wait)
        },
        Cmd::Skip => if is_free(w) {
            let r = resolved(f, vars, w);
            let skipped = bare_result(
                w.cur as int,
                NodeState::Skip,
                "skipped (manual)"@,
                listed(vars),
            );
            (r.0, seq![EvtView::Done(skipped)] + r.2, Todo::Wait)
        } else {
            (w, seq![], Todo::Wait)
        },
        Cmd::Next => (
            w,
            seq![],
            if is_free(w) {
                Todo::Run(w.cur, Job::Next)
            } else {
                Todo::Wait
            },
        ),
        Cmd::RunAt(i) => (
            w,
            seq![],
            if i < f.steps.len() {
                Todo::Run(i, Job::RunAt)
            } else {
                Todo::Wait
            },
        ),
        Cmd::Auto => if is_free(w) {
            (w, seq![], Todo::Run(w.cur, Job::Auto))
        } else {
            (w, seq![EvtView::AutoDone], Todo::Wait)
        },
    }
}

/// What it means that a step was run and did or did not fail.
pub open spec fn after_run(
    f: FlowView,
    vars: Map<Seq<char>, Seq<char>>,
    w: Walker,
    job: Job,
    i: usize,
    ok: bool,
) -> (Walker, Seq<EvtView>, Todo) {
    let r = resolved(f, vars, w);
    match job {
        Job::Next => if ok {
            (r.0, r.2, Todo::Wait)
        } else {
            (w, seq![], Todo::Wait)
        },
        Job::RunAt => if ok && i == w.cur && is_free(w) {
            (r.0, r.2, Todo::Wait)
        } else {
            (w, seq![], Todo::Wait)
        },
        Job::Auto => if !ok {
            (w, seq![EvtView::AutoDone], Todo::Wait)
        } else if r.1 == Moved::Advanced {
            (r.0, r.2, Todo::Pause(r.0.cur, Job::Auto))
        } else {
            (r.0, r.2.push(EvtView::AutoDone), Todo::Wait)
        },
    }
}

/// A walker that fits a flow.
pub open spec fn walker_wf(f: FlowView, w: Walker) -> bool {
    w.cur < f.steps.len() && w.start < f.steps.len()
}

pub proof fn lemma_resolved(f: FlowView, vars: Map<Seq<char>, Seq<char>>, w: Walker)
    requires
        flow_wf(f),
        walker_wf(f, w),
        f.steps.len() <= usize::MAX,
    ensures
        walker_wf(f, resolved(f, vars, w).0),
        resolved(f, vars, w).1 == Moved::Advanced ==> w.cur < resolved(f, vars, w).0.cur,
        resolved(f, vars, w).1 != Moved::Advanced ==> w.cur == resolved(f, vars, w).0.cur,
        next_step(edges_from(f.edges, w.cur as int), vars) matches Ok(NextView::Advance(t)) ==> t
            == t as usize,
{
    lemma_targets_ahead(f, vars, w.cur as int);
}

impl Walker {
    /// The walker at the entry of a flow.
    pub fn new(start: usize) -> (w: Self)
        ensures
            w == at_start(start),
    {
        Walker { cur: start, start, finished: false, pending: false }
    }

    /// Leaves the current step along its edges.
    pub fn resolve_next(&mut self, flow: &Flow, vars: &StrMap<String>) -> (r: (Moved, Vec<Evt>))
        requires
            flow_wf(flow@),
            walker_wf(flow@, *old(self)),
        ensures
            (*final(self), r.0, evt_views(r.1@)) == resolved(
                flow@,
                text_map(*vars),
                *old(self),
            ),
            walker_wf(flow@, *final(self)),
    {
        let edges = flow.outgoing(self.cur);
        proof {
            assert(flow@.steps.len() == flow.steps.len());
            lemma_resolved(flow@, text_map(*vars), *self);
        }
        let mut told: Vec<Evt> = Vec::new();
        assert(evt_views(told@) =~= seq![]);
        let moved = match choose_next(edges.as_slice(), vars) {
            Ok(Next::Advance(t)) => {
                self.cur = t;
                Moved::Advanced
            },
            Ok(Next::End) => {
                self.finished = true;
                told.push(Evt::FlowDone);
                Moved::Ended
            },
            Ok(Next::Pick(o)) => {
                self.pending = true;
                told.push(Evt::NeedChoice(o));
                Moved::NeedPick
            },
            Err(_) => {
                self.pending = true;
                told.push(Evt::NeedChoice(labelled_offers(&edges)));
                Moved::NeedPick
            },
        };
        assert(evt_views(told@) =~= resolved(flow@, text_map(*vars), *old(self)).2);
        (moved, told)
    }

    /// Whether steps can be taken.
    pub fn free(&self) -> (r: bool)
        ensures
            r == is_free(*self),
    {
        !self.finished && !self.pending
    }

    /// Takes a command. `initial` holds the variables of the start.
    pub fn command(
        &mut self,
        flow: &Flow,
        ctx: &mut Ctx,
        initial: &StrMap<String>,
        cmd: Cmd,
    ) -> (r: (Vec<Evt>, Todo))
        requires
            flow_wf(flow@),
            walker_wf(flow@, *old(self)),
            cmd matches Cmd::Choose(t) ==> t < flow@.steps.len(),
        ensures
            (*final(self), evt_views(r.0@), r.1) == commanded(
                flow@,
                old(ctx)@.vars,
                *old(self),
                cmd,
            ),
            final(ctx)@ == if cmd is Reset {
                CtxView { vars: text_map(*initial), ..old(ctx)@ }
            } else {
                old(ctx)@
            },
            walker_wf(flow@, *final(self)),
    {
        let mut told: Vec<Evt> = Vec::new();
        assert(evt_views(told@) =~= seq![]);
        match cmd {
            Cmd::Quit => (told, Todo::Quit),
            Cmd::Reset => {
                ctx.vars = initial.clone();
                proof {
                    lemma_same_texts(ctx.vars, *initial);
                }
                self.cur = self.start;
                self.finished = false;
                self.pending = false;
                told.push(Evt::Reset);
                assert(evt_views(told@) =~= seq![EvtView::Reset]);
                (told, Todo::Wait)
            },
            Cmd::Choose(target) => {
                if self.pending {
                    self.pending = false;
                    self.cur = target;
                }
                (told, Todo::Wait)
            },
            Cmd::Skip => {
                if self.free() {
                    told.push(Evt::Done(skip_result(self.cur, &ctx.vars)));
                    let (_, mut more) = self.resolve_next(flow, &ctx.vars);
                    let ghost first = evt_views(told@);
                    let ghost rest = evt_views(more@);
                    told.append(&mut more);
                    assert(evt_views(told@) =~= first + rest);
                }
                (told, Todo::Wait)
            },
            Cmd::Next => {
                if self.free() {
                    (told, Todo::Run(self.cur, Job::Next))
                } else {
                    (told, Todo::Wait)
                }
            },
            Cmd::RunAt(i) => {
                if i < flow.steps.len() {
                    (told, Todo::Run(i, Job::RunAt))
                } else {
                    (told, Todo::Wait)
                }
            },
            Cmd::Auto => {
                if self.free() {
                    (told, Todo::Run(self.cur, Job::Auto))
                } else {
                    told.push(Evt::AutoDone);
                    assert(evt_views(told@) =~= seq![EvtView::AutoDone]);
                    (told, Todo::Wait)
                }
            },
        }
    }

    /// Takes what running a step came to.
    pub fn finish(
        &mut self,
        flow: &Flow,
        vars: &StrMap<String>,
        job: Job,
        i: usize,
        ok: bool,
    ) -> (r: (Vec<Evt>, Todo))
        requires
            flow_wf(flow@),
            walker_wf(flow@, *old(self)),
        ensures
            (*final(self), evt_views(r.0@), r.1) == after_run(
                flow@,
                text_map(*vars),
                *old(self),
                job,
                i,
                ok,
            ),
            walker_wf(flow@, *final(self)),
    {
        let goes_on = match job {
            Job::Next => ok,
            Job::RunAt => ok && i == self.cur && self.free(),
            Job::Auto => ok,
        };
        if !goes_on {
            let mut told: Vec<Evt> = Vec::new();
            assert(evt_views(told@) =~= seq![]);
            if job == Job::Auto {
                told.push(Evt::AutoDone);
                assert(evt_views(told@) =~= seq![EvtView::AutoDone]);
            }
            return (told, Todo::Wait);
        }
        let (moved, mut told) = self.resolve_next(flow, vars);
        if job != Job::Auto {
            return (told, Todo::Wait);
        }
        if moved == Moved::Advanced {
            (told, Todo::Pause(self.cur, Job::Auto))
        } else {
            let ghost before = evt_views(told@);
            told.push(Evt::AutoDone);
            assert(evt_views(told@) =~= before.push(EvtView::AutoDone));
            (told, Todo::Wait)
        }
    }
}

fn labelled_offers(edges: &Vec<&FlowEdge>) -> (r: Vec<(usize, String)>)
    ensures
        option_views(r@) == offered_as_labelled(edge_views(edges@)),
{
    let ghost all = edge_views(edges@);
    let mut r: Vec<(usize, String)> = Vec::new();
    let mut i: usize = 0;
    while i < edges.len()
        invariant
            all == edge_views(edges@),
            i <= edges.len(),
            r@.len() == i,
            forall|k: int|
                0 <= k < i ==> #[trigger] option_views(r@)[k] == offered_as_labelled(all)[k],
        decreases edges.len() - i,
    {
        let e = edges[i];
        let label = match &e.label {
            Some(l) => l.clone(),
            None => String::new(),
        };
        let ghost before = option_views(r@);
        r.push((e.to, label));
        proof {
            assert(option_views(r@) =~= before.push((e.to as int, label@)));
            assert(all[i as int] == e@);
            assert(label@ =~= match e@.label {
                Some(l) => l,
                None => Seq::<char>::empty(),
            });
        }
        i += 1;
    }
    assert(option_views(r@) =~= offered_as_labelled(all));
    r
}

proof fn lemma_same_texts(a: StrMap<String>, b: StrMap<String>)
    requires
        a.entries().len() == b.entries().len(),
        forall|i: int| 0 <= i < b.entries().len() ==> #[trigger] a.entries()[i].0
            == b.entries()[i].0,
        forall|i: int|
            0 <= i < b.entries().len() ==> cloned::<String>(
                b.entries()[i].1,
                #[trigger] a.entries()[i].1,
            ),
    ensures
        text_map(a) == text_map(b),
{
    assert forall|i: int| 0 <= i < b.entries().len() implies a.entries()[i] == b.entries()[i] by {
        assert(a.entries()[i].0 == b.entries()[i].0);
        assert(cloned::<String>(b.entries()[i].1, a.entries()[i].1));
    }
    assert(a.entries() =~= b.entries());
}

proof fn lemma_entries_as_texts(e: Seq<(Seq<char>, String)>, t: Seq<(Seq<char>, Seq<char>)>)
    requires
        t.len() == e.len(),
        forall|i: int| 0 <= i < e.len() ==> #[trigger] t[i] == (e[i].0, e[i].1@),
    ensures
        entries_map(t) == entries_map(e).map_values(|s: String| s@),
    decreases e.len(),
{
    if e.len() > 0 {
        lemma_entries_as_texts(e.drop_last(), t.drop_last());
        assert(t.last() == (e.last().0, e.last().1@));
    }
    assert(entries_map(t) =~= entries_map(e).map_values(|s: String| s@));
}

proof fn lemma_text_entries(m: StrMap<String>)
    requires
        m.wf(),
    ensures
        text_entries(m) == listed(text_map(m)),
{
    let t = text_entries(m);
    lemma_entries_as_texts(m.entries(), t);
    assert forall|i: int, j: int| 0 <= i < j < t.len() implies text_lt(
        #[trigger] t[i].0,
        #[trigger] t[j].0,
    ) by {
        assert(text_lt(m.entries()[i].0, m.entries()[j].0));
    }
    lemma_listed(t);
}

/// The variables as pairs, in the order of their names.
pub fn snapshot_vars(vars: &StrMap<String>) -> (r: Vec<(String, String)>)
    ensures
        pair_texts(r@) == listed(text_map(*vars)),
{
    proof {
        use_type_invariant(vars);
        lemma_text_entries(*vars);
    }
    let ghost all = text_entries(*vars);
    let mut r: Vec<(String, String)> = Vec::new();
    let mut i: usize = 0;
    while i < vars.len()
        invariant
            all == text_entries(*vars),
            i <= all.len(),
            r@.len() == i,
            forall|k: int| 0 <= k < i ==> #[trigger] pair_texts(r@)[k] == all[k],
        decreases all.len() - i,
    {
        let (k, v) = vars.entry(i);
        let ghost before = pair_texts(r@);
        r.push((k.clone(), v.clone()));
        assert(pair_texts(r@) =~= before.push((k@, v@)));
        assert(all[i as int] == (k@, v@));
        i += 1;
    }
    assert(pair_texts(r@) =~= all);
    r
}

fn bare(i: usize, state: NodeState, msg: &str, vars: &StrMap<String>) -> (r: StepResult)
    ensures
        r@ == bare_result(i as int, state, msg@, listed(text_map(*vars))),
{
    let r = StepResult {
        idx: i,
        state,
        status: None,
        ms: 0,
        msg: msg.to_owned(),
        request_line: None,
        request_body: None,
        curl: None,
        auth_info: None,
        notes: Vec::new(),
        body: None,
        vars: snapshot_vars(vars),
    };
    assert(r@.notes =~= seq![]);
    r
}

/// The result of a step that was left unrun.
pub fn skip_result(i: usize, vars: &StrMap<String>) -> (r: StepResult)
    ensures
        r@ == bare_result(i as int, NodeState::Skip, "skipped (manual)"@, listed(text_map(*vars))),
{
    bare(i, NodeState::Skip, "skipped (manual)", vars)
}

fn report_result(i: usize, rep: StepReport, vars: &StrMap<String>) -> (r: (StepResult, bool))
    ensures
        r.0@ == result_of(i as int, rep@, listed(text_map(*vars))),
        r.1 == !(rep@.outcome is Failed),
{
    let (state, msg, ok) = match rep.outcome {
        Outcome::Passed => (NodeState::Passed, String::new(), true),
        Outcome::Skipped(r) => (NodeState::Skip, r, true),
        Outcome::Manual => (NodeState::Manual, String::new(), true),
        Outcome::Failed(m) => (NodeState::Fail, m, false),
    };
    assert(msg@ =~= message_of(rep@.outcome));
    (
        StepResult {
            idx: i,
            state,
            status: rep.http_status,
            ms: rep.ms,
            msg,
            request_line: rep.request_line,
            request_body: rep.request_body,
            curl: rep.curl,
            auth_info: rep.auth_info,
            notes: rep.notes,
            body: rep.body,
            vars: snapshot_vars(vars),
        },
        ok,
    )
}

/// What it means to run a step of a flow: a manual step goes on with no more than
/// a remark, and any other comes to its report.
pub open spec fn is_exec<F: FnOnce(Request) -> Result<Reply, String>>(
    f: FlowView,
    before: CtxView,
    i: int,
    send: F,
    result: StepResultView,
    ok: bool,
    after: CtxView,
) -> bool {
    let cfg = f.steps[i].cfg;
    if cfg.is_manual() {
        &&& result == bare_result(
            i,
            NodeState::Manual,
            "manual/external step"@,
            listed(before.vars),
        )
        &&& ok
        &&& after == before
    } else {
        exists|rep: StepReportView|
            {
                &&& #[trigger] is_run(cfg, before, send, rep, after)
                &&& result == result_of(i, rep, listed(after.vars))
                &&& ok == !(rep.outcome is Failed)
            }
    }
}

/// Runs a step: what it came to, and whether the run may go on. `send` is called
/// only where the step has a request to send, once and with that request.
pub fn exec<F: FnOnce(Request) -> Result<Reply, String>>(
    flow: &Flow,
    ctx: &mut Ctx,
    i: usize,
    send: F,
) -> (r: (StepResult, bool))
    requires
        i < flow@.steps.len(),
        takes_request(flow@.steps[i as int].cfg, old(ctx)@, send),
    ensures
        is_exec(flow@, old(ctx)@, i as int, send, r.0@, r.1, final(ctx)@),
{
    let step = &flow.steps[i];
    assert(step@ == flow@.steps[i as int]);
    if step.cfg.is_manual() {
        return (bare(i, NodeState::Manual, "manual/external step", &ctx.vars), true);
    }
    let rep = run_step(step, ctx, send);
    report_result(i, rep, &ctx.vars)
}

/// The worker goes forward only, except to start again: no run of a step takes
/// it back, and every step of an automatic run lies ahead of the one before.
pub proof fn law_workers_go_forward(
    f: FlowView,
    vars: Map<Seq<char>, Seq<char>>,
    w: Walker,
    job: Job,
    i: usize,
    ok: bool,
)
    requires
        flow_wf(f),
        walker_wf(f, w),
        f.steps.len() <= usize::MAX,
    ensures
        w.cur <= after_run(f, vars, w, job, i, ok).0.cur,
        after_run(f, vars, w, job, i, ok).2 matches Todo::Pause(t, _) ==> w.cur < t
            < f.steps.len(),
{
    lemma_resolved(f, vars, w);
}

/// Running a step that is not the current one, or that fails, leaves the worker
/// where it is.
pub proof fn law_reruns_do_not_move(
    f: FlowView,
    vars: Map<Seq<char>, Seq<char>>,
    w: Walker,
    i: usize,
    ok: bool,
)
    requires
        i != w.cur || !ok || !is_free(w),
    ensures
        after_run(f, vars, w, Job::RunAt, i, ok).0 == w,
        after_run(f, vars, w, Job::RunAt, i, ok).1.len() == 0,
{
}

/// A failed step keeps the worker where it is, whatever it was run for.
pub proof fn law_failures_stop_the_worker(
    f: FlowView,
    vars: Map<Seq<char>, Seq<char>>,
    w: Walker,
    job: Job,
    i: usize,
)
    ensures
        after_run(f, vars, w, job, i, false).0 == w,
        after_run(f, vars, w, job, i, false).2 == Todo::Wait,
{
}

/// While a choice is pending, or when the path is complete, nothing is run but
/// what is asked for by its number.
pub proof fn law_nothing_runs_unless_free(
    f: FlowView,
    vars: Map<Seq<char>, Seq<char>>,
    w: Walker,
    cmd: Cmd,
)
    requires
        !is_free(w),
        cmd is Next || cmd is Skip || cmd is Auto,
    ensures
        commanded(f, vars, w, cmd).0 == w,
        commanded(f, vars, w, cmd).2 == Todo::Wait,
{
}

/// Leaving a step goes where its edges lead: on to the step that follows, to the
/// end, which is told, or to a choice, which is told with its offers. A condition
/// that is none makes it a choice between all edges, with the labels they have.
pub proof fn law_steps_are_left_along_their_edges(
    f: FlowView,
    vars: Map<Seq<char>, Seq<char>>,
    w: Walker,
)
    requires
        flow_wf(f),
        walker_wf(f, w),
        f.steps.len() <= usize::MAX,
    ensures
        ({
            let r = resolved(f, vars, w);
            let edges = edges_from(f.edges, w.cur as int);
            &&& r.0.start == w.start
            &&& match next_step(edges, vars) {
                Ok(NextView::Advance(t)) => r.1 == Moved::Advanced && r.0.cur == t && r.0.finished
                    == w.finished && r.0.pending == w.pending && r.2.len() == 0,
                Ok(NextView::End) => r.1 == Moved::Ended && r.0.cur == w.cur && r.0.finished
                    && r.0.pending == w.pending && r.2 == seq![EvtView::FlowDone],
                Ok(NextView::Pick(o)) => r.1 == Moved::NeedPick && r.0.cur == w.cur
                    && r.0.pending && r.0.finished == w.finished && r.2 == seq![
                    EvtView::NeedChoice(o),
                ],
                Err(_) => r.1 == Moved::NeedPick && r.0.cur == w.cur && r.0.pending
                    && r.0.finished == w.finished && r.2.len() == 1 && r.2[0] is NeedChoice && {
                    let o = r.2[0]->NeedChoice_0;
                    &&& o.len() == edges.len()
                    &&& forall|i: int|
                        0 <= i < o.len() ==> (#[trigger] o[i]).0 == edges[i].to && o[i].1
                            == match edges[i].label {
                            Some(l) => l,
                            None => Seq::<char>::empty(),
                        }
                },
            }
        }),
{
    lemma_resolved(f, vars, w);
}

/// Commands do what they are for. Next and Auto run the current step, Skip tells
/// that it was skipped and leaves it, RunAt runs the step that it names, each where
/// that can be done; Choose takes its step where a choice is pending; Reset goes
/// back to the start; Quit stops. What cannot be done changes nothing.
pub proof fn law_commands_do_what_they_are_for(
    f: FlowView,
    vars: Map<Seq<char>, Seq<char>>,
    w: Walker,
    i: usize,
)
    ensures
        ({
            let free = !w.finished && !w.pending;
            let left = resolved(f, vars, w);
            let skip = commanded(f, vars, w, Cmd::Skip);
            &&& commanded(f, vars, w, Cmd::Next) == (
                w,
                Seq::<EvtView>::empty(),
                if free {
                    Todo::Run(w.cur, Job::Next)
                } else {
                    Todo::Wait
                },
            )
            &&& free ==> commanded(f, vars, w, Cmd::Auto) == (
                w,
                Seq::<EvtView>::empty(),
                Todo::Run(w.cur, Job::Auto),
            )
            &&& !free ==> commanded(f, vars, w, Cmd::Auto) == (
                w,
                seq![EvtView::AutoDone],
                Todo::Wait,
            )
            &&& free ==> skip.0 == left.0 && skip.2 == Todo::Wait && skip.1.len() == 1
                + left.2.len() && skip.1.skip(1) == left.2 && skip.1[0] is Done && {
                let r = skip.1[0]->Done_0;
                &&& r.idx == w.cur && r.state == NodeState::Skip && r.msg == "skipped (manual)"@
                &&& r.vars == listed(vars) && r.status is None && r.body is None && r.ms == 0
                &&& r.notes.len() == 0 && r.request_line is None && r.request_body is None
                &&& r.curl is None && r.auth_info is None
            }
            &&& !free ==> skip == (w, Seq::<EvtView>::empty(), Todo::Wait)
            &&& commanded(f, vars, w, Cmd::RunAt(i)) == (
                w,
                Seq::<EvtView>::empty(),
                if i < f.steps.len() {
                    Todo::Run(i, Job::RunAt)
                } else {
                    Todo::Wait
                },
            )
            &&& commanded(f, vars, w, Cmd::Choose(i)) == (
                if w.pending {
                    Walker { cur: i, start: w.start, finished: w.finished, pending: false }
                } else {
                    w
                },
                Seq::<EvtView>::empty(),
                Todo::Wait,
            )
            &&& commanded(f, vars, w, Cmd::Reset) == (
                Walker { cur: w.start, start: w.start, finished: false, pending: false },
                seq![EvtView::Reset],
                Todo::Wait,
            )
            &&& commanded(f, vars, w, Cmd::Quit) == (
                w,
                Seq::<EvtView>::empty(),
                Todo::Quit,
            )
        }),
{
    let left = resolved(f, vars, w);
    let skip = commanded(f, vars, w, Cmd::Skip);
    if !w.finished && !w.pending {
        assert(skip.1.skip(1) =~= left.2);
    }
}

/// What follows a run of a step. A failed step is never left, and ends an automatic
/// run. A step that did not fail is left after Next, and after RunAt where it is the
/// current one and can be taken. An automatic run leaves it and, where that leads
/// to another step, pauses and runs that one; else it ends, which is told last.
pub proof fn law_what_follows_a_run(
    f: FlowView,
    vars: Map<Seq<char>, Seq<char>>,
    w: Walker,
    job: Job,
    i: usize,
    ok: bool,
)
    ensures
        ({
            let left = resolved(f, vars, w);
            let a = after_run(f, vars, w, job, i, ok);
            let leaves = ok && (job == Job::RunAt ==> i == w.cur && !w.finished && !w.pending);
            &&& a.0 == if leaves {
                left.0
            } else {
                w
            }
            &&& job != Job::Auto ==> a.2 == Todo::Wait && a.1 == if leaves {
                left.2
            } else {
                seq![]
            }
            &&& job == Job::Auto && !ok ==> a.2 == Todo::Wait && a.1 == seq![EvtView::AutoDone]
            &&& job == Job::Auto && ok && left.1 == Moved::Advanced ==> a.2 == Todo::Pause(
                left.0.cur,
                Job::Auto,
            ) && a.1 == left.2
            &&& job == Job::Auto && ok && left.1 != Moved::Advanced ==> a.2 == Todo::Wait && a.1
                == left.2 + seq![EvtView::AutoDone]
        }),
{
    let left = resolved(f, vars, w);
    assert(left.2.push(EvtView::AutoDone) =~= left.2 + seq![EvtView::AutoDone]);
}

/// The result of a step is what was reported of it, with the variables after it:
/// its state tells the outcome, and its message says why it was skipped or failed.
pub proof fn law_results_are_the_reports(
    i: int,
    rep: StepReportView,
    vars: Seq<(Seq<char>, Seq<char>)>,
)
    ensures
        ({
            let r = result_of(i, rep, vars);
            &&& r.idx == i && r.vars == vars
            &&& r.status == rep.http_status && r.ms == rep.ms && r.body == rep.body
            &&& r.notes == rep.notes && r.request_line == rep.request_line && r.curl == rep.curl
            &&& r.request_body == rep.request_body && r.auth_info == rep.auth_info
            &&& match rep.outcome {
                OutcomeView::Passed => r.state == NodeState::Passed && r.msg.len() == 0,
                OutcomeView::Manual => r.state == NodeState::Manual && r.msg.len() == 0,
                OutcomeView::Skipped(why) => r.state == NodeState::Skip && r.msg == why,
                OutcomeView::Failed(why) => r.state == NodeState::Fail && r.msg == why,
            }
        }),
{
}

} // verus!
