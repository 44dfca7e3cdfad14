//! Whole runs of the worker: what it tells over a list of commands, for a server
//! that answers its requests.

use crate::config::StepConfigView;
use crate::diagram::NodeState;
use crate::engine::{
    concluded, prepared, takes_request, CtxView, PreparedView, Reply, Request, RequestView,
    StepReportView,
};
use crate::flow::{flow_wf, FlowView};
use crate::strmap::listed;
use crate::worker::{
    after_run, at_start, bare_result, commanded, is_exec, lemma_resolved, result_of, walker_wf, Cmd,
    EvtView, StepResultView, Todo, Walker,
};
use vstd::prelude::*;

verus! {

/// The state of the worker: where it stands, what the steps work on, and how many
/// requests it has sent.
pub struct WorkerView {
    pub walker: Walker,
    pub ctx: CtxView,
    pub sent: nat,
}

/// A worker that has just been started.
pub open spec fn new_worker(start: usize, ctx: CtxView) -> WorkerView {
    WorkerView { walker: at_start(start), ctx, sent: 0 }
}

/// A worker that fits a flow.
pub open spec fn worker_wf(f: FlowView, s: WorkerView) -> bool {
    flow_wf(f) && walker_wf(f, s.walker) && f.steps.len() <= usize::MAX
}

/// The commands that fit a flow: a choice names one of its steps.
pub open spec fn fitting(f: FlowView, cmds: Seq<Cmd>) -> bool {
    forall|i: int|
        0 <= i < cmds.len() ==> (#[trigger] cmds[i] matches Cmd::Choose(t) ==> t < f.steps.len())
}

/// What running a step comes to when its request, where it has one, is answered
/// so.
pub open spec fn ran(
    cfg: StepConfigView,
    ctx: CtxView,
    answer: spec_fn(RequestView) -> Result<Reply, String>,
) -> (StepReportView, CtxView) {
    match prepared(cfg, ctx) {
        PreparedView::Done(rep) => (rep, ctx),
        PreparedView::Send(q) => {
            let c = concluded(cfg, ctx.vars, answer(q));
            (c.0, CtxView { vars: c.1, ..ctx })
        },
    }
}

/// The worker runs a step: what it came to, whether the run may go on, and the
/// state after it. `server` answers by the number of the request and by what is
/// asked.
pub open spec fn executed(
    f: FlowView,
    server: spec_fn(nat, RequestView) -> Result<Reply, String>,
    s: WorkerView,
    i: usize,
) -> (StepResultView, bool, WorkerView) {
    let cfg = f.steps[i as int].cfg;
    if cfg.is_manual() {
        (
            bare_result(
                i as int,
                NodeState::Manual,
                "manual/external step"@,
                listed(s.ctx.vars),
            ),
            true,
            s,
        )
    } else {
        let r = ran(cfg, s.ctx, |q: RequestView| server(s.sent, q));
        let sent = if prepared(cfg, s.ctx) is Send {
            s.sent + 1
        } else {
            s.sent
        };
        (
            result_of(i as int, r.0, listed(r.1.vars)),
            !(r.0.outcome is Failed),
            WorkerView { walker: s.walker, ctx: r.1, sent },
        )
    }
}

/// The worker does what is to do until it waits: the state after it, and what it
/// tells.
pub open spec fn carried_out(
    f: FlowView,
    server: spec_fn(nat, RequestView) -> Result<Reply, String>,
    s: WorkerView,
    todo: Todo,
) -> (WorkerView, Seq<EvtView>)
    decreases
            f.steps.len() - s.walker.cur,
            (if todo is Wait {
                0int
            } else {
                1int
            }),
    when worker_wf(f, s)
{
    match todo {
        Todo::Wait => (s, seq![]),
        Todo::Quit => (s, seq![]),
        Todo::Run(i, job) | Todo::Pause(i, job) => {
            let x = executed(f, server, s, i);
            let a = after_run(f, x.2.ctx.vars, s.walker, job, i, x.1);
            proof {
                lemma_resolved(f, x.2.ctx.vars, s.walker);
            }
            let more = carried_out(f, server, WorkerView { walker: a.0, ..x.2 }, a.2);
            (more.0, seq![EvtView::Started(i as int), EvtView::Done(x.0)] + a.1 + more.1)
        },
    }
}

/// The worker obeys a command: the state after it, and what it tells.
pub open spec fn obeyed(
    f: FlowView,
    initial: Map<Seq<char>, Seq<char>>,
    server: spec_fn(nat, RequestView) -> Result<Reply, String>,
    s: WorkerView,
    cmd: Cmd,
) -> (WorkerView, Seq<EvtView>) {
    let c = commanded(f, s.ctx.vars, s.walker, cmd);
    let ctx = if cmd is Reset {
        CtxView { vars: initial, ..s.ctx }
    } else {
        s.ctx
    };
    let more = carried_out(f, server, WorkerView { walker: c.0, ctx, sent: s.sent }, c.2);
    (more.0, c.1 + more.1)
}

/// The worker obeys one command after the other, up to the one to quit.
pub open spec fn obeyed_all(
    f: FlowView,
    initial: Map<Seq<char>, Seq<char>>,
    server: spec_fn(nat, RequestView) -> Result<Reply, String>,
    s: WorkerView,
    cmds: Seq<Cmd>,
) -> (WorkerView, Seq<EvtView>)
    decreases cmds.len(),
{
    if cmds.len() == 0 || cmds.first() is Quit {
        (s, seq![])
    } else {
        let first = obeyed(f, initial, server, s, cmds.first());
        let rest = obeyed_all(f, initial, server, first.0, cmds.drop_first());
        (rest.0, first.1 + rest.1)
    }
}

/// Whether two replies are the same but for the time they took.
pub open spec fn same_but_time(a: Result<Reply, String>, b: Result<Reply, String>) -> bool {
    match (a, b) {
        (Ok(x), Ok(y)) => x.status == y.status && x.text@ == y.text@,
        (Err(x), Err(y)) => x@ == y@,
        _ => false,
    }
}

/// Whether two servers answer requests of equal content alike, whenever they
/// come and however long it takes.
pub open spec fn alike(
    a: spec_fn(nat, RequestView) -> Result<Reply, String>,
    b: spec_fn(nat, RequestView) -> Result<Reply, String>,
) -> bool {
    forall|n: nat, m: nat, q: RequestView|
        same_but_time(#[trigger] a(n, q), #[trigger] b(m, q))
}

/// An event without the time that its step took.
pub open spec fn untimed(e: EvtView) -> EvtView {
    match e {
        EvtView::Done(r) => EvtView::Done(StepResultView { ms: 0, ..r }),
        other => other,
    }
}

/// Events without the times that their steps took.
pub open spec fn untimed_all(v: Seq<EvtView>) -> Seq<EvtView> {
    Seq::new(v.len(), |i: int| untimed(v[i]))
}

proof fn lemma_untimed(a: Seq<EvtView>, b: Seq<EvtView>)
    ensures
        untimed_all(a + b) == untimed_all(a) + untimed_all(b),
{
    assert(untimed_all(a + b) =~= untimed_all(a) + untimed_all(b));
}

/// What stays of a worker whatever it does: where it starts, the host and the
/// tokens.
pub open spec fn same_base(a: WorkerView, b: WorkerView) -> bool {
    a.walker.start == b.walker.start && a.ctx.base_url == b.ctx.base_url && a.ctx.tokens
        == b.ctx.tokens
}

proof fn lemma_carried_out_keeps(
    f: FlowView,
    server: spec_fn(nat, RequestView) -> Result<Reply, String>,
    s: WorkerView,
    todo: Todo,
)
    requires
        worker_wf(f, s),
    ensures
        worker_wf(f, carried_out(f, server, s, todo).0),
        same_base(s, carried_out(f, server, s, todo).0),
    decreases
            f.steps.len() - s.walker.cur,
            (if todo is Wait {
                0int
            } else {
                1int
            }),
{
    match todo {
        Todo::Run(i, job) | Todo::Pause(i, job) => {
            let x = executed(f, server, s, i);
            let a = after_run(f, x.2.ctx.vars, s.walker, job, i, x.1);
            lemma_resolved(f, x.2.ctx.vars, s.walker);
            lemma_carried_out_keeps(f, server, WorkerView { walker: a.0, ..x.2 }, a.2);
        },
        _ => {},
    }
}

proof fn lemma_obeyed_keeps(
    f: FlowView,
    initial: Map<Seq<char>, Seq<char>>,
    server: spec_fn(nat, RequestView) -> Result<Reply, String>,
    s: WorkerView,
    cmd: Cmd,
)
    requires
        worker_wf(f, s),
        cmd matches Cmd::Choose(t) ==> t < f.steps.len(),
    ensures
        worker_wf(f, obeyed(f, initial, server, s, cmd).0),
        same_base(s, obeyed(f, initial, server, s, cmd).0),
{
    lemma_resolved(f, s.ctx.vars, s.walker);
    let c = commanded(f, s.ctx.vars, s.walker, cmd);
    let ctx = if cmd is Reset {
        CtxView { vars: initial, ..s.ctx }
    } else {
        s.ctx
    };
    lemma_carried_out_keeps(f, server, WorkerView { walker: c.0, ctx, sent: s.sent }, c.2);
}

proof fn lemma_obeyed_all_keeps(
    f: FlowView,
    initial: Map<Seq<char>, Seq<char>>,
    server: spec_fn(nat, RequestView) -> Result<Reply, String>,
    s: WorkerView,
    cmds: Seq<Cmd>,
)
    requires
        worker_wf(f, s),
        fitting(f, cmds),
    ensures
        worker_wf(f, obeyed_all(f, initial, server, s, cmds).0),
        same_base(s, obeyed_all(f, initial, server, s, cmds).0),
    decreases cmds.len(),
{
    if cmds.len() > 0 && !(cmds.first() is Quit) {
        assert(cmds[0] == cmds.first());
        lemma_obeyed_keeps(f, initial, server, s, cmds.first());
        let next = obeyed(f, initial, server, s, cmds.first()).0;
        assert(fitting(f, cmds.drop_first())) by {
            assert forall|i: int| 0 <= i < cmds.drop_first().len() implies (
            #[trigger] cmds.drop_first()[i] matches Cmd::Choose(t) ==> t < f.steps.len()) by {
                assert(cmds.drop_first()[i] == cmds[i + 1]);
            }
        }
        lemma_obeyed_all_keeps(f, initial, server, next, cmds.drop_first());
    }
}

proof fn lemma_obeyed_in_parts(
    f: FlowView,
    initial: Map<Seq<char>, Seq<char>>,
    server: spec_fn(nat, RequestView) -> Result<Reply, String>,
    s: WorkerView,
    a: Seq<Cmd>,
    b: Seq<Cmd>,
)
    requires
        forall|i: int| 0 <= i < a.len() ==> !(#[trigger] a[i] is Quit),
    ensures
        ({
            let x = obeyed_all(f, initial, server, s, a);
            let y = obeyed_all(f, initial, server, x.0, b);
            obeyed_all(f, initial, server, s, a + b) == (y.0, x.1 + y.1)
        }),
    decreases a.len(),
{
    let x = obeyed_all(f, initial, server, s, a);
    let y = obeyed_all(f, initial, server, x.0, b);
    if a.len() == 0 {
        assert(a + b =~= b);
        assert(x.1 + y.1 =~= y.1);
    } else {
        assert(a[0] == a.first());
        let first = obeyed(f, initial, server, s, a.first());
        let rest = obeyed_all(f, initial, server, first.0, a.drop_first());
        assert forall|i: int| 0 <= i < a.drop_first().len() implies !(
        #[trigger] a.drop_first()[i] is Quit) by {
            assert(a.drop_first()[i] == a[i + 1]);
        }
        lemma_obeyed_in_parts(f, initial, server, first.0, a.drop_first(), b);
        assert((a + b).drop_first() =~= a.drop_first() + b);
        assert((a + b).first() == a.first());
        assert(first.1 + (rest.1 + y.1) =~= (first.1 + rest.1) + y.1);
    }
}

/// Whether two workers stand at the same place with the same variables.
pub open spec fn same_state(a: WorkerView, b: WorkerView) -> bool {
    a.walker == b.walker && a.ctx == b.ctx
}

proof fn lemma_executed_alike(
    f: FlowView,
    a: spec_fn(nat, RequestView) -> Result<Reply, String>,
    b: spec_fn(nat, RequestView) -> Result<Reply, String>,
    s: WorkerView,
    t: WorkerView,
    i: usize,
)
    requires
        alike(a, b),
        same_state(s, t),
    ensures
        untimed(EvtView::Done(executed(f, a, s, i).0)) == untimed(
            EvtView::Done(executed(f, b, t, i).0),
        ),
        executed(f, a, s, i).1 == executed(f, b, t, i).1,
        same_state(executed(f, a, s, i).2, executed(f, b, t, i).2),
{
    let cfg = f.steps[i as int].cfg;
    if let PreparedView::Send(q) = prepared(cfg, s.ctx) {
        assert(same_but_time(a(s.sent, q), b(t.sent, q)));
    }
}

proof fn lemma_carried_out_alike(
    f: FlowView,
    a: spec_fn(nat, RequestView) -> Result<Reply, String>,
    b: spec_fn(nat, RequestView) -> Result<Reply, String>,
    s: WorkerView,
    t: WorkerView,
    todo: Todo,
)
    requires
        alike(a, b),
        same_state(s, t),
        worker_wf(f, s),
    ensures
        same_state(carried_out(f, a, s, todo).0, carried_out(f, b, t, todo).0),
        untimed_all(carried_out(f, a, s, todo).1) == untimed_all(carried_out(f, b, t, todo).1),
    decreases
            f.steps.len() - s.walker.cur,
            (if todo is Wait {
                0int
            } else {
                1int
            }),
{
    match todo {
        Todo::Run(i, job) | Todo::Pause(i, job) => {
            let x = executed(f, a, s, i);
            let y = executed(f, b, t, i);
            let r = after_run(f, x.2.ctx.vars, s.walker, job, i, x.1);
            lemma_executed_alike(f, a, b, s, t, i);
            lemma_resolved(f, x.2.ctx.vars, s.walker);
            let s2 = WorkerView { walker: r.0, ..x.2 };
            let t2 = WorkerView { walker: r.0, ..y.2 };
            lemma_carried_out_alike(f, a, b, s2, t2, r.2);
            let s_told = seq![EvtView::Started(i as int), EvtView::Done(x.0)];
            let t_told = seq![EvtView::Started(i as int), EvtView::Done(y.0)];
            assert(untimed_all(s_told) =~= untimed_all(t_told));
            lemma_untimed(s_told, r.1);
            lemma_untimed(t_told, r.1);
            lemma_untimed(s_told + r.1, carried_out(f, a, s2, r.2).1);
            lemma_untimed(t_told + r.1, carried_out(f, b, t2, r.2).1);
        },
        _ => {},
    }
}

proof fn lemma_obeyed_all_alike(
    f: FlowView,
    initial: Map<Seq<char>, Seq<char>>,
    a: spec_fn(nat, RequestView) -> Result<Reply, String>,
    b: spec_fn(nat, RequestView) -> Result<Reply, String>,
    s: WorkerView,
    t: WorkerView,
    cmds: Seq<Cmd>,
)
    requires
        alike(a, b),
        same_state(s, t),
        worker_wf(f, s),
        fitting(f, cmds),
    ensures
        same_state(
            obeyed_all(f, initial, a, s, cmds).0,
            obeyed_all(f, initial, b, t, cmds).0,
        ),
        untimed_all(obeyed_all(f, initial, a, s, cmds).1) == untimed_all(
            obeyed_all(f, initial, b, t, cmds).1,
        ),
    decreases cmds.len(),
{
    if cmds.len() > 0 && !(cmds.first() is Quit) {
        let cmd = cmds.first();
        assert(cmds[0] == cmd);
        let c = commanded(f, s.ctx.vars, s.walker, cmd);
        let ctx = if cmd is Reset {
            CtxView { vars: initial, ..s.ctx }
        } else {
            s.ctx
        };
        let s1 = WorkerView { walker: c.0, ctx, sent: s.sent };
        let t1 = WorkerView { walker: c.0, ctx, sent: t.sent };
        lemma_resolved(f, s.ctx.vars, s.walker);
        lemma_carried_out_alike(f, a, b, s1, t1, c.2);
        lemma_untimed(c.1, carried_out(f, a, s1, c.2).1);
        lemma_untimed(c.1, carried_out(f, b, t1, c.2).1);
        lemma_obeyed_keeps(f, initial, a, s, cmd);
        let x = obeyed(f, initial, a, s, cmd);
        let y = obeyed(f, initial, b, t, cmd);
        let rest = cmds.drop_first();
        assert(fitting(f, rest)) by {
            assert forall|i: int| 0 <= i < rest.len() implies (#[trigger] rest[i] matches Cmd::Choose(
                t,
            ) ==> t < f.steps.len()) by {
                assert(rest[i] == cmds[i + 1]);
            }
        }
        lemma_obeyed_all_alike(f, initial, a, b, x.0, y.0, rest);
        lemma_untimed(x.1, obeyed_all(f, initial, a, x.0, rest).1);
        lemma_untimed(y.1, obeyed_all(f, initial, b, y.0, rest).1);
    }
}

/// A reset is a new start. Whatever the worker was told to do before, a reset
/// tells that it happened and nothing else, and takes the worker back to where it
/// was started, with the variables of the start. From there any commands give the
/// events, the times aside, and the state that they give on a worker that has
/// just been started, if the server answers requests of equal content alike.
pub proof fn law_reset_is_a_new_start(
    f: FlowView,
    start: usize,
    ctx: CtxView,
    server: spec_fn(nat, RequestView) -> Result<Reply, String>,
    fresh_server: spec_fn(nat, RequestView) -> Result<Reply, String>,
    before: Seq<Cmd>,
    after: Seq<Cmd>,
)
    requires
        flow_wf(f),
        start < f.steps.len() <= usize::MAX,
        alike(server, fresh_server),
        fitting(f, before),
        fitting(f, after),
        forall|i: int| 0 <= i < before.len() ==> !(#[trigger] before[i] is Quit),
    ensures
        ({
            let new = new_worker(start, ctx);
            let first = obeyed_all(f, ctx.vars, server, new, before);
            let reset = obeyed_all(f, ctx.vars, server, new, before.push(Cmd::Reset));
            let whole = obeyed_all(f, ctx.vars, server, new, before.push(Cmd::Reset) + after);
            let fresh = obeyed_all(f, ctx.vars, fresh_server, new, after);
            let told = whole.1.skip(reset.1.len() as int);
            &&& reset.1 == first.1.push(EvtView::Reset)
            &&& same_state(reset.0, new)
            &&& whole.1 == reset.1 + told
            &&& untimed_all(told) == untimed_all(fresh.1)
            &&& same_state(whole.0, fresh.0)
        }),
{
    let new = new_worker(start, ctx);
    let initial = ctx.vars;
    let first = obeyed_all(f, initial, server, new, before);
    let reset = obeyed_all(f, initial, server, new, before.push(Cmd::Reset));
    let whole = obeyed_all(f, initial, server, new, before.push(Cmd::Reset) + after);
    let one = seq![Cmd::Reset];
    assert(before.push(Cmd::Reset) =~= before + one);
    lemma_obeyed_in_parts(f, initial, server, new, before, one);
    lemma_obeyed_all_keeps(f, initial, server, new, before);
    let last = obeyed_all(f, initial, server, first.0, one);
    reveal_with_fuel(obeyed_all, 2);
    assert(one.first() == Cmd::Reset);
    assert(one.drop_first() =~= seq![]);
    assert(last.1 =~= seq![EvtView::Reset]);
    assert(first.1 + last.1 =~= first.1.push(EvtView::Reset));
    assert(same_state(reset.0, new));
    let begun = before.push(Cmd::Reset);
    assert forall|i: int| 0 <= i < begun.len() implies !(#[trigger] begun[i] is Quit) by {
        if i < before.len() {
            assert(begun[i] == before[i]);
        }
    }
    lemma_obeyed_in_parts(f, initial, server, new, begun, after);
    let rest = obeyed_all(f, initial, server, reset.0, after);
    assert(whole.1.skip(reset.1.len() as int) =~= rest.1);
    lemma_obeyed_all_alike(f, initial, server, fresh_server, reset.0, new, after);
}

/// A step that is run with a `send` that asks the server comes to what the server
/// answers. Where no request is counted as sent, the step runs with any `send`, also
/// with one that may not be called.
pub proof fn law_steps_are_as_the_server_answers<F: FnOnce(Request) -> Result<Reply, String>>(
    f: FlowView,
    server: spec_fn(nat, RequestView) -> Result<Reply, String>,
    s: WorkerView,
    i: usize,
    send: F,
    result: StepResultView,
    ok: bool,
    after: CtxView,
)
    requires
        is_exec(f, s.ctx, i as int, send, result, ok, after),
        forall|req: Request, reply: Result<Reply, String>|
            #[trigger] call_ensures(send, (req,), reply) ==> reply == server(s.sent, req@),
    ensures
        ({
            let x = executed(f, server, s, i);
            &&& (result, ok, after) == (x.0, x.1, x.2.ctx)
            &&& x.2.sent == s.sent ==> takes_request(f.steps[i as int].cfg, s.ctx, send)
        }),
{
}

} // verus!
