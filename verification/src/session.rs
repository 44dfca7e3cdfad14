//! The state of an open flow in the window: the status and the result of every
//! step, the log, and what is selected. Drawing and timing are the caller's.

use crate::branch::option_views;
use crate::config::opt_text;
use crate::diagram::NodeState;
use crate::engine::pair_texts;
use crate::flow::{Flow, FlowStep, FlowStepView, FlowView};
use crate::json::{json_view, JsonView};
use crate::palette::{role_named, role_of, sign_of, state_sign, Role};
use crate::runner_ui::{show_json, shown_json};
use crate::strmap::StrMap;
use crate::text::{
    decimal, decimal_of, find, join, joined, lemma_find_from, lemma_strip_end_keeps, occurs_at,
    split_once, split_once_text, strip_end, strip_end_of, texts, Strip,
};
use crate::worker::{Evt, EvtView, StepResult, StepResultView};
use vstd::prelude::*;

verus! {

/// How the chart is laid out.
#[derive(Debug, Clone, Copy, PartialEq, Eq, Structural)]
pub enum LayoutDir {
    /// A chain, folded into rows so that all of it fits the screen.
    Snake,
    /// From left to right.
    LR,
    /// From top to bottom.
    TD,
}

/// What the window shows of a step before it ran.
#[derive(Debug)]
pub struct StepMeta {
    pub node_id: String,
    pub title: String,
    pub role: Role,
    pub endpoint: String,
    pub note: Option<String>,
}

/// What a `StepMeta` holds.
pub struct StepMetaView {
    pub node_id: Seq<char>,
    pub title: Seq<char>,
    pub role: Role,
    pub endpoint: Seq<char>,
    pub note: Option<Seq<char>>,
}

impl View for StepMeta {
    type V = StepMetaView;

    open spec fn view(&self) -> StepMetaView {
        StepMetaView {
            node_id: self.node_id@,
            title: self.title@,
            role: self.role,
            endpoint: self.endpoint@,
            note: opt_text(self.note),
        }
    }
}

/// What the window shows of a step.
pub open spec fn meta_of(s: FlowStepView) -> StepMetaView {
    StepMetaView {
        node_id: s.node_id,
        title: s.title,
        role: role_named(s.cfg.auth),
        endpoint: match s.cfg.request {
            Some(r) => r,
            None => "(manual)"@,
        },
        note: s.cfg.note,
    }
}

impl StepMeta {
    /// What the window shows of a step.
    pub fn of(s: &FlowStep) -> (m: Self)
        ensures
            m@ == meta_of(s@),
    {
        let role = match &s.cfg.auth {
            Some(a) => role_of(Some(a.as_str())),
            None => role_of(None),
        };
        let endpoint = match &s.cfg.request {
            Some(r) => r.clone(),
            None => "(manual)".to_owned(),
        };
        StepMeta {
            node_id: s.node_id.clone(),
            title: s.title.clone(),
            role,
            endpoint,
            note: s.cfg.note.clone(),
        }
    }
}

/// A line of the log.
#[derive(Debug)]
pub struct LogLine {
    /// When it was written, in nanoseconds since the session began.
    pub t: u128,
    pub text: String,
    /// More lines, shown while the line is expanded.
    pub detail: Option<String>,
    pub expanded: bool,
    pub color: u32,
}

/// What a `LogLine` holds.
pub struct LogLineView {
    pub t: nat,
    pub text: Seq<char>,
    pub detail: Option<Seq<char>>,
    pub expanded: bool,
    pub color: u32,
}

impl View for LogLine {
    type V = LogLineView;

    open spec fn view(&self) -> LogLineView {
        LogLineView {
            t: self.t as nat,
            text: self.text@,
            detail: opt_text(self.detail),
            expanded: self.expanded,
            color: self.color,
        }
    }
}

/// The state of an open flow.
#[derive(Debug)]
pub struct Session {
    pub base_url: String,
    pub meta: Vec<StepMeta>,
    pub dir: LayoutDir,
    pub states: Vec<NodeState>,
    pub results: Vec<Option<StepResult>>,
    pub vars: Vec<(String, String)>,
    pub log: Vec<LogLine>,
    pub selected: Option<usize>,
    pub auto_running: bool,
    /// The choice that is pending.
    pub pending: Option<Vec<(usize, String)>>,
    /// The path is complete.
    pub finished: bool,
    /// The flow is a chain.
    pub linear: bool,
    /// The view follows the current step.
    pub follow: bool,
    /// The step that the view is to be moved to.
    pub center_on: Option<usize>,
    /// The view fits the layout.
    pub fitted: bool,
}

/// What a `Session` holds.
pub struct SessionView {
    pub base_url: Seq<char>,
    pub meta: Seq<StepMetaView>,
    pub dir: LayoutDir,
    pub states: Seq<NodeState>,
    pub results: Seq<Option<StepResultView>>,
    pub vars: Seq<(Seq<char>, Seq<char>)>,
    pub log: Seq<LogLineView>,
    pub selected: Option<usize>,
    pub auto_running: bool,
    pub pending: Option<Seq<(int, Seq<char>)>>,
    pub finished: bool,
    pub linear: bool,
    pub follow: bool,
    pub center_on: Option<usize>,
    pub fitted: bool,
}

/// What a list of step descriptions holds.
pub open spec fn meta_views(v: Seq<StepMeta>) -> Seq<StepMetaView> {
    Seq::new(v.len(), |i: int| v[i]@)
}

/// What a list of results holds.
pub open spec fn result_views(v: Seq<Option<StepResult>>) -> Seq<Option<StepResultView>> {
    Seq::new(
        v.len(),
        |i: int|
            match v[i] {
                Some(r) => Some(r@),
                None => None,
            },
    )
}

/// What a log holds.
pub open spec fn log_views(v: Seq<LogLine>) -> Seq<LogLineView> {
    Seq::new(v.len(), |i: int| v[i]@)
}

impl View for Session {
    type V = SessionView;

    open spec fn view(&self) -> SessionView {
        SessionView {
            base_url: self.base_url@,
            meta: meta_views(self.meta@),
            dir: self.dir,
            states: self.states@,
            results: result_views(self.results@),
            vars: pair_texts(self.vars@),
            log: log_views(self.log@),
            selected: self.selected,
            auto_running: self.auto_running,
            pending: match self.pending {
                Some(o) => Some(option_views(o@)),
                None => None,
            },
            finished: self.finished,
            linear: self.linear,
            follow: self.follow,
            center_on: self.center_on,
            fitted: self.fitted,
        }
    }
}

/// A session that hangs together: a status and a result for every step, and
/// every step it speaks of is one.
pub open spec fn session_wf(s: SessionView) -> bool {
    &&& s.states.len() == s.meta.len()
    &&& s.results.len() == s.meta.len()
    &&& s.selected matches Some(i) ==> i < s.meta.len()
    &&& s.center_on matches Some(i) ==> i < s.meta.len()
    &&& s.pending matches Some(o) ==> names_steps(s, o)
    &&& s.dir == LayoutDir::Snake ==> s.linear
}

/// The targets of a choice are steps of the session.
pub open spec fn names_steps(s: SessionView, o: Seq<(int, Seq<char>)>) -> bool {
    forall|i: int| 0 <= i < o.len() ==> 0 <= (#[trigger] o[i]).0 < s.meta.len()
}

/// An event that speaks of steps of the session.
pub open spec fn event_wf(s: SessionView, e: EvtView) -> bool {
    match e {
        EvtView::Started(i) => 0 <= i < s.meta.len(),
        EvtView::Done(r) => 0 <= r.idx < s.meta.len(),
        EvtView::NeedChoice(o) => names_steps(s, o),
        _ => true,
    }
}

/// The session of a flow that was just opened.
pub open spec fn opened(f: FlowView, base_url: Seq<char>) -> SessionView {
    SessionView {
        base_url: strip_end(base_url, Strip::Only('/')),
        meta: Seq::new(f.steps.len(), |i: int| meta_of(f.steps[i])),
        dir: if f.linear {
            LayoutDir::Snake
        } else {
            LayoutDir::TD
        },
        states: Seq::new(f.steps.len(), |i: int| NodeState::Idle),
        results: Seq::new(f.steps.len(), |i: int| None),
        vars: seq![],
        log: seq![],
        selected: None,
        auto_running: false,
        pending: None,
        finished: false,
        linear: f.linear,
        follow: true,
        center_on: None,
        fitted: false,
    }
}

/// A log line without detail.
pub open spec fn plain_line(now: nat, text: Seq<char>, color: u32) -> LogLineView {
    LogLineView { t: now, text, detail: None, expanded: false, color }
}

/// A session with one more log line.
pub open spec fn logged(s: SessionView, l: LogLineView) -> SessionView {
    SessionView { log: s.log.push(l), ..s }
}

/// The view moves to a step where it follows the current step.
pub open spec fn followed(s: SessionView, i: usize) -> SessionView {
    SessionView {
        center_on: if s.follow {
            Some(i)
        } else {
            s.center_on
        },
        ..s
    }
}

/// A document as a block of the log.
pub open spec fn block(label: Seq<char>, v: Option<JsonView>) -> Seq<char> {
    match v {
        Some(j) => "\n      "@ + label + ":"@ + shown_json(
            j,
            "        "@,
            "… (dipangkas — lengkap di panel kanan)"@,
        ),
        None => seq![],
    }
}

/// A text behind a label as a line of the log, where there is one.
pub open spec fn detail_line(label: Seq<char>, t: Option<Seq<char>>) -> Seq<char> {
    match t {
        Some(s) => label + s,
        None => seq![],
    }
}

/// The notes on a step as lines of the log.
pub open spec fn note_lines(notes: Seq<Seq<char>>) -> Seq<char>
    decreases notes.len(),
{
    if notes.len() == 0 {
        seq![]
    } else {
        note_lines(notes.drop_last()) + "\n      "@ + notes.last()
    }
}

/// What is logged of a step that ran.
pub open spec fn done_text(node_id: Seq<char>, r: StepResultView) -> Seq<char> {
    sign_of(r.state).0 + " "@ + node_id + " "@ + (match r.status {
        Some(c) => "HTTP "@ + decimal(c as nat) + " · "@ + decimal(r.ms) + " ms"@,
        None => Seq::<char>::empty(),
    }) + "  "@ + r.msg + detail_line("\n      → "@, r.request_line) + detail_line(
        "\n      🔑 auth    : "@,
        r.auth_info,
    ) + block("⇢ payload "@, r.request_body) + block("⇠ response"@, r.body) + note_lines(r.notes)
}

/// A text as a log line: its first line is shown, and the rest is the detail.
pub open spec fn folded_line(now: nat, text: Seq<char>, color: u32) -> LogLineView {
    match split_once(text, '\n') {
        Some(p) => LogLineView {
            t: now,
            text: p.0,
            detail: Some(p.1),
            expanded: false,
            color,
        },
        None => plain_line(now, text, color),
    }
}

/// A choice as it is logged.
pub open spec fn choice_texts(s: SessionView, o: Seq<(int, Seq<char>)>) -> Seq<Seq<char>> {
    Seq::new(o.len(), |i: int| s.meta[o[i].0].title + " ("@ + o[i].1 + ")"@)
}

/// What an event does to a session.
pub open spec fn after_event(s: SessionView, e: EvtView, now: nat) -> SessionView {
    match e {
        EvtView::Started(i) => {
            let t = SessionView {
                states: s.states.update(i, NodeState::Current),
                selected: Some(i as usize),
                ..s
            };
            let m = s.meta[i];
            logged(
                followed(t, i as usize),
                plain_line(
                    now,
                    "→ "@ + m.node_id + " "@ + m.title + "  "@ + m.endpoint,
                    0x9ca3af,
                ),
            )
        },
        EvtView::Done(r) => {
            let t = SessionView {
                states: s.states.update(r.idx, r.state),
                results: s.results.update(r.idx, Some(r)),
                vars: r.vars,
                selected: Some(r.idx as usize),
                ..s
            };
            logged(
                t,
                folded_line(now, done_text(s.meta[r.idx].node_id, r), sign_of(r.state).1),
            )
        },
        EvtView::NeedChoice(o) => logged(
            SessionView { pending: Some(o), ..s },
            plain_line(
                now,
                "🔀 choose branch: "@ + joined(choice_texts(s, o), " · "@),
                0xeab308,
            ),
        ),
        EvtView::FlowDone => logged(
            SessionView { finished: true, ..s },
            plain_line(now, "🎉 path complete — untraversed nodes dimmed"@, 0x22c55e),
        ),
        EvtView::AutoDone => logged(
            SessionView { auto_running: false, ..s },
            plain_line(now, "auto stopped"@, 0x9ca3af),
        ),
        EvtView::Reset => logged(
            SessionView {
                states: Seq::new(s.states.len(), |i: int| NodeState::Idle),
                results: Seq::new(s.results.len(), |i: int| None),
                selected: None,
                vars: seq![],
                auto_running: false,
                pending: None,
                finished: false,
                ..s
            },
            plain_line(now, "reset — ready from the start"@, 0x9ca3af),
        ),
    }
}

/// A choice is pending, and a step is among its targets.
pub open spec fn is_offered(s: SessionView, t: int) -> bool {
    &&& s.pending is Some
    &&& exists|i: int|
        0 <= i < s.pending->Some_0.len() && (#[trigger] s.pending->Some_0[i]).0 == t
}

/// Taking a branch.
pub open spec fn after_choice(s: SessionView, t: usize, now: nat) -> SessionView {
    logged(
        followed(SessionView { pending: None, selected: Some(t), ..s }, t),
        plain_line(now, "↪ branch chosen: "@ + s.meta[t as int].title, 0xeab308),
    )
}

/// How many states are a given one.
pub open spec fn occurrences(states: Seq<NodeState>, x: NodeState) -> nat
    decreases states.len(),
{
    if states.len() == 0 {
        0
    } else {
        occurrences(states.drop_last(), x) + if states.last() == x {
            1nat
        } else {
            0nat
        }
    }
}

/// The progress line of the toolbar.
pub open spec fn progress_text(s: SessionView) -> Seq<char> {
    "visited "@ + decimal(
        (s.states.len() - occurrences(s.states, NodeState::Idle)) as nat,
    ) + "/"@ + decimal(s.states.len()) + "   ✅ "@ + decimal(
        occurrences(s.states, NodeState::Passed),
    ) + "  ❌ "@ + decimal(occurrences(s.states, NodeState::Fail)) + if s.finished {
        "  🎉 done"@
    } else {
        Seq::<char>::empty()
    }
}

/// A log line that has a detail.
pub open spec fn can_fold(l: LogLineView) -> bool {
    l.detail is Some
}

/// A log line that has a detail which is not shown.
pub open spec fn is_folded(l: LogLineView) -> bool {
    l.detail is Some && !l.expanded
}

fn idle_states(n: usize) -> (r: Vec<NodeState>)
    ensures
        r@ == Seq::new(n as nat, |i: int| NodeState::Idle),
{
    let mut r: Vec<NodeState> = Vec::new();
    while r.len() < n
        invariant
            r.len() <= n,
            forall|i: int| 0 <= i < r@.len() ==> r@[i] == NodeState::Idle,
        decreases n - r.len(),
    {
        r.push(NodeState::Idle);
    }
    assert(r@ =~= Seq::new(n as nat, |i: int| NodeState::Idle));
    r
}

fn no_results(n: usize) -> (r: Vec<Option<StepResult>>)
    ensures
        result_views(r@) == Seq::new(n as nat, |i: int| None::<StepResultView>),
        r@.len() == n,
{
    let mut r: Vec<Option<StepResult>> = Vec::new();
    while r.len() < n
        invariant
            r.len() <= n,
            forall|i: int| 0 <= i < r@.len() ==> (#[trigger] r@[i]) is None,
        decreases n - r.len(),
    {
        r.push(None);
    }
    assert(result_views(r@) =~= Seq::new(n as nat, |i: int| None::<StepResultView>));
    r
}

fn copy_pairs(v: &Vec<(String, String)>) -> (r: Vec<(String, String)>)
    ensures
        pair_texts(r@) == pair_texts(v@),
{
    let mut r: Vec<(String, String)> = Vec::new();
    let mut i: usize = 0;
    while i < v.len()
        invariant
            i <= v.len(),
            r@.len() == i,
            forall|k: int| 0 <= k < i ==> #[trigger] pair_texts(r@)[k] == pair_texts(v@)[k],
        decreases v.len() - i,
    {
        let ghost before = pair_texts(r@);
        r.push((v[i].0.clone(), v[i].1.clone()));
        assert(pair_texts(r@) =~= before.push((v[i as int].0@, v[i as int].1@)));
        i += 1;
    }
    assert(pair_texts(r@) =~= pair_texts(v@));
    r
}

/// A document as a block of the log.
pub fn pretty_block(label: &str, v: &serde_json::Value) -> (r: String)
    ensures
        r@ == block(label@, Some(json_view(*v))),
{
    let doc = show_json(v, "        ", "… (dipangkas — lengkap di panel kanan)");
    "\n      ".to_owned().concat(label).concat(":").concat(doc.as_str())
}

/// What is logged of a step that ran.
pub fn done_line(node_id: &str, r: &StepResult) -> (t: String)
    ensures
        t@ == done_text(node_id@, r@),
{
    let (sign, _) = state_sign(r.state);
    let http = match r.status {
        Some(c) => "HTTP ".to_owned().concat(decimal_of(c as u128).as_str()).concat(" · ").concat(
            decimal_of(r.ms).as_str(),
        ).concat(" ms"),
        None => String::new(),
    };
    assert(http@ =~= match r@.status {
        Some(c) => "HTTP "@ + decimal(c as nat) + " · "@ + decimal(r@.ms) + " ms"@,
        None => Seq::<char>::empty(),
    });
    let mut line = sign.to_owned().concat(" ").concat(node_id).concat(" ").concat(
        http.as_str(),
    ).concat("  ").concat(r.msg.as_str());
    let ghost l0 = line@;
    match &r.request_line {
        Some(x) => {
            line.append("\n      → ");
            line.append(x.as_str());
        },
        None => {},
    }
    assert(line@ =~= l0 + detail_line("\n      → "@, r@.request_line));
    let ghost l1 = line@;
    match &r.auth_info {
        Some(x) => {
            line.append("\n      🔑 auth    : ");
            line.append(x.as_str());
        },
        None => {},
    }
    assert(line@ =~= l1 + detail_line("\n      🔑 auth    : "@, r@.auth_info));
    let ghost l2 = line@;
    match &r.request_body {
        Some(b) => {
            line.append(pretty_block("⇢ payload ", b).as_str());
        },
        None => {},
    }
    assert(line@ =~= l2 + block("⇢ payload "@, r@.request_body));
    let ghost l3 = line@;
    match &r.body {
        Some(b) => {
            line.append(pretty_block("⇠ response", b).as_str());
        },
        None => {},
    }
    assert(line@ =~= l3 + block("⇠ response"@, r@.body));
    let ghost l4 = line@;
    let ghost notes = r@.notes;
    let mut i: usize = 0;
    assert(line@ =~= l4 + note_lines(notes.take(0)));
    while i < r.notes.len()
        invariant
            notes == texts(r.notes@),
            i <= r.notes.len(),
            line@ == l4 + note_lines(notes.take(i as int)),
        decreases r.notes.len() - i,
    {
        let ghost before = line@;
        line.append("\n      ");
        line.append(r.notes[i].as_str());
        proof {
            assert(notes.take(i + 1).drop_last() =~= notes.take(i as int));
            assert(line@ =~= l4 + note_lines(notes.take(i + 1)));
        }
        i += 1;
    }
    assert(notes.take(i as int) =~= notes);
    line
}

impl Session {
    /// The session of a flow that is opened. A chain is shown as a snake, any
    /// other flow from top to bottom.
    pub fn open(flow: &Flow, base_url: &str) -> (r: Self)
        ensures
            r@ == opened(flow@, base_url@),
            session_wf(r@),
    {
        let n = flow.steps.len();
        let mut meta: Vec<StepMeta> = Vec::new();
        let mut i: usize = 0;
        while i < n
            invariant
                n == flow.steps.len(),
                i <= n,
                meta@.len() == i,
                forall|k: int|
                    0 <= k < i ==> (#[trigger] meta_views(meta@)[k]) == meta_of(flow@.steps[k]),
            decreases n - i,
        {
            let ghost before = meta_views(meta@);
            let m = StepMeta::of(&flow.steps[i]);
            meta.push(m);
            assert(meta_views(meta@) =~= before.push(m@));
            assert(flow@.steps[i as int] == flow.steps@[i as int]@);
            i += 1;
        }
        let r = Session {
            base_url: strip_end_of(base_url, Strip::Only('/')),
            meta,
            dir: if flow.linear {
                LayoutDir::Snake
            } else {
                LayoutDir::TD
            },
            states: idle_states(n),
            results: no_results(n),
            vars: Vec::new(),
            log: Vec::new(),
            selected: None,
            auto_running: false,
            pending: None,
            finished: false,
            linear: flow.linear,
            follow: true,
            center_on: None,
            fitted: false,
        };
        proof {
            let want = opened(flow@, base_url@);
            assert(r@.meta =~= want.meta);
            assert(r@.vars =~= want.vars);
            assert(r@.log =~= want.log);
        }
        r
    }

    fn logln(&mut self, now: u128, text: String, color: u32)
        ensures
            final(self)@ == logged(old(self)@, plain_line(now as nat, text@, color)),
    {
        let ghost before = self@.log;
        let line = LogLine { t: now, text, detail: None, expanded: false, color };
        self.log.push(line);
        assert(self@.log =~= before.push(line@));
    }

    fn logln_folded(&mut self, now: u128, text: String, color: u32)
        ensures
            final(self)@ == logged(old(self)@, folded_line(now as nat, text@, color)),
    {
        match split_once_text(text.as_str(), '\n') {
            Some(p) => {
                let ghost before = self@.log;
                let line = LogLine {
                    t: now,
                    text: p.0,
                    detail: Some(p.1),
                    expanded: false,
                    color,
                };
                self.log.push(line);
                assert(self@.log =~= before.push(line@));
            },
            None => {
                self.logln(now, text, color);
            },
        }
    }

    fn choice_line(&self, o: &Vec<(usize, String)>) -> (t: String)
        requires
            session_wf(self@),
            names_steps(self@, option_views(o@)),
        ensures
            t@ == "🔀 choose branch: "@ + joined(
                choice_texts(self@, option_views(o@)),
                " · "@,
            ),
    {
        let ghost all = choice_texts(self@, option_views(o@));
        let mut parts: Vec<String> = Vec::new();
        let mut i: usize = 0;
        while i < o.len()
            invariant
                i <= o.len(),
                session_wf(self@),
                names_steps(self@, option_views(o@)),
                all == choice_texts(self@, option_views(o@)),
                parts@.len() == i,
                forall|k: int| 0 <= k < i ==> #[trigger] texts(parts@)[k] == all[k],
            decreases o.len() - i,
        {
            let ghost before = texts(parts@);
            assert(option_views(o@)[i as int].0 < self.meta@.len());
            let part = self.meta[o[i].0].title.clone().concat(" (").concat(
                o[i].1.as_str(),
            ).concat(")");
            parts.push(part);
            assert(texts(parts@) =~= before.push(part@));
            i += 1;
        }
        assert(texts(parts@) =~= all);
        "🔀 choose branch: ".to_owned().concat(join(&parts, " · ").as_str())
    }

    /// Takes an event of the worker.
    pub fn take_event(&mut self, e: Evt, now: u128)
        requires
            session_wf(old(self)@),
            event_wf(old(self)@, e@),
        ensures
            final(self)@ == after_event(old(self)@, e@, now as nat),
            session_wf(final(self)@),
    {
        let ghost s = self@;
        match e {
            Evt::Started(i) => {
                self.states.set(i, NodeState::Current);
                self.selected = Some(i);
                if self.follow {
                    self.center_on = Some(i);
                }
                let m = &self.meta[i];
                let text = "→ ".to_owned().concat(m.node_id.as_str()).concat(" ").concat(
                    m.title.as_str(),
                ).concat("  ").concat(m.endpoint.as_str());
                self.logln(now, text, 0x9ca3af);
            },
            Evt::Done(r) => {
                let i = r.idx;
                self.states.set(i, r.state);
                self.vars = copy_pairs(&r.vars);
                self.selected = Some(i);
                let (_, color) = state_sign(r.state);
                let text = done_line(self.meta[i].node_id.as_str(), &r);
                self.logln_folded(now, text, color);
                let ghost before = self@.results;
                self.results.set(i, Some(r));
                assert(self@.results =~= before.update(i as int, Some(r@)));
            },
            Evt::NeedChoice(o) => {
                let text = self.choice_line(&o);
                self.logln(now, text, 0xeab308);
                self.pending = Some(o);
            },
            Evt::FlowDone => {
                self.finished = true;
                self.logln(now, "🎉 path complete — untraversed nodes dimmed".to_owned(), 0x22c55e);
            },
            Evt::AutoDone => {
                self.auto_running = false;
                self.logln(now, "auto stopped".to_owned(), 0x9ca3af);
            },
            Evt::Reset => {
                self.states = idle_states(self.states.len());
                self.results = no_results(self.results.len());
                self.selected = None;
                self.vars = Vec::new();
                self.auto_running = false;
                self.pending = None;
                self.finished = false;
                assert(self@.vars =~= seq![]);
                self.logln(now, "reset — ready from the start".to_owned(), 0x9ca3af);
            },
        }
    }

    /// Whether the operator can take steps.
    pub fn can_step(&self) -> (r: bool)
        ensures
            r == (!self@.finished && !self@.auto_running && self@.pending is None),
    {
        !self.finished && !self.auto_running && self.pending.is_none()
    }

    /// An automatic run was asked for.
    pub fn start_auto(&mut self)
        ensures
            final(self)@ == (SessionView { auto_running: true, ..old(self)@ }),
    {
        self.auto_running = true;
    }

    /// Takes one of the branches that are offered.
    pub fn choose_branch(&mut self, t: usize, now: u128)
        requires
            session_wf(old(self)@),
            is_offered(old(self)@, t as int),
        ensures
            final(self)@ == after_choice(old(self)@, t, now as nat),
            session_wf(final(self)@),
    {
        self.pending = None;
        self.selected = Some(t);
        if self.follow {
            self.center_on = Some(t);
        }
        let text = "↪ branch chosen: ".to_owned().concat(self.meta[t].title.as_str());
        self.logln(now, text, 0xeab308);
    }

    /// How a branch is offered: the title of the step, and the label where there
    /// is one.
    pub fn branch_text(&self, t: usize, label: &str) -> (r: String)
        requires
            t < self@.meta.len(),
        ensures
            r@ == if label@.len() == 0 {
                "→ "@ + self@.meta[t as int].title
            } else {
                "→ "@ + self@.meta[t as int].title + "   ("@ + label@ + ")"@
            },
    {
        let text = "→ ".to_owned().concat(self.meta[t].title.as_str());
        if label.is_empty() {
            text
        } else {
            text.concat("   (").concat(label).concat(")")
        }
    }

    /// Selects a step.
    pub fn select(&mut self, i: usize)
        requires
            session_wf(old(self)@),
            i < old(self)@.meta.len(),
        ensures
            final(self)@ == (SessionView { selected: Some(i), ..old(self)@ }),
            session_wf(final(self)@),
    {
        self.selected = Some(i);
    }

    /// Changes the layout, and says whether it is another one. Only a chain can
    /// be a snake.
    pub fn set_dir(&mut self, dir: LayoutDir) -> (changed: bool)
        requires
            session_wf(old(self)@),
        ensures
            changed == (dir != old(self)@.dir && (dir != LayoutDir::Snake || old(self)@.linear)),
            final(self)@ == if changed {
                SessionView { dir, ..old(self)@ }
            } else {
                old(self)@
            },
            session_wf(final(self)@),
    {
        if dir == self.dir || (dir == LayoutDir::Snake && !self.linear) {
            return false;
        }
        self.dir = dir;
        true
    }

    /// The view was made to fit the layout: it goes to the selected step, or to
    /// the first.
    pub fn mark_fitted(&mut self)
        requires
            session_wf(old(self)@),
            old(self)@.meta.len() > 0,
        ensures
            final(self)@ == (SessionView {
                fitted: true,
                center_on: Some(
                    match old(self)@.selected {
                        Some(i) => i,
                        None => 0,
                    },
                ),
                ..old(self)@
            }),
            session_wf(final(self)@),
    {
        let i = match self.selected {
            Some(i) => i,
            None => 0,
        };
        self.center_on = Some(i);
        self.fitted = true;
    }

    /// Hands out the step that the view is to be moved to, once.
    pub fn take_center(&mut self) -> (r: Option<usize>)
        ensures
            r == old(self)@.center_on,
            final(self)@ == (SessionView { center_on: None, ..old(self)@ }),
    {
        let r = self.center_on;
        self.center_on = None;
        r
    }

    fn count(&self, x: NodeState) -> (n: usize)
        ensures
            n == occurrences(self@.states, x),
            n <= self@.states.len(),
    {
        let ghost all = self@.states;
        let mut n: usize = 0;
        let mut i: usize = 0;
        while i < self.states.len()
            invariant
                all == self.states@,
                i <= self.states.len(),
                n == occurrences(all.take(i as int), x),
                n <= i,
            decreases self.states.len() - i,
        {
            assert(all.take(i + 1).drop_last() =~= all.take(i as int));
            if self.states[i] == x {
                n = n + 1;
            }
            i += 1;
        }
        assert(all.take(i as int) =~= all);
        n
    }

    /// The progress line of the toolbar: how many steps were visited, passed and
    /// failed.
    pub fn progress(&self) -> (r: String)
        ensures
            r@ == progress_text(self@),
    {
        let idle = self.count(NodeState::Idle);
        let visited: usize = self.states.len() - idle;
        let text = "visited ".to_owned().concat(decimal_of(visited as u128).as_str()).concat(
            "/",
        ).concat(decimal_of(self.states.len() as u128).as_str()).concat("   ✅ ").concat(
            decimal_of(self.count(NodeState::Passed) as u128).as_str(),
        ).concat("  ❌ ").concat(decimal_of(self.count(NodeState::Fail) as u128).as_str());
        let r = if self.finished {
            text.concat("  🎉 done")
        } else {
            text
        };
        assert(r@ =~= progress_text(self@));
        r
    }

    /// Whether a node is shown dimmed: the path is complete and did not come by.
    pub fn is_dimmed(&self, i: usize) -> (r: bool)
        requires
            i < self@.states.len(),
        ensures
            r == (self@.finished && self@.states[i as int] == NodeState::Idle),
    {
        self.finished && self.states[i] == NodeState::Idle
    }

    /// Whether the edges out of a step are shown as taken: the step passed. A
    /// position that is no step is not.
    pub fn edge_is_done(&self, src: usize) -> (r: bool)
        ensures
            r == (src < self@.states.len() && self@.states[src as int] == NodeState::Passed),
    {
        src < self.states.len() && self.states[src] == NodeState::Passed
    }

    /// What the button for the whole log does: nothing where no line has a
    /// detail, else expand all where some detail is hidden, else hide all.
    pub fn fold_button(&self) -> (r: Option<bool>)
        ensures
            match r {
                None => forall|i: int| 0 <= i < self@.log.len() ==> !can_fold(#[trigger] self@.log[i]),
                Some(true) => exists|i: int| 0 <= i < self@.log.len() && is_folded(#[trigger] self@.log[i]),
                Some(false) => {
                    &&& exists|i: int| 0 <= i < self@.log.len() && can_fold(#[trigger] self@.log[i])
                    &&& forall|i: int| 0 <= i < self@.log.len() ==> !is_folded(#[trigger] self@.log[i])
                },
            },
    {
        let ghost all = self@.log;
        let mut some = false;
        let mut i: usize = 0;
        while i < self.log.len()
            invariant
                all == self@.log,
                i <= self.log.len(),
                some == exists|k: int| 0 <= k < i && can_fold(#[trigger] all[k]),
                forall|k: int| 0 <= k < i ==> !is_folded(#[trigger] all[k]),
            decreases self.log.len() - i,
        {
            let l = &self.log[i];
            assert(all[i as int] == l@);
            if l.detail.is_some() {
                some = true;
                assert(can_fold(all[i as int]));
                if !l.expanded {
                    assert(is_folded(all[i as int]));
                    return Some(true);
                }
            }
            i += 1;
        }
        if some {
            Some(false)
        } else {
            None
        }
    }

    /// Shows or hides the detail of a log line.
    pub fn toggle_line(&mut self, i: usize)
        requires
            i < old(self)@.log.len(),
        ensures
            final(self)@ == (SessionView {
                log: old(self)@.log.update(
                    i as int,
                    LogLineView {
                        expanded: !old(self)@.log[i as int].expanded,
                        ..old(self)@.log[i as int]
                    },
                ),
                ..old(self)@
            }),
    {
        let ghost before = self@.log;
        let ghost was = before[i as int];
        assert(was == self.log@[i as int]@);
        let e = self.log[i].expanded;
        self.log[i].expanded = !e;
        assert(self@.log =~= before.update(
            i as int,
            LogLineView { expanded: !was.expanded, ..was },
        ));
    }

    /// Shows or hides all details of the log.
    pub fn fold_all(&mut self, expand: bool)
        ensures
            final(self)@ == (SessionView {
                log: old(self)@.log.map_values(
                    |l: LogLineView|
                        if can_fold(l) {
                            LogLineView { expanded: expand, ..l }
                        } else {
                            l
                        },
                ),
                ..old(self)@
            }),
    {
        let ghost before = self@;
        let ghost f = |l: LogLineView|
            if can_fold(l) {
                LogLineView { expanded: expand, ..l }
            } else {
                l
            };
        let mut i: usize = 0;
        while i < self.log.len()
            invariant
                i <= self.log.len(),
                self@ == (SessionView { log: self@.log, ..before }),
                self@.log.len() == before.log.len(),
                forall|k: int| 0 <= k < i ==> #[trigger] self@.log[k] == f(before.log[k]),
                forall|k: int| i <= k < self@.log.len() ==> #[trigger] self@.log[k] == before.log[k],
                f == (|l: LogLineView|
                    if can_fold(l) {
                        LogLineView { expanded: expand, ..l }
                    } else {
                        l
                    }),
            decreases self.log.len() - i,
        {
            let ghost now = self@.log;
            let ghost was = now[i as int];
            assert(was == self.log@[i as int]@);
            if self.log[i].detail.is_some() {
                self.log[i].expanded = expand;
            }
            assert(self@.log =~= now.update(i as int, f(was)));
            i += 1;
        }
        assert(self@.log =~= before.log.map_values(f));
    }
}

/// The position of each node in the list of steps.
pub fn node_positions(flow: &Flow) -> (r: StrMap<usize>)
    ensures
        forall|k: Seq<char>| #[trigger]
            r@.contains_key(k) <==> exists|i: int|
                0 <= i < flow@.steps.len() && flow@.steps[i].node_id == k,
        forall|k: Seq<char>| #[trigger]
            r@.contains_key(k) ==> {
                &&& r@[k] < flow@.steps.len()
                &&& flow@.steps[r@[k] as int].node_id == k
                &&& forall|j: int|
                    r@[k] < j < flow@.steps.len() ==> (#[trigger] flow@.steps[j]).node_id != k
            },
{
    let mut r: StrMap<usize> = StrMap::new();
    let ghost all = flow@.steps;
    let mut i: usize = 0;
    while i < flow.steps.len()
        invariant
            all == flow@.steps,
            i <= flow.steps.len(),
            forall|k: Seq<char>| #[trigger]
                r@.contains_key(k) <==> exists|j: int| 0 <= j < i && all[j].node_id == k,
            forall|k: Seq<char>| #[trigger]
                r@.contains_key(k) ==> {
                    &&& r@[k] < i
                    &&& all[r@[k] as int].node_id == k
                    &&& forall|j: int| r@[k] < j < i ==> (#[trigger] all[j]).node_id != k
                },
        decreases flow.steps.len() - i,
    {
        let id = flow.steps[i].node_id.clone();
        assert(all[i as int].node_id == id@);
        let ghost before = r@;
        r.insert(id, i);
        assert forall|k: Seq<char>| #[trigger] r@.contains_key(k) implies exists|j: int|
            0 <= j < i + 1 && all[j].node_id == k by {
            if k != id@ {
                assert(before.contains_key(k));
                let j = choose|j: int| 0 <= j < i && all[j].node_id == k;
                assert(all[j].node_id == k);
            }
        }
        assert forall|k: Seq<char>|
            (exists|j: int| 0 <= j < i + 1 && all[j].node_id == k) implies #[trigger] r@.contains_key(
            k,
        ) by {
            let j = choose|j: int| 0 <= j < i + 1 && all[j].node_id == k;
            if j < i {
                assert(before.contains_key(k));
            }
        }
        assert forall|k: Seq<char>| #[trigger] r@.contains_key(k) implies {
            &&& r@[k] < i + 1
            &&& all[r@[k] as int].node_id == k
            &&& forall|j: int| r@[k] < j < i + 1 ==> (#[trigger] all[j]).node_id != k
        } by {
            if k != id@ {
                assert(before.contains_key(k));
            }
        }
        i += 1;
    }
    r
}

/// The method and the path of an endpoint; an endpoint without a blank is all
/// path.
pub fn endpoint_parts(endpoint: &str) -> (r: (String, String))
    ensures
        (r.0@, r.1@) == match split_once(endpoint@, ' ') {
            Some(p) => p,
            None => (Seq::<char>::empty(), endpoint@),
        },
{
    match split_once_text(endpoint, ' ') {
        Some(p) => p,
        None => {
            let none = String::new();
            assert(none@ =~= Seq::<char>::empty());
            (none, endpoint.to_owned())
        },
    }
}

/// The log only grows: an event adds one line and leaves the others.
pub proof fn law_the_log_only_grows(s: SessionView, e: EvtView, now: nat)
    ensures
        after_event(s, e, now).log.len() == s.log.len() + 1,
        s.log.is_prefix_of(after_event(s, e, now).log),
{
    let l = after_event(s, e, now).log;
    assert(l.take(s.log.len() as int) =~= s.log);
}

/// An event of a step changes the status of that step alone.
pub proof fn law_events_touch_one_step(s: SessionView, e: EvtView, now: nat, i: int)
    requires
        0 <= i < s.states.len(),
        !(e is Reset),
        e matches EvtView::Started(k) ==> 0 <= k < s.states.len() && k != i,
        e matches EvtView::Done(r) ==> 0 <= r.idx < s.states.len() && r.idx != i,
    ensures
        after_event(s, e, now).states[i] == s.states[i],
{
}

/// After a reset a session is as it was when it was opened, but for the log, the
/// layout and the view.
pub proof fn law_reset_is_as_opened(f: FlowView, base_url: Seq<char>, s: SessionView, now: nat)
    requires
        s.base_url == opened(f, base_url).base_url,
        s.meta == opened(f, base_url).meta,
        s.linear == f.linear,
        session_wf(s),
    ensures
        after_event(s, EvtView::Reset, now) == (SessionView {
            dir: s.dir,
            log: after_event(s, EvtView::Reset, now).log,
            follow: s.follow,
            center_on: s.center_on,
            fitted: s.fitted,
            ..opened(f, base_url)
        }),
{
    let r = after_event(s, EvtView::Reset, now);
    let o = opened(f, base_url);
    assert(r.states =~= o.states);
    assert(r.results =~= o.results);
}

/// Events are shown. A step that starts is current and selected, and the view goes
/// to it where it follows; a step that is done has its state, its result and the
/// variables after it, and is selected; a choice is pending with its offers; the end
/// of the path and of an automatic run are noted; and nothing else changes but the
/// log.
pub proof fn law_events_are_shown(s: SessionView, e: EvtView, now: nat)
    requires
        session_wf(s),
        event_wf(s, e),
        s.meta.len() <= usize::MAX,
    ensures
        ({
            let t = after_event(s, e, now);
            &&& t.base_url == s.base_url && t.meta == s.meta && t.dir == s.dir
            &&& t.linear == s.linear && t.follow == s.follow && t.fitted == s.fitted
            &&& t.states.len() == s.states.len() && t.results.len() == s.results.len()
            &&& match e {
                EvtView::Started(i) => {
                    &&& t.states == s.states.update(i, NodeState::Current)
                    &&& t.selected is Some && t.selected->Some_0 == i
                    &&& s.follow ==> t.center_on is Some && t.center_on->Some_0 == i
                    &&& !s.follow ==> t.center_on == s.center_on
                    &&& t.results == s.results && t.vars == s.vars && t.pending == s.pending
                    &&& t.finished == s.finished && t.auto_running == s.auto_running
                },
                EvtView::Done(r) => {
                    &&& t.states == s.states.update(r.idx, r.state)
                    &&& t.results == s.results.update(r.idx, Some(r))
                    &&& t.vars == r.vars
                    &&& t.selected is Some && t.selected->Some_0 == r.idx
                    &&& t.center_on == s.center_on && t.pending == s.pending
                    &&& t.finished == s.finished && t.auto_running == s.auto_running
                },
                EvtView::NeedChoice(o) => {
                    &&& t.pending == Some(o)
                    &&& t.states == s.states && t.results == s.results && t.vars == s.vars
                    &&& t.selected == s.selected && t.center_on == s.center_on
                    &&& t.finished == s.finished && t.auto_running == s.auto_running
                },
                EvtView::FlowDone => {
                    &&& t.finished
                    &&& t.states == s.states && t.results == s.results && t.vars == s.vars
                    &&& t.selected == s.selected && t.center_on == s.center_on
                    &&& t.pending == s.pending && t.auto_running == s.auto_running
                },
                EvtView::AutoDone => {
                    &&& !t.auto_running
                    &&& t.states == s.states && t.results == s.results && t.vars == s.vars
                    &&& t.selected == s.selected && t.center_on == s.center_on
                    &&& t.pending == s.pending && t.finished == s.finished
                },
                EvtView::Reset => {
                    &&& forall|i: int|
                        0 <= i < t.states.len() ==> #[trigger] t.states[i] == NodeState::Idle
                    &&& forall|i: int| 0 <= i < t.results.len() ==> #[trigger] t.results[i] is None
                    &&& t.vars.len() == 0 && t.selected is None && t.pending is None
                    &&& !t.finished && !t.auto_running && t.center_on == s.center_on
                },
            }
        }),
{
}

/// Every event is logged with its time. The line of a step that ran begins with the
/// sign of its state, the step and the response, and its message and its details
/// follow; a text of several lines is folded, so that the first line is shown and
/// the rest is its detail, with nothing lost.
pub proof fn law_events_are_logged(s: SessionView, r: StepResultView, now: nat)
    requires
        session_wf(s),
        0 <= r.idx < s.meta.len(),
    ensures
        ({
            let l = after_event(s, EvtView::Done(r), now).log.last();
            let text = done_text(s.meta[r.idx].node_id, r);
            let response = match r.status {
                Some(c) => "HTTP "@ + decimal(c as nat) + " · "@ + decimal(r.ms) + " ms"@,
                None => Seq::<char>::empty(),
            };
            &&& l.t == now && !l.expanded && l.color == sign_of(r.state).1
            &&& !l.text.contains('\n')
            &&& text == match l.detail {
                Some(d) => l.text + seq!['\n'] + d,
                None => l.text,
            }
            &&& (sign_of(r.state).0 + " "@ + s.meta[r.idx].node_id + " "@ + response + "  "@
                + r.msg).is_prefix_of(text)
            &&& note_lines(r.notes) == text.skip(text.len() - note_lines(r.notes).len())
        }),
{
    let text = done_text(s.meta[r.idx].node_id, r);
    let response = match r.status {
        Some(c) => "HTTP "@ + decimal(c as nat) + " · "@ + decimal(r.ms) + " ms"@,
        None => Seq::<char>::empty(),
    };
    let head = sign_of(r.state).0 + " "@ + s.meta[r.idx].node_id + " "@ + response + "  "@ + r.msg;
    assert(text.take(head.len() as int) =~= head);
    let k = text.len() - note_lines(r.notes).len();
    assert(text.skip(k) =~= note_lines(r.notes));
    lemma_cut_at_line_feed(text);
}

proof fn lemma_cut_at_line_feed(text: Seq<char>)
    ensures
        match split_once(text, '\n') {
            Some(p) => !p.0.contains('\n') && text == p.0 + seq!['\n'] + p.1,
            None => !text.contains('\n'),
        },
{
    let pat = seq!['\n'];
    lemma_find_from(text, pat, 0);
    match find(text, pat) {
        Some(i) => {
            let a = text.take(i);
            assert(text.subrange(i, i + 1)[0] == text[i]);
            assert(text =~= a + pat + text.skip(i + 1));
            if a.contains('\n') {
                let j = choose|j: int| 0 <= j < a.len() && a[j] == '\n';
                assert(text.subrange(j, j + 1) =~= pat);
                assert(occurs_at(text, pat, j));
            }
        },
        None => {
            if text.contains('\n') {
                let j = choose|j: int| 0 <= j < text.len() && text[j] == '\n';
                assert(text.subrange(j, j + 1) =~= pat);
                assert(occurs_at(text, pat, j));
            }
        },
    }
}

/// The notes on a step are logged one after the other, each on a line of its own.
pub proof fn law_notes_are_lines(a: Seq<Seq<char>>, n: Seq<char>)
    ensures
        note_lines(seq![]).len() == 0,
        note_lines(a + seq![n]) == note_lines(a) + "\n      "@ + n,
{
    assert((a + seq![n]).drop_last() =~= a);
}

/// Progress counts the steps: as visited all that are not idle, and those that passed
/// and that failed.
pub proof fn law_progress_counts_steps(a: Seq<NodeState>, s: NodeState, x: NodeState)
    ensures
        occurrences(seq![], x) == 0,
        occurrences(a + seq![s], x) == occurrences(a, x) + if s == x {
            1nat
        } else {
            0nat
        },
        occurrences(a, x) <= a.len(),
    decreases a.len(),
{
    assert((a + seq![s]).drop_last() =~= a);
    assert((a + seq![s]).last() == s);
    if a.len() > 0 {
        law_progress_counts_steps(a.drop_last(), a.last(), x);
        assert(a.drop_last() + seq![a.last()] =~= a);
    }
}

/// A session that was just opened shows every step of its flow in its order, idle
/// and without a result, under the host without slashes at its end; a chain is laid
/// out as a snake, and anything else from top to bottom.
pub proof fn law_opened_sessions_show_the_flow(f: FlowView, base_url: Seq<char>)
    ensures
        ({
            let s = opened(f, base_url);
            &&& s.meta.len() == f.steps.len()
            &&& s.states.len() == f.steps.len() && s.results.len() == f.steps.len()
            &&& forall|i: int|
                0 <= i < f.steps.len() ==> {
                    &&& (#[trigger] s.meta[i]).node_id == f.steps[i].node_id
                    &&& s.meta[i].title == f.steps[i].title
                    &&& s.meta[i].note == f.steps[i].cfg.note
                    &&& s.meta[i].endpoint == match f.steps[i].cfg.request {
                        Some(r) => r,
                        None => "(manual)"@,
                    }
                    &&& s.states[i] == NodeState::Idle && s.results[i] is None
                }
            &&& s.base_url.len() > 0 ==> s.base_url.last() != '/'
            &&& s.base_url.is_prefix_of(base_url)
            &&& s.dir == if f.linear {
                LayoutDir::Snake
            } else {
                LayoutDir::TD
            }
            &&& s.linear == f.linear && s.follow && !s.finished && !s.auto_running
            &&& s.log.len() == 0 && s.vars.len() == 0 && s.selected is None && s.pending is None
        }),
{
    lemma_strip_end_keeps(base_url, Strip::Only('/'));
    let h = strip_end(base_url, Strip::Only('/'));
    assert(base_url.take(h.len() as int) =~= h);
}

/// What the log says: a step that starts with its id, title and endpoint, a choice
/// with the title and the label of every offer, the branch that was chosen, and the
/// end of the path, of an automatic run and of what was before a reset.
pub proof fn law_the_log_says_what_happened(
    s: SessionView,
    i: int,
    o: Seq<(int, Seq<char>)>,
    t: usize,
    now: nat,
)
    ensures
        ({
            let l = after_event(s, EvtView::Started(i), now).log.last();
            &&& l.text == "→ "@ + s.meta[i].node_id + " "@ + s.meta[i].title + "  "@
                + s.meta[i].endpoint
            &&& l.t == now && l.detail is None
        }),
        ({
            let l = after_event(s, EvtView::NeedChoice(o), now).log.last();
            exists|offers: Seq<Seq<char>>|
                {
                    &&& l.text == "🔀 choose branch: "@ + #[trigger] joined(offers, " · "@)
                    &&& offers.len() == o.len()
                    &&& forall|k: int|
                        0 <= k < o.len() ==> offers[k] == s.meta[(#[trigger] o[k]).0].title
                            + " ("@ + o[k].1 + ")"@
                }
        }),
        after_event(s, EvtView::FlowDone, now).log.last().text
            == "🎉 path complete — untraversed nodes dimmed"@,
        after_event(s, EvtView::AutoDone, now).log.last().text == "auto stopped"@,
        after_event(s, EvtView::Reset, now).log.last().text == "reset — ready from the start"@,
        ({
            let c = after_choice(s, t, now);
            &&& c.pending is None && c.selected == Some(t)
            &&& c.log.len() == s.log.len() + 1 && s.log.is_prefix_of(c.log)
            &&& c.log.last().text == "↪ branch chosen: "@ + s.meta[t as int].title
            &&& c.states == s.states && c.results == s.results && c.vars == s.vars
            &&& c.finished == s.finished && c.auto_running == s.auto_running
            &&& c.center_on == if s.follow {
                Some(t)
            } else {
                s.center_on
            }
        }),
{
    let offers = choice_texts(s, o);
    assert(joined(offers, " · "@) == joined(choice_texts(s, o), " · "@));
    let c = after_choice(s, t, now);
    assert(c.log.take(s.log.len() as int) =~= s.log);
}

/// The details of a step that ran follow its first line in the order request, token,
/// payload, response, notes, each where it is known and on lines of its own.
pub proof fn law_details_follow_in_order(node_id: Seq<char>, r: StepResultView)
    ensures
        ({
            let bare = StepResultView {
                request_line: None,
                auth_info: None,
                request_body: None,
                body: None,
                notes: seq![],
                ..r
            };
            done_text(node_id, r) == done_text(node_id, bare) + (match r.request_line {
                Some(x) => "\n      → "@ + x,
                None => Seq::<char>::empty(),
            }) + (match r.auth_info {
                Some(x) => "\n      🔑 auth    : "@ + x,
                None => Seq::<char>::empty(),
            }) + (match r.request_body {
                Some(j) => "\n      "@ + "⇢ payload "@ + ":"@ + shown_json(
                    j,
                    "        "@,
                    "… (dipangkas — lengkap di panel kanan)"@,
                ),
                None => Seq::<char>::empty(),
            }) + (match r.body {
                Some(j) => "\n      "@ + "⇠ response"@ + ":"@ + shown_json(
                    j,
                    "        "@,
                    "… (dipangkas — lengkap di panel kanan)"@,
                ),
                None => Seq::<char>::empty(),
            }) + note_lines(r.notes)
        }),
{
    let bare = StepResultView {
        request_line: None,
        auth_info: None,
        request_body: None,
        body: None,
        notes: seq![],
        ..r
    };
    let none = Seq::<char>::empty();
    let head = sign_of(r.state).0 + " "@ + node_id + " "@ + (match r.status {
        Some(c) => "HTTP "@ + decimal(c as nat) + " · "@ + decimal(r.ms) + " ms"@,
        None => none,
    }) + "  "@ + r.msg;
    assert(done_text(node_id, bare) =~= head);
}

/// The progress line says how many steps were visited, of how many, how many passed
/// and failed, and that the path is complete where it is.
pub proof fn law_progress_is_told(s: SessionView)
    ensures
        ({
            let visited = s.states.len() - occurrences(s.states, NodeState::Idle);
            let counts = "visited "@ + decimal(visited as nat) + "/"@ + decimal(s.states.len())
                + "   ✅ "@ + decimal(occurrences(s.states, NodeState::Passed)) + "  ❌ "@ + decimal(
                occurrences(s.states, NodeState::Fail),
            );
            &&& !s.finished ==> progress_text(s) == counts
            &&& s.finished ==> progress_text(s) == counts + "  🎉 done"@
        }),
{
    let visited = s.states.len() - occurrences(s.states, NodeState::Idle);
    let counts = "visited "@ + decimal(visited as nat) + "/"@ + decimal(s.states.len())
        + "   ✅ "@ + decimal(occurrences(s.states, NodeState::Passed)) + "  ❌ "@ + decimal(
        occurrences(s.states, NodeState::Fail),
    );
    assert(counts + Seq::<char>::empty() =~= counts);
}

} // verus!
