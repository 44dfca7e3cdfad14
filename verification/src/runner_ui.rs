//! What a run shows: the status of every node, with the picture that goes with
//! it, and the lines that report on a step.

use crate::config::opt_text;
use crate::diagram::{is_drawing, render_status_svg, state_views, with_status, NodeState};
use crate::engine::{opt_json, Outcome, OutcomeView, StepReport, StepReportView};
use crate::flow::{Flow, FlowView};
use crate::json::{json_pretty_display, json_to_string_pretty, json_view, JsonView};
use crate::text::{
    chars_of, decimal, decimal_of, joined, law_joined_texts, lines, lines_of, texts, utf8_len,
};
use vstd::prelude::*;

verus! {

/// The status of every step of a flow.
#[derive(Debug)]
pub struct Ui {
    mermaid_src: String,
    states: Vec<(String, NodeState)>,
    live: bool,
}

/// What a `Ui` holds.
pub struct UiView {
    /// The Mermaid source.
    pub src: Seq<char>,
    /// The node id and the status of each step.
    pub states: Seq<(Seq<char>, NodeState)>,
    /// The picture is wanted after every change.
    pub live: bool,
}

impl View for Ui {
    type V = UiView;

    closed spec fn view(&self) -> UiView {
        UiView { src: self.mermaid_src@, states: state_views(self.states@), live: self.live }
    }
}

/// What follows a change: nothing where no picture is wanted, and else the new
/// picture or the error of drawing it.
pub open spec fn is_refresh(u: UiView, r: Result<Option<String>, String>) -> bool {
    let mmd = with_status(u.src, u.states);
    match r {
        Ok(None) => !u.live,
        Ok(Some(svg)) => u.live && is_drawing(mmd, "render SVG: "@, Ok(svg)),
        Err(e) => u.live && is_drawing(mmd, "render SVG: "@, Err(e)),
    }
}

/// A state for each step.
pub open spec fn all_idle(f: FlowView) -> Seq<(Seq<char>, NodeState)> {
    Seq::new(f.steps.len(), |i: int| (f.steps[i].node_id, NodeState::Idle))
}

/// States with one of them changed; a position that is none changes nothing.
pub open spec fn with_state(
    states: Seq<(Seq<char>, NodeState)>,
    i: int,
    s: NodeState,
) -> Seq<(Seq<char>, NodeState)> {
    if 0 <= i < states.len() {
        states.update(i, (states[i].0, s))
    } else {
        states
    }
}

/// The place of a status in a tally: passed, failed or current, skipped or
/// manual, idle.
pub open spec fn place(s: NodeState) -> int {
    match s {
        NodeState::Passed => 0,
        NodeState::Fail => 1,
        NodeState::Current => 1,
        NodeState::Skip => 2,
        NodeState::Manual => 2,
        NodeState::Idle => 3,
    }
}

/// How many states have a place in the tally.
pub open spec fn count(states: Seq<(Seq<char>, NodeState)>, p: int) -> nat
    decreases states.len(),
{
    if states.len() == 0 {
        0
    } else {
        count(states.drop_last(), p) + if place(states.last().1) == p {
            1nat
        } else {
            0nat
        }
    }
}

proof fn lemma_count(states: Seq<(Seq<char>, NodeState)>)
    ensures
        count(states, 0) + count(states, 1) + count(states, 2) + count(states, 3) == states.len(),
    decreases states.len(),
{
    if states.len() > 0 {
        lemma_count(states.drop_last());
    }
}

impl Ui {
    /// A board on which every step of a flow is idle, with the first picture
    /// where pictures are wanted.
    pub fn new(flow: &Flow, live: bool) -> (r: Result<(Self, Option<String>), String>)
        ensures
            match r {
                Ok(p) => p.0@ == (UiView {
                    src: flow@.mermaid_src,
                    states: all_idle(flow@),
                    live,
                }) && is_refresh(p.0@, Ok(p.1)),
                Err(e) => is_refresh(
                    UiView { src: flow@.mermaid_src, states: all_idle(flow@), live },
                    Err(e),
                ),
            },
    {
        let mut states: Vec<(String, NodeState)> = Vec::new();
        let mut i: usize = 0;
        while i < flow.steps.len()
            invariant
                i <= flow.steps.len(),
                states@.len() == i,
                forall|k: int|
                    0 <= k < i ==> state_views(states@)[k] == (
                        (#[trigger] flow@.steps[k]).node_id,
                        NodeState::Idle,
                    ),
            decreases flow.steps.len() - i,
        {
            let ghost before = state_views(states@);
            let step = &flow.steps[i];
            states.push((step.node_id.clone(), NodeState::Idle));
            assert(state_views(states@) =~= before.push((step.node_id@, NodeState::Idle)));
            assert(flow@.steps[i as int].node_id == step.node_id@);
            i += 1;
        }
        assert(state_views(states@) =~= all_idle(flow@));
        let ui = Ui { mermaid_src: flow.mermaid_src.clone(), states, live };
        match ui.refresh() {
            Ok(svg) => Ok((ui, svg)),
            Err(e) => Err(e),
        }
    }

    /// The picture as it is now, where pictures are wanted.
    pub fn refresh(&self) -> (r: Result<Option<String>, String>)
        ensures
            is_refresh(self@, r),
    {
        if !self.live {
            return Ok(None);
        }
        match render_status_svg(self.mermaid_src.as_str(), self.states.as_slice()) {
            Ok(svg) => Ok(Some(svg)),
            Err(e) => Err(e),
        }
    }

    /// Changes the status of a step.
    pub fn set(&mut self, i: usize, s: NodeState) -> (r: Result<Option<String>, String>)
        ensures
            final(self)@ == (UiView {
                states: with_state(old(self)@.states, i as int, s),
                ..old(self)@
            }),
            is_refresh(final(self)@, r),
    {
        let ghost before = self@.states;
        if i < self.states.len() {
            let id = self.states[i].0.clone();
            self.states.set(i, (id, s));
        }
        assert(self@.states =~= with_state(before, i as int, s));
        self.refresh()
    }

    /// The step is being run.
    pub fn set_current(&mut self, i: usize) -> (r: Result<Option<String>, String>)
        ensures
            final(self)@ == (UiView {
                states: with_state(old(self)@.states, i as int, NodeState::Current),
                ..old(self)@
            }),
            is_refresh(final(self)@, r),
    {
        self.set(i, NodeState::Current)
    }

    /// The step passed.
    pub fn set_ok(&mut self, i: usize) -> (r: Result<Option<String>, String>)
        ensures
            final(self)@ == (UiView {
                states: with_state(old(self)@.states, i as int, NodeState::Passed),
                ..old(self)@
            }),
            is_refresh(final(self)@, r),
    {
        self.set(i, NodeState::Passed)
    }

    /// The step failed.
    pub fn set_fail(&mut self, i: usize) -> (r: Result<Option<String>, String>)
        ensures
            final(self)@ == (UiView {
                states: with_state(old(self)@.states, i as int, NodeState::Fail),
                ..old(self)@
            }),
            is_refresh(final(self)@, r),
    {
        self.set(i, NodeState::Fail)
    }

    /// The step was skipped.
    pub fn set_skip(&mut self, i: usize) -> (r: Result<Option<String>, String>)
        ensures
            final(self)@ == (UiView {
                states: with_state(old(self)@.states, i as int, NodeState::Skip),
                ..old(self)@
            }),
            is_refresh(final(self)@, r),
    {
        self.set(i, NodeState::Skip)
    }

    /// The step is done by hand.
    pub fn set_manual(&mut self, i: usize) -> (r: Result<Option<String>, String>)
        ensures
            final(self)@ == (UiView {
                states: with_state(old(self)@.states, i as int, NodeState::Manual),
                ..old(self)@
            }),
            is_refresh(final(self)@, r),
    {
        self.set(i, NodeState::Manual)
    }

    /// How many steps passed, failed or are current, were skipped or done by
    /// hand, and are idle. Every step is counted once.
    pub fn tally(&self) -> (r: (usize, usize, usize, usize))
        ensures
            r.0 == count(self@.states, 0),
            r.1 == count(self@.states, 1),
            r.2 == count(self@.states, 2),
            r.3 == count(self@.states, 3),
            r.0 + r.1 + r.2 + r.3 == self@.states.len(),
    {
        let ghost all = self@.states;
        let mut t: (usize, usize, usize, usize) = (0, 0, 0, 0);
        let mut i: usize = 0;
        while i < self.states.len()
            invariant
                all == state_views(self.states@),
                i <= self.states.len(),
                t.0 == count(all.take(i as int), 0),
                t.1 == count(all.take(i as int), 1),
                t.2 == count(all.take(i as int), 2),
                t.3 == count(all.take(i as int), 3),
            decreases self.states.len() - i,
        {
            proof {
                lemma_count(all.take(i as int));
                assert(all.take(i + 1).drop_last() =~= all.take(i as int));
            }
            match self.states[i].1 {
                NodeState::Passed => {
                    t.0 = t.0 + 1;
                },
                NodeState::Fail | NodeState::Current => {
                    t.1 = t.1 + 1;
                },
                NodeState::Skip | NodeState::Manual => {
                    t.2 = t.2 + 1;
                },
                NodeState::Idle => {
                    t.3 = t.3 + 1;
                },
            }
            i += 1;
        }
        proof {
            assert(all.take(i as int) =~= all);
            lemma_count(all);
        }
        t
    }
}

/// The greatest number of lines that are shown of a document.
pub const SHOWN_LINES: usize = 40;

/// The greatest number of characters that are shown of the response to a failed
/// step.
pub const SHOWN_CHARS: usize = 1500;

/// Lines, each behind a line break and an indent, and a mark where there are
/// more than are shown.
pub open spec fn indented(
    ls: Seq<Seq<char>>,
    indent: Seq<char>,
    mark: Seq<char>,
    at: int,
) -> Seq<char>
    decreases ls.len() - at,
{
    if at < 0 || at >= ls.len() {
        seq![]
    } else if at >= SHOWN_LINES {
        "\n"@ + indent + mark
    } else {
        "\n"@ + indent + ls[at] + indented(ls, indent, mark, at + 1)
    }
}

/// A document over several lines, with an indent, and cut with a mark after the
/// lines that are shown.
pub open spec fn shown_json(v: JsonView, indent: Seq<char>, mark: Seq<char>) -> Seq<char> {
    indented(lines(json_pretty_display(v)), indent, mark, 0)
}

/// A document over several lines, with an indent, and cut with a mark.
pub fn show_json(v: &serde_json::Value, indent: &str, mark: &str) -> (r: String)
    ensures
        r@ == shown_json(json_view(*v), indent@, mark@),
{
    let p = json_to_string_pretty(v);
    let ls = lines_of(p.as_str());
    let ghost all = lines(json_pretty_display(json_view(*v)));
    let mut out = String::new();
    let mut i: usize = 0;
    assert(out@ + indented(all, indent@, mark@, 0) =~= indented(all, indent@, mark@, 0));
    while i < ls.len()
        invariant
            all == texts(ls@),
            all == lines(json_pretty_display(json_view(*v))),
            i <= ls.len(),
            out@ + indented(all, indent@, mark@, i as int) == indented(all, indent@, mark@, 0),
        decreases ls.len() - i,
    {
        let ghost before = out@;
        if i >= SHOWN_LINES {
            out.append("\n");
            out.append(indent);
            out.append(mark);
            assert(out@ =~= before + indented(all, indent@, mark@, i as int));
            return out;
        }
        out.append("\n");
        out.append(indent);
        out.append(ls[i].as_str());
        assert(out@ + indented(all, indent@, mark@, i + 1) =~= before + indented(
            all,
            indent@,
            mark@,
            i as int,
        ));
        i += 1;
    }
    assert(out@ =~= out@ + indented(all, indent@, mark@, i as int));
    out
}

/// A document for the terminal.
pub fn pretty(v: &serde_json::Value, indent: &str) -> (r: String)
    ensures
        r@ == shown_json(json_view(*v), indent@, "… (dipangkas)"@),
{
    show_json(v, indent, "… (dipangkas)")
}

/// What is shown of the response to a failed step.
pub open spec fn excerpt(p: Seq<char>) -> Seq<char> {
    p.take(
        if p.len() <= SHOWN_CHARS {
            p.len() as int
        } else {
            SHOWN_CHARS as int
        },
    ) + if utf8_len(p) > SHOWN_CHARS {
        " …"@
    } else {
        seq![]
    }
}

fn excerpt_of(p: &str) -> (r: String)
    ensures
        r@ == excerpt(p@),
{
    let n: usize = chars_of(p).len();
    let k: usize = if n <= SHOWN_CHARS {
        n
    } else {
        SHOWN_CHARS
    };
    let mut out = p.substring_char(0, k).to_owned();
    assert(p@.subrange(0, k as int) =~= p@.take(k as int));
    if p.len() > SHOWN_CHARS {
        out.append(" …");
    }
    assert(out@ =~= excerpt(p@));
    out
}

/// `HTTP 200 (15 ms)`.
pub open spec fn timing(status: u16, ms: nat) -> Seq<char> {
    "HTTP "@ + decimal(status as nat) + " ("@ + decimal(ms) + " ms)"@
}

fn timing_of(status: u16, ms: u128) -> (r: String)
    ensures
        r@ == timing(status, ms as nat),
{
    "HTTP ".to_owned().concat(decimal_of(status as u128).as_str()).concat(" (").concat(
        decimal_of(ms).as_str(),
    ).concat(" ms)")
}

/// A text behind a label, as a list of one line, where there is a text.
pub open spec fn labelled(label: Seq<char>, t: Option<Seq<char>>) -> Seq<Seq<char>> {
    match t {
        Some(s) => seq![label + s],
        None => seq![],
    }
}

/// A document behind a label, as a list of one entry, where there is one.
pub open spec fn labelled_json(label: Seq<char>, t: Option<JsonView>) -> Seq<Seq<char>> {
    match t {
        Some(v) => seq![label + shown_json(v, "      "@, "… (dipangkas)"@)],
        None => seq![],
    }
}

/// What is shown of the request of a step.
pub open spec fn request_lines(rep: StepReportView) -> Seq<Seq<char>> {
    labelled("   → "@, rep.request_line) + labelled("   🔑 auth    : "@, rep.auth_info)
        + labelled_json("   ⇢ payload :"@, rep.request_body) + labelled("   $ "@, rep.curl)
}

/// What is shown of the outcome of a step.
pub open spec fn outcome_lines(rep: StepReportView) -> Seq<Seq<char>> {
    match rep.outcome {
        OutcomeView::Passed => labelled_json("   ⇠ response:"@, rep.body).push(
            "   ✅ "@ + timing(
                match rep.http_status {
                    Some(s) => s,
                    None => 0,
                },
                rep.ms,
            ),
        ),
        OutcomeView::Failed(msg) => seq!["   ❌ GAGAL: "@ + msg] + (match rep.http_status {
            Some(s) => seq!["      "@ + timing(s, rep.ms)],
            None => seq![],
        }) + (match rep.body {
            Some(b) => seq!["      body: "@ + excerpt(json_pretty_display(b))],
            None => seq![],
        }),
        OutcomeView::Skipped(reason) => seq!["   ⏭  skip ("@ + reason + ")"@],
        OutcomeView::Manual => seq!["   ✋ langkah manual"@],
    }
}

/// The report on a step: its request, its outcome, then its notes.
pub open spec fn report_view(rep: StepReportView) -> Seq<Seq<char>> {
    request_lines(rep) + outcome_lines(rep) + rep.notes.map_values(
        |n: Seq<char>| "      "@ + n,
    )
}

fn put(out: &mut Vec<String>, label: &str, t: &str)
    ensures
        texts(final(out)@) == texts(old(out)@).push(label@ + t@),
{
    let ghost before = texts(out@);
    let line = label.to_owned().concat(t);
    out.push(line);
    assert(texts(out@) =~= before.push(line@));
}

fn put_text(out: &mut Vec<String>, label: &str, t: &Option<String>)
    ensures
        texts(final(out)@) == texts(old(out)@) + labelled(label@, opt_text(*t)),
{
    match t {
        Some(s) => {
            put(out, label, s.as_str());
        },
        None => {},
    }
    assert(texts(out@) =~= texts(old(out)@) + labelled(label@, opt_text(*t)));
}

fn put_json(out: &mut Vec<String>, label: &str, t: &Option<serde_json::Value>)
    ensures
        texts(final(out)@) == texts(old(out)@) + labelled_json(label@, opt_json(*t)),
{
    match t {
        Some(v) => {
            put(out, label, pretty(v, "      ").as_str());
        },
        None => {},
    }
    assert(texts(out@) =~= texts(old(out)@) + labelled_json(label@, opt_json(*t)));
}

fn put_outcome(out: &mut Vec<String>, rep: &StepReport)
    ensures
        texts(final(out)@) == texts(old(out)@) + outcome_lines(rep@),
{
    match &rep.outcome {
        Outcome::Passed => {
            put_json(out, "   ⇠ response:", &rep.body);
            let status = match rep.http_status {
                Some(s) => s,
                None => 0,
            };
            put(out, "   ✅ ", timing_of(status, rep.ms).as_str());
        },
        Outcome::Failed(msg) => {
            put(out, "   ❌ GAGAL: ", msg.as_str());
            match rep.http_status {
                Some(s) => {
                    put(out, "      ", timing_of(s, rep.ms).as_str());
                },
                None => {},
            }
            match &rep.body {
                Some(b) => {
                    put(
                        out,
                        "      body: ",
                        excerpt_of(json_to_string_pretty(b).as_str()).as_str(),
                    );
                },
                None => {},
            }
        },
        Outcome::Skipped(reason) => {
            put(out, "   ⏭  skip (", reason.clone().concat(")").as_str());
            assert("   ⏭  skip ("@ + (reason@ + ")"@) =~= "   ⏭  skip ("@ + reason@ + ")"@);
        },
        Outcome::Manual => {
            put(out, "   ✋ langkah manual", "");
            proof {
                reveal_strlit("");
            }
            assert("   ✋ langkah manual"@ + ""@ =~= "   ✋ langkah manual"@);
        },
    }
    assert(texts(out@) =~= texts(old(out)@) + outcome_lines(rep@));
}

/// The report on a step, as the lines to print.
pub fn report_lines(rep: &StepReport) -> (r: Vec<String>)
    ensures
        texts(r@) == report_view(rep@),
{
    let mut out: Vec<String> = Vec::new();
    put_text(&mut out, "   → ", &rep.request_line);
    put_text(&mut out, "   🔑 auth    : ", &rep.auth_info);
    put_json(&mut out, "   ⇢ payload :", &rep.request_body);
    put_text(&mut out, "   $ ", &rep.curl);
    assert(texts(out@) =~= request_lines(rep@));
    put_outcome(&mut out, rep);
    let ghost head = request_lines(rep@) + outcome_lines(rep@);
    let ghost notes = rep@.notes.map_values(|n: Seq<char>| "      "@ + n);
    let mut i: usize = 0;
    assert(texts(out@) =~= head + notes.take(0));
    while i < rep.notes.len()
        invariant
            notes == rep@.notes.map_values(|n: Seq<char>| "      "@ + n),
            i <= rep.notes.len(),
            texts(out@) == head + notes.take(i as int),
        decreases rep.notes.len() - i,
    {
        put(&mut out, "      ", rep.notes[i].as_str());
        assert(notes.take(i + 1) =~= notes.take(i as int).push(notes[i as int]));
        assert(texts(out@) =~= head + notes.take(i + 1));
        i += 1;
    }
    assert(notes.take(i as int) =~= notes);
    out
}

/// A status is set where it is said to be: the step takes it and keeps its id, and
/// every other step keeps its own.
pub proof fn law_a_status_is_set_at_its_step(
    states: Seq<(Seq<char>, NodeState)>,
    i: int,
    s: NodeState,
    k: int,
)
    requires
        0 <= k < states.len(),
    ensures
        with_state(states, i, s).len() == states.len(),
        with_state(states, i, s)[k].0 == states[k].0,
        with_state(states, i, s)[k].1 == if k == i {
            s
        } else {
            states[k].1
        },
{
}

/// The tally counts every step once: as passed; as failed, which a step that is being
/// run counts as; as skipped, which a manual step counts as; or as idle.
pub proof fn law_every_step_is_tallied_once(
    a: Seq<(Seq<char>, NodeState)>,
    id: Seq<char>,
    s: NodeState,
    p: int,
)
    ensures
        count(seq![], p) == 0,
        count(a + seq![(id, s)], p) == count(a, p) + if p == match s {
            NodeState::Passed => 0int,
            NodeState::Fail | NodeState::Current => 1int,
            NodeState::Skip | NodeState::Manual => 2int,
            NodeState::Idle => 3int,
        } {
            1nat
        } else {
            0nat
        },
{
    assert((a + seq![(id, s)]).drop_last() =~= a);
    assert((a + seq![(id, s)]).last() == (id, s));
}

proof fn lemma_indented(
    ls: Seq<Seq<char>>,
    indent: Seq<char>,
    mark: Seq<char>,
    at: int,
    n: int,
)
    requires
        0 <= at <= n <= ls.len(),
        n <= SHOWN_LINES,
    ensures
        indented(ls, indent, mark, at) == joined(
            Seq::new((n - at) as nat, |i: int| "\n"@ + indent + ls[at + i]),
            seq![],
        ) + indented(ls, indent, mark, n),
    decreases n - at,
{
    let none = Seq::<char>::empty();
    let all = Seq::new((n - at) as nat, |i: int| "\n"@ + indent + ls[at + i]);
    if at == n {
        assert(none + indented(ls, indent, mark, n) =~= indented(ls, indent, mark, n));
        assert(all =~= seq![]);
    } else {
        lemma_indented(ls, indent, mark, at + 1, n);
        let rest = Seq::new((n - at - 1) as nat, |i: int| "\n"@ + indent + ls[at + 1 + i]);
        let first = "\n"@ + indent + ls[at];
        assert(all =~= seq![first] + rest);
        if rest.len() > 0 {
            law_joined_texts(seq![first], rest, first, none);
            assert(first + none + joined(rest, none) + indented(ls, indent, mark, n) =~= first + (
            joined(rest, none) + indented(ls, indent, mark, n)));
            assert(joined(seq![first], none) == first);
        } else {
            assert(all =~= seq![first]);
            assert(rest =~= seq![]);
            assert(joined(rest, none) + indented(ls, indent, mark, n) =~= indented(
                ls,
                indent,
                mark,
                n,
            ));
        }
    }
}

/// A document is shown line by line, each line after a line feed and an indent: all
/// of it where it has forty lines or fewer, and else its first forty lines and a mark.
pub proof fn law_documents_are_shown_line_by_line(
    ls: Seq<Seq<char>>,
    indent: Seq<char>,
    mark: Seq<char>,
)
    ensures
        ls.len() <= 40 ==> indented(ls, indent, mark, 0) == joined(
            Seq::new(ls.len(), |i: int| "\n"@ + indent + ls[i]),
            seq![],
        ),
        ls.len() > 40 ==> indented(ls, indent, mark, 0) == joined(
            Seq::new(40, |i: int| "\n"@ + indent + ls[i]),
            seq![],
        ) + "\n"@ + indent + mark,
{
    let n: int = if ls.len() <= 40 {
        ls.len() as int
    } else {
        40
    };
    lemma_indented(ls, indent, mark, 0, n);
    let a = Seq::new((n - 0) as nat, |i: int| "\n"@ + indent + ls[0 + i]);
    let b = Seq::new(n as nat, |i: int| "\n"@ + indent + ls[i]);
    assert(a =~= b);
    let shown = joined(b, seq![]);
    if ls.len() <= 40 {
        assert(b =~= Seq::new(ls.len(), |i: int| "\n"@ + indent + ls[i]));
        assert(shown + Seq::<char>::empty() =~= shown);
    } else {
        assert(b =~= Seq::new(40, |i: int| "\n"@ + indent + ls[i]));
        assert(shown + ("\n"@ + indent + mark) =~= shown + "\n"@ + indent + mark);
    }
}

/// Of the response to a failed step the first fifteen hundred characters are shown,
/// and a mark behind them where it takes more bytes than that.
pub proof fn law_excerpts_show_the_beginning(p: Seq<char>)
    ensures
        p.len() <= 1500 ==> p.is_prefix_of(excerpt(p)),
        p.len() > 1500 ==> p.take(1500).is_prefix_of(excerpt(p)),
        excerpt(p).len() == (if p.len() <= 1500 {
            p.len() as int
        } else {
            1500
        }) + if utf8_len(p) > 1500 {
            2int
        } else {
            0int
        },
{
    reveal_strlit(" …");
    let e = excerpt(p);
    if p.len() <= 1500 {
        assert(e.take(p.len() as int) =~= p);
    } else {
        assert(e.take(1500) =~= p.take(1500));
    }
}

/// A report is printed whole: what is known of the request, in the order line, token,
/// payload, curl; then the outcome; then every note, in their order. A step that
/// passed shows the response and the status with its time; one that failed shows
/// why, the status with its time where there is one, and the response; one that was
/// skipped shows why.
pub proof fn law_reports_are_printed_whole(rep: StepReportView)
    ensures
        ({
            let t = report_view(rep);
            let n = rep.notes.len();
            let known = (if rep.request_line is Some {
                1int
            } else {
                0
            }) + (if rep.auth_info is Some {
                1int
            } else {
                0
            }) + (if rep.request_body is Some {
                1int
            } else {
                0
            }) + (if rep.curl is Some {
                1int
            } else {
                0
            });
            let time = |s: u16| "HTTP "@ + decimal(s as nat) + " ("@ + decimal(rep.ms) + " ms)"@;
            &&& t.len() >= known + 1 + n
            &&& rep.request_line matches Some(x) ==> t[0] == "   → "@ + x
            &&& rep.curl matches Some(x) ==> t[known - 1] == "   $ "@ + x
            &&& rep.request_line is None ==> (rep.auth_info matches Some(x) ==> t[0]
                == "   🔑 auth    : "@ + x)
            &&& rep.request_line is Some ==> (rep.auth_info matches Some(x) ==> t[1]
                == "   🔑 auth    : "@ + x)
            &&& forall|i: int|
                0 <= i < n ==> t[t.len() - n + i] == "      "@ + #[trigger] rep.notes[i]
            &&& match rep.outcome {
                OutcomeView::Passed => {
                    &&& t.len() == known + 1 + n + if rep.body is Some {
                        1int
                    } else {
                        0
                    }
                    &&& t[t.len() - n - 1] == "   ✅ "@ + time(
                        match rep.http_status {
                            Some(s) => s,
                            None => 0,
                        },
                    )
                    &&& rep.body matches Some(b) ==> t[known] == "   ⇠ response:"@ + shown_json(
                        b,
                        "      "@,
                        "… (dipangkas)"@,
                    )
                },
                OutcomeView::Failed(why) => {
                    &&& t[known] == "   ❌ GAGAL: "@ + why
                    &&& rep.http_status matches Some(s) ==> t[known + 1] == "      "@ + time(s)
                    &&& rep.body matches Some(b) ==> t[t.len() - n - 1] == "      body: "@
                        + excerpt(json_pretty_display(b))
                    &&& t.len() == known + 1 + n + (if rep.http_status is Some {
                        1int
                    } else {
                        0
                    }) + if rep.body is Some {
                        1int
                    } else {
                        0
                    }
                },
                OutcomeView::Skipped(why) => t.len() == known + 1 + n && t[known]
                    == "   ⏭  skip ("@ + why + ")"@,
                OutcomeView::Manual => t.len() == known + 1 + n && t[known]
                    == "   ✋ langkah manual"@,
            }
        }),
{
    let q = request_lines(rep);
    let o = outcome_lines(rep);
    let notes = rep.notes.map_values(|n: Seq<char>| "      "@ + n);
    let t = report_view(rep);
    let n = rep.notes.len();
    assert(t =~= q + o + notes);
    assert(notes.len() == n);
    assert forall|i: int| 0 <= i < n implies t[t.len() - n + i] == "      "@
        + #[trigger] rep.notes[i] by {
        assert(t[t.len() - n + i] == notes[i]);
    }
}

/// A board begins with every step of its flow idle, and draws exactly where pictures
/// are wanted: its own source with the status of all its steps.
pub proof fn law_boards_draw_what_they_hold(
    f: FlowView,
    u: UiView,
    r: Result<Option<String>, String>,
)
    requires
        is_refresh(u, r),
    ensures
        all_idle(f).len() == f.steps.len(),
        forall|i: int|
            0 <= i < f.steps.len() ==> #[trigger] all_idle(f)[i] == (
                f.steps[i].node_id,
                NodeState::Idle,
            ),
        r == Ok::<Option<String>, String>(None) <==> !u.live,
        r matches Ok(Some(svg)) ==> is_drawing(
            with_status(u.src, u.states),
            "render SVG: "@,
            Ok(svg),
        ),
        r matches Err(e) ==> is_drawing(with_status(u.src, u.states), "render SVG: "@, Err(e)),
{
}

} // verus!
