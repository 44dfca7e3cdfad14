//! The status picture: the Mermaid source with the status of each node laid over
//! it, drawn as SVG, and the replies of the preview server.

use crate::chart::{flowmaid_parse, flowmaid_svg, render_svg, ParsedView};
use crate::text::{
    decimal, decimal_of, is_space, law_strip_takes_the_end, occurs_at, starts_with, strip_end,
    strip_end_of, utf8_len, Strip,
};
use vstd::prelude::*;

verus! {

/// The status of a node.
#[derive(Debug, Clone, Copy, PartialEq, Eq, Structural)]
pub enum NodeState {
    Idle,
    Current,
    Passed,
    Fail,
    Skip,
    Manual,
}

/// The class that shows a status; an idle node has none.
pub open spec fn class_of(s: NodeState) -> Option<Seq<char>> {
    match s {
        NodeState::Idle => None,
        NodeState::Current => Some("frCur"@),
        NodeState::Passed => Some("frOk"@),
        NodeState::Fail => Some("frFail"@),
        NodeState::Skip => Some("frSkip"@),
        NodeState::Manual => Some("frMan"@),
    }
}

impl NodeState {
    /// The class that shows the status.
    pub fn class(self) -> (r: Option<&'static str>)
        ensures
            match r {
                Some(c) => class_of(self) == Some(c@),
                None => class_of(self) is None,
            },
    {
        match self {
            NodeState::Idle => None,
            NodeState::Current => Some("frCur"),
            NodeState::Passed => Some("frOk"),
            NodeState::Fail => Some("frFail"),
            NodeState::Skip => Some("frSkip"),
            NodeState::Manual => Some("frMan"),
        }
    }
}

/// The definitions of the status classes.
pub const STATUS_CLASSDEFS: &'static str = "\
classDef frCur fill:#eab308,stroke:#a16207,color:#1c1400
classDef frOk fill:#22c55e,stroke:#15803d,color:#052e12
classDef frFail fill:#ef4444,stroke:#b91c1c,color:#fff
classDef frSkip fill:#94a3b8,stroke:#64748b,color:#111
classDef frMan fill:#a78bfa,stroke:#7c3aed,color:#1e1033";

/// The ids and states of a list of nodes.
pub open spec fn state_views(v: Seq<(String, NodeState)>) -> Seq<(Seq<char>, NodeState)> {
    Seq::new(v.len(), |i: int| (v[i].0@, v[i].1))
}

/// One line per node that is not idle: `class id name`.
pub open spec fn class_lines(states: Seq<(Seq<char>, NodeState)>) -> Seq<char>
    decreases states.len(),
{
    if states.len() == 0 {
        seq![]
    } else {
        let before = class_lines(states.drop_last());
        match class_of(states.last().1) {
            Some(c) => before + "class "@ + states.last().0 + " "@ + c + "\n"@,
            None => before,
        }
    }
}

/// The source without white space at its end, then the class definitions, then
/// the class of each node.
pub open spec fn with_status(src: Seq<char>, states: Seq<(Seq<char>, NodeState)>) -> Seq<char> {
    strip_end(src, Strip::Space) + "\n"@ + STATUS_CLASSDEFS@ + "\n"@ + class_lines(states)
}

/// The Mermaid source with the status of each node appended.
pub fn mermaid_with_status(src: &str, states: &[(String, NodeState)]) -> (r: String)
    ensures
        r@ == with_status(src@, state_views(states@)),
{
    let ghost all = state_views(states@);
    let mut out = strip_end_of(src, Strip::Space);
    out.append("\n");
    out.append(STATUS_CLASSDEFS);
    out.append("\n");
    let ghost head = out@;
    let mut i: usize = 0;
    assert(out@ =~= head + class_lines(all.take(0)));
    while i < states.len()
        invariant
            all == state_views(states@),
            i <= states.len(),
            out@ == head + class_lines(all.take(i as int)),
        decreases states.len() - i,
    {
        let (id, st) = (&states[i].0, states[i].1);
        let ghost before = out@;
        proof {
            assert(all.take(i + 1).drop_last() =~= all.take(i as int));
            assert(all.take(i + 1).last() == (id@, st));
        }
        match st.class() {
            Some(c) => {
                out.append("class ");
                out.append(id.as_str());
                out.append(" ");
                out.append(c);
                out.append("\n");
            },
            None => {},
        }
        assert(out@ =~= head + class_lines(all.take(i + 1)));
        i += 1;
    }
    assert(all.take(i as int) =~= all);
    out
}

/// What drawing a Mermaid source comes to: the SVG of the diagram, which begins
/// with an `<svg` tag, or the error of the parser behind a prefix. Of a pie chart
/// or a mindmap it is some SVG, since the last digits of its coordinates are the
/// platform's.
pub open spec fn is_drawing(
    mmd: Seq<char>,
    prefix: Seq<char>,
    r: Result<String, String>,
) -> bool {
    match flowmaid_parse(mmd) {
        ParsedView::Chart(_) | ParsedView::Other(_) => r is Ok && r->Ok_0@ == flowmaid_svg(mmd)
            && "<svg "@.is_prefix_of(r->Ok_0@),
        ParsedView::Round(_) => r is Ok && "<svg "@.is_prefix_of(r->Ok_0@),
        ParsedView::Failed(e) => r is Err && r->Err_0@ == prefix + e,
    }
}

fn draw(mmd: &str, prefix: &str) -> (r: Result<String, String>)
    ensures
        is_drawing(mmd@, prefix@, r),
{
    match render_svg(mmd) {
        Ok(svg) => Ok(svg),
        Err(e) => Err(prefix.to_owned().concat(e.as_str())),
    }
}

/// Draws the source with the status of each node.
pub fn render_status_svg(src: &str, states: &[(String, NodeState)]) -> (r: Result<String, String>)
    ensures
        is_drawing(with_status(src@, state_views(states@)), "render SVG: "@, r),
{
    draw(mermaid_with_status(src, states).as_str(), "render SVG: ")
}

/// Draws the source as it is.
pub fn render_source_svg(src: &str) -> (r: Result<String, String>)
    ensures
        is_drawing(src@, "render: "@, r),
{
    draw(src, "render: ")
}

/// The page of the preview server, which loads the picture every second.
pub const PREVIEW_PAGE: &'static str = "<!doctype html><meta http-equiv=refresh content=1>\
<body style=\"background:#14161b;margin:24px\">\
<img src=/flow.svg style=\"max-width:100%\"></body>";

/// The start of a request for the picture.
pub const PREVIEW_SVG_REQUEST: &'static str = "GET /flow.svg";

/// A reply of the preview server.
pub open spec fn framed(ctype: Seq<char>, body: Seq<char>) -> Seq<char> {
    "HTTP/1.1 200 OK\r\nContent-Type: "@ + ctype + "\r\nContent-Length: "@ + decimal(
        utf8_len(body) as nat,
    ) + "\r\nConnection: close\r\n\r\n"@ + body
}

/// Answers a request to the preview server: the picture where the request asks
/// for it, and else the page.
pub fn preview_reply(request: &str, svg: &str) -> (r: String)
    ensures
        r@ == if PREVIEW_SVG_REQUEST@.is_prefix_of(request@) {
            framed("image/svg+xml"@, svg@)
        } else {
            framed("text/html; charset=utf-8"@, PREVIEW_PAGE@)
        },
{
    let (ctype, body) = if starts_with(request, PREVIEW_SVG_REQUEST) {
        ("image/svg+xml", svg)
    } else {
        ("text/html; charset=utf-8", PREVIEW_PAGE)
    };
    "HTTP/1.1 200 OK\r\nContent-Type: ".to_owned().concat(ctype).concat(
        "\r\nContent-Length: ",
    ).concat(decimal_of(body.len() as u128).as_str()).concat(
        "\r\nConnection: close\r\n\r\n",
    ).concat(body)
}

/// The source is never changed: up to white space at its end it stands at the
/// start of the picture's source.
pub proof fn law_source_is_kept(src: Seq<char>, states: Seq<(Seq<char>, NodeState)>)
    ensures
        strip_end(src, Strip::Space).is_prefix_of(with_status(src, states)),
        strip_end(src, Strip::Space).is_prefix_of(src),
{
    lemma_strip_end_prefix(src, Strip::Space);
    let s = strip_end(src, Strip::Space);
    assert(with_status(src, states).take(s.len() as int) =~= s);
}

proof fn lemma_strip_end_prefix(s: Seq<char>, k: Strip)
    ensures
        strip_end(s, k).is_prefix_of(s),
    decreases s.len(),
{
    if s.len() > 0 && k.drops(s.last()) {
        lemma_strip_end_prefix(s.drop_last(), k);
    }
}

/// A node that is not idle is given its class, whatever the other nodes are.
pub proof fn law_every_active_node_is_classed(
    src: Seq<char>,
    states: Seq<(Seq<char>, NodeState)>,
    i: int,
)
    requires
        0 <= i < states.len(),
        states[i].1 != NodeState::Idle,
    ensures
        exists|at: int|
            occurs_at(
                with_status(src, states),
                "class "@ + states[i].0 + " "@ + class_of(states[i].1)->Some_0 + "\n"@,
                at,
            ),
{
    let at = lemma_class_line(states, i);
    let line = "class "@ + states[i].0 + " "@ + class_of(states[i].1)->Some_0 + "\n"@;
    let tail = class_lines(states);
    let all = with_status(src, states);
    let n = all.len() - tail.len();
    assert(all.subrange(n + at, n + at + line.len()) =~= tail.subrange(at, at + line.len()));
    assert(occurs_at(all, line, n + at));
}

proof fn lemma_class_line(states: Seq<(Seq<char>, NodeState)>, i: int) -> (at: int)
    requires
        0 <= i < states.len(),
        states[i].1 != NodeState::Idle,
    ensures
        occurs_at(
            class_lines(states),
            "class "@ + states[i].0 + " "@ + class_of(states[i].1)->Some_0 + "\n"@,
            at,
        ),
    decreases states.len(),
{
    let line = "class "@ + states[i].0 + " "@ + class_of(states[i].1)->Some_0 + "\n"@;
    let front = class_lines(states.drop_last());
    let all = class_lines(states);
    if i < states.len() - 1 {
        let at = lemma_class_line(states.drop_last(), i);
        assert(all.subrange(at, at + line.len()) =~= front.subrange(at, at + line.len()));
        at
    } else {
        let at = front.len() as int;
        assert(all.subrange(at, at + line.len()) =~= line);
        at
    }
}

/// The picture's source is the source without white space at its end, then the
/// definitions of the classes, then for each node that is not idle, in their order,
/// a line that gives it the class of its status. Idle nodes add nothing.
pub proof fn law_status_lines_follow_the_source(
    s: Seq<char>,
    w: Seq<char>,
    a: Seq<(Seq<char>, NodeState)>,
    id: Seq<char>,
    st: NodeState,
    b: Seq<(Seq<char>, NodeState)>,
)
    requires
        s.len() > 0 ==> !is_space(s.last()),
        forall|i: int| 0 <= i < w.len() ==> is_space(#[trigger] w[i]),
    ensures
        with_status(s + w, seq![]) == s + "\n"@ + STATUS_CLASSDEFS@ + "\n"@,
        with_status(s + w, a + b) == with_status(s + w, a) + class_lines(b),
        class_lines(seq![(id, st)]) == match st {
            NodeState::Idle => Seq::<char>::empty(),
            NodeState::Current => "class "@ + id + " "@ + "frCur"@ + "\n"@,
            NodeState::Passed => "class "@ + id + " "@ + "frOk"@ + "\n"@,
            NodeState::Fail => "class "@ + id + " "@ + "frFail"@ + "\n"@,
            NodeState::Skip => "class "@ + id + " "@ + "frSkip"@ + "\n"@,
            NodeState::Manual => "class "@ + id + " "@ + "frMan"@ + "\n"@,
        },
{
    let none = Seq::<char>::empty();
    law_strip_takes_the_end(s, w, Strip::Space);
    lemma_class_lines(a, b);
    let head = s + "\n"@ + STATUS_CLASSDEFS@ + "\n"@;
    assert(head + none =~= head);
    assert(head + (class_lines(a) + class_lines(b)) =~= head + class_lines(a) + class_lines(b));
    reveal_with_fuel(class_lines, 2);
    let one = seq![(id, st)];
    assert(one.drop_last() =~= Seq::<(Seq<char>, NodeState)>::empty());
    assert(one.last() == (id, st));
    assert(none + "class "@ =~= "class "@);
}

proof fn lemma_class_lines(a: Seq<(Seq<char>, NodeState)>, b: Seq<(Seq<char>, NodeState)>)
    ensures
        class_lines(a + b) == class_lines(a) + class_lines(b),
    decreases b.len(),
{
    if b.len() == 0 {
        assert(a + b =~= a);
        assert(class_lines(a) + class_lines(b) =~= class_lines(a));
    } else {
        lemma_class_lines(a, b.drop_last());
        assert((a + b).drop_last() =~= a + b.drop_last());
        assert((a + b).last() == b.last());
        assert(class_lines(a + b) =~= class_lines(a) + class_lines(b));
    }
}

/// A reply of the preview server is its head, which says what it is and how many
/// bytes it has, a blank line, and then all of it.
pub proof fn law_replies_are_framed(ctype: Seq<char>, body: Seq<char>)
    ensures
        ({
            let head = "HTTP/1.1 200 OK\r\nContent-Type: "@ + ctype + "\r\nContent-Length: "@
                + decimal(utf8_len(body) as nat) + "\r\nConnection: close\r\n\r\n"@;
            &&& head.is_prefix_of(framed(ctype, body))
            &&& framed(ctype, body).skip(head.len() as int) == body
        }),
{
    let head = "HTTP/1.1 200 OK\r\nContent-Type: "@ + ctype + "\r\nContent-Length: "@ + decimal(
        utf8_len(body) as nat,
    ) + "\r\nConnection: close\r\n\r\n"@;
    let all = framed(ctype, body);
    assert(all.take(head.len() as int) =~= head);
    assert(all.skip(head.len() as int) =~= body);
}

/// A source that cannot be parsed is not drawn, and the error of the parser stands
/// behind the prefix. Every other source is drawn as SVG, and two drawings of one
/// source are the same, a pie chart or a mindmap aside.
pub proof fn law_sources_are_drawn(
    mmd: Seq<char>,
    prefix: Seq<char>,
    other: Seq<char>,
    r: Result<String, String>,
    q: Result<String, String>,
)
    requires
        is_drawing(mmd, prefix, r),
        is_drawing(mmd, other, q),
    ensures
        r is Err <==> flowmaid_parse(mmd) is Failed,
        r matches Err(e) ==> e@ == prefix + flowmaid_parse(mmd)->Failed_0,
        r matches Ok(svg) ==> "<svg "@.is_prefix_of(svg@),
        r is Ok && !(flowmaid_parse(mmd) is Round) ==> r->Ok_0@ == q->Ok_0@ && r->Ok_0@
            == flowmaid_svg(mmd),
{
}

} // verus!
