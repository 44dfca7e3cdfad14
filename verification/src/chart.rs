//! Charts written in Mermaid: the boundary to `flowmaid`.

use crate::config::opt_text;
use flowmaid::Document;
use vstd::prelude::*;

verus! {

/// A node of a chart.
pub struct ChartNode {
    pub id: String,
    pub label: String,
}

/// An edge of a chart; its ends are positions in the list of nodes.
pub struct ChartEdge {
    pub from: usize,
    pub to: usize,
    pub label: Option<String>,
}

/// A flowchart or a state diagram, as far as a runner reads it.
pub struct Chart {
    pub nodes: Vec<ChartNode>,
    pub edges: Vec<ChartEdge>,
}

/// What a Mermaid source turned out to be.
pub enum Parsed {
    Chart(Chart),
    /// A pie chart or a mindmap, and the debug text of its type.
    Round(String),
    /// A diagram of another type, and the debug text of its type.
    Other(String),
    /// Not a diagram, and the debug text of the error.
    Failed(String),
}

/// What a `ChartNode` holds.
pub struct ChartNodeView {
    pub id: Seq<char>,
    pub label: Seq<char>,
}

/// What a `ChartEdge` holds.
pub struct ChartEdgeView {
    pub from: int,
    pub to: int,
    pub label: Option<Seq<char>>,
}

/// What a `Chart` holds.
pub struct ChartView {
    pub nodes: Seq<ChartNodeView>,
    pub edges: Seq<ChartEdgeView>,
}

/// What a `Parsed` holds.
pub enum ParsedView {
    Chart(ChartView),
    Round(Seq<char>),
    Other(Seq<char>),
    Failed(Seq<char>),
}

impl View for ChartNode {
    type V = ChartNodeView;

    open spec fn view(&self) -> ChartNodeView {
        ChartNodeView { id: self.id@, label: self.label@ }
    }
}

impl View for ChartEdge {
    type V = ChartEdgeView;

    open spec fn view(&self) -> ChartEdgeView {
        ChartEdgeView { from: self.from as int, to: self.to as int, label: opt_text(self.label) }
    }
}

impl View for Chart {
    type V = ChartView;

    open spec fn view(&self) -> ChartView {
        ChartView {
            nodes: Seq::new(self.nodes@.len(), |i: int| self.nodes@[i]@),
            edges: Seq::new(self.edges@.len(), |i: int| self.edges@[i]@),
        }
    }
}

impl View for Parsed {
    type V = ParsedView;

    open spec fn view(&self) -> ParsedView {
        match self {
            Parsed::Chart(c) => ParsedView::Chart(c@),
            Parsed::Round(s) => ParsedView::Round(s@),
            Parsed::Other(s) => ParsedView::Other(s@),
            Parsed::Failed(s) => ParsedView::Failed(s@),
        }
    }
}

/// What `flowmaid::parser::parse_document` reads from a Mermaid source.
pub uninterp spec fn flowmaid_parse(src: Seq<char>) -> ParsedView;

/// The SVG that `flowmaid::render_svg` draws of a diagram that is no pie chart
/// and no mindmap.
pub uninterp spec fn flowmaid_svg(src: Seq<char>) -> Seq<char>;

/// Calls `flowmaid::parser::parse_document` and keeps of a flowchart or a state
/// diagram the ids and labels of the nodes and the ends and labels of the
/// edges, in their order.
#[verifier::external_body]
pub(crate) fn parse_chart(src: &str) -> (r: Parsed)
    ensures
        r@ == flowmaid_parse(src@),
{
    match flowmaid::parser::parse_document(src) {
        Ok(Document::Flowchart(g) | Document::State(g)) => {
            Parsed::Chart(Chart {
                nodes: g.nodes.into_iter().map(|n| ChartNode { id: n.id, label: n.label }).collect(),
                edges: g.edges.into_iter().map(|e| ChartEdge { from: e.from, to: e.to, label: e.label }).collect(),
            })
        },
        Ok(round @ (Document::Pie(_) | Document::Mindmap(_))) => {
            Parsed::Round(format!("{:?}", std::mem::discriminant(&round)))
        },
        Ok(other) => Parsed::Other(format!("{:?}", std::mem::discriminant(&other))),
        Err(e) => Parsed::Failed(format!("{e:?}")),
    }
}

/// Calls `flowmaid::render_svg`. It fails exactly where the source cannot be
/// parsed, and then with the error of the parser. Every drawing begins with an
/// `<svg` tag. The drawing is a function of the source, except for a pie chart and
/// a mindmap: those are laid out with trigonometric functions, whose last digits
/// are the platform's, so of them no more than the tag is promised.
#[verifier::external_body]
pub(crate) fn render_svg(src: &str) -> (r: Result<String, String>)
    ensures
        match flowmaid_parse(src@) {
            ParsedView::Chart(_) => r is Ok && r->Ok_0@ == flowmaid_svg(src@),
            ParsedView::Other(_) => r is Ok && r->Ok_0@ == flowmaid_svg(src@),
            ParsedView::Round(_) => r is Ok,
            ParsedView::Failed(e) => r is Err && r->Err_0@ == e,
        },
        r matches Ok(svg) ==> "<svg "@.is_prefix_of(svg@),
{
    flowmaid::render_svg(src).map_err(|e| format!("{e:?}"))
}

} // verus!
