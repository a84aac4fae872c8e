//! The code property graph: a `petgraph` directed graph with one node per
//! instruction and edges that are either control flow or data flow.
//!
//! Verus does not look inside `petgraph`. What this module says of the graph
//! is taken on trust from the crate's source: the graph is an arena of nodes
//! and a list of edges, both addressed by position, and nothing is ever
//! removed here.

use crate::ir::Location;
use petgraph::graph::{Graph, NodeIndex};
use petgraph::Directed;
use vstd::prelude::*;
use vstd::string::StringExecFns;

verus! {

/// A node of the graph: the rendered text of an instruction and where it
/// stands in the body.
#[derive(Debug)]
pub struct CpgNode {
    pub label: String,
    pub location: Location,
}

impl View for CpgNode {
    type V = (Seq<char>, int, int);

    open spec fn view(&self) -> (Seq<char>, int, int) {
        (self.label@, self.location.block as int, self.location.statement_index as int)
    }
}

/// The kind of an edge.
#[derive(Debug, Clone, Copy, PartialEq, Eq, Structural)]
pub enum EdgeType {
    /// From a terminator to the first instruction of a successor block.
    ControlFlow,
    /// From the instruction that last assigned a variable to one that
    /// reads it.
    DataFlow,
}

impl EdgeType {
    /// The short name of the kind: `CFG` or `DFG`.
    pub open spec fn spec_label(self) -> Seq<char> {
        match self {
            EdgeType::ControlFlow => "CFG"@,
            EdgeType::DataFlow => "DFG"@,
        }
    }

    /// The short name of the kind: `CFG` or `DFG`.
    pub fn label(&self) -> (name: String)
        ensures
            name@ == self.spec_label(),
    {
        match self {
            EdgeType::ControlFlow => String::from_str("CFG"),
            EdgeType::DataFlow => String::from_str("DFG"),
        }
    }
}

/// The nodes of `g` as `(text, block, index)`: entry `i` belongs to the
/// node with index `i`.
pub uninterp spec fn cpg_nodes(g: Graph<CpgNode, EdgeType, Directed, u32>) -> Seq<
    (Seq<char>, int, int),
>;

/// The edges of `g` as `(source, target, kind)`: entry `k` belongs to the
/// edge with index `k`.
pub uninterp spec fn cpg_edges(g: Graph<CpgNode, EdgeType, Directed, u32>) -> Seq<
    (int, int, EdgeType),
>;

/// `Graph::new`: a directed graph without nodes or edges.
#[verifier::external_body]
pub(crate) fn empty_cpg() -> (g: Graph<CpgNode, EdgeType, Directed, u32>)
    ensures
        cpg_nodes(g) == Seq::<(Seq<char>, int, int)>::empty(),
        cpg_edges(g) == Seq::<(int, int, EdgeType)>::empty(),
{
    Graph::new()
}

/// `Graph::add_node`: appends `node` and returns its index, which is the
/// number of nodes before the call. Edges stay as they are. `add_node`
/// panics when the new index would be `u32::MAX`, so there must be fewer
/// nodes than that.
#[verifier::external_body]
pub(crate) fn push_node(g: &mut Graph<CpgNode, EdgeType, Directed, u32>, node: CpgNode) -> (index:
    usize)
    requires
        cpg_nodes(*old(g)).len() < u32::MAX,
    ensures
        index == cpg_nodes(*old(g)).len(),
        cpg_nodes(*final(g)) == cpg_nodes(*old(g)).push(node@),
        cpg_edges(*final(g)) == cpg_edges(*old(g)),
{
    g.add_node(node).index()
}

/// `Graph::add_edge`: appends an edge of kind `kind` from node `from` to
/// node `to`; parallel edges are kept. Nodes stay as they are. `add_edge`
/// panics when an endpoint is no node of the graph or when the new edge
/// index would be `u32::MAX`.
#[verifier::external_body]
pub(crate) fn push_flow(
    g: &mut Graph<CpgNode, EdgeType, Directed, u32>,
    from: usize,
    to: usize,
    kind: EdgeType,
)
    requires
        from < cpg_nodes(*old(g)).len() <= u32::MAX,
        to < cpg_nodes(*old(g)).len(),
        cpg_edges(*old(g)).len() < u32::MAX,
    ensures
        cpg_nodes(*final(g)) == cpg_nodes(*old(g)),
        cpg_edges(*final(g)) == cpg_edges(*old(g)).push((from as int, to as int, kind)),
{
    g.add_edge(NodeIndex::new(from), NodeIndex::new(to), kind);
}

} // verus!
