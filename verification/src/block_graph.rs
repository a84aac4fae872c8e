//! The basic-block graph: a `petgraph` directed graph whose node weights are
//! basic blocks and whose edges carry no payload.
//!
//! Verus does not look inside `petgraph`. What this module says of the graph
//! is taken on trust from the crate's source: the graph is an arena of nodes
//! and a list of edges, both addressed by position, and nothing is ever
//! removed here.

use petgraph::graph::{Graph, NodeIndex};
use petgraph::Directed;
use vstd::prelude::*;

verus! {

/// `petgraph::graph::Graph`, of which nothing but what this module and
/// `property_graph` state is known.
#[verifier::external_type_specification]
#[verifier::external_body]
#[verifier::reject_recursive_types(N)]
#[verifier::reject_recursive_types(E)]
#[verifier::reject_recursive_types(Ty)]
#[verifier::reject_recursive_types(Ix)]
pub struct ExGraph<N, E, Ty, Ix>(Graph<N, E, Ty, Ix>);

/// `petgraph::Directed`, the marker of graphs with directed edges.
#[verifier::external_type_specification]
#[verifier::external_body]
pub struct ExDirected(Directed);

/// A basic block: the summary lines of its statements, in order.
#[derive(Debug)]
pub struct BasicBlock {
    pub statements: Vec<String>,
}

impl Default for BasicBlock {
    /// The empty block.
    fn default() -> (block: BasicBlock)
        ensures
            block@ == Seq::<Seq<char>>::empty(),
    {
        let block = BasicBlock { statements: Vec::new() };
        assert(block@ =~= Seq::<Seq<char>>::empty());
        block
    }
}

impl View for BasicBlock {
    type V = Seq<Seq<char>>;

    open spec fn view(&self) -> Seq<Seq<char>> {
        self.statements.deep_view()
    }
}

/// The lines of every block of `g`: entry `i` belongs to the node with
/// index `i`.
pub uninterp spec fn graph_blocks(g: Graph<BasicBlock, (), Directed, u32>) -> Seq<Seq<Seq<char>>>;

/// The edges of `g` as `(source, target)` node indices: entry `k` belongs to
/// the edge with index `k`.
pub uninterp spec fn graph_edges(g: Graph<BasicBlock, (), Directed, u32>) -> Seq<(int, int)>;

/// `Graph::new`: a directed graph without nodes or edges.
#[verifier::external_body]
pub(crate) fn empty_graph() -> (g: Graph<BasicBlock, (), Directed, u32>)
    ensures
        graph_blocks(g) == Seq::<Seq<Seq<char>>>::empty(),
        graph_edges(g) == Seq::<(int, int)>::empty(),
{
    Graph::new()
}

/// `Graph::add_node`: appends a node that holds `block` and returns its
/// index, which is the number of nodes before the call. Edges stay as they
/// are. `add_node` panics when the new index would be `u32::MAX`, so there
/// must be fewer nodes than that.
#[verifier::external_body]
pub(crate) fn push_block(g: &mut Graph<BasicBlock, (), Directed, u32>, block: BasicBlock) -> (index:
    usize)
    requires
        graph_blocks(*old(g)).len() < u32::MAX,
    ensures
        index == graph_blocks(*old(g)).len(),
        graph_blocks(*final(g)) == graph_blocks(*old(g)).push(block@),
        graph_edges(*final(g)) == graph_edges(*old(g)),
{
    g.add_node(block).index()
}

/// `Graph::add_edge`: appends an edge from node `from` to node `to`;
/// parallel edges are kept. Nodes stay as they are. `add_edge` panics when
/// an endpoint is no node of the graph or when the new edge index would be
/// `u32::MAX`.
#[verifier::external_body]
pub(crate) fn push_edge(g: &mut Graph<BasicBlock, (), Directed, u32>, from: usize, to: usize)
    requires
        from < graph_blocks(*old(g)).len() <= u32::MAX,
        to < graph_blocks(*old(g)).len(),
        graph_edges(*old(g)).len() < u32::MAX,
    ensures
        graph_blocks(*final(g)) == graph_blocks(*old(g)),
        graph_edges(*final(g)) == graph_edges(*old(g)).push((from as int, to as int)),
{
    g.add_edge(NodeIndex::new(from), NodeIndex::new(to), ());
}

/// `Graph::node_weight_mut`: the block held by node `index`, borrowed for
/// change, or `None` if the graph has no such node. Whatever the borrower
/// leaves in the block is what the node holds afterwards; other nodes and
/// all edges stay as they are.
#[verifier::external_body]
pub(crate) fn block_mut(g: &mut Graph<BasicBlock, (), Directed, u32>, index: usize) -> (block:
    Option<&mut BasicBlock>)
    requires
        index <= u32::MAX,
    ensures
        graph_edges(*final(g)) == graph_edges(*old(g)),
        match block {
            Some(held) => index < graph_blocks(*old(g)).len() && held@ == graph_blocks(
                *old(g),
            )[index as int] && graph_blocks(*final(g)) == graph_blocks(*old(g)).update(
                index as int,
                final(held)@,
            ),
            None => index >= graph_blocks(*old(g)).len() && graph_blocks(*final(g))
                == graph_blocks(*old(g)),
        },
{
    g.node_weight_mut(NodeIndex::new(index))
}

} // verus!
