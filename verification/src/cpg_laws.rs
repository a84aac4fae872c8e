//! Laws of the code property graph: which edges it has and which it has
//! not.

use crate::cpg_bounds::lemma_listing_length;
use crate::data_flow::{
    control_edges, cpg_edges_of, cpg_nodes_of, definitions_before, edges_at, edges_before,
    flow_edges, last_definition, lemma_last_definition, lemma_listing_at, lemma_listing_grows,
};
use crate::ir::Body;
use crate::property_graph::{cpg_edges, cpg_nodes, CpgNode, EdgeType};
use petgraph::graph::Graph;
use petgraph::Directed;
use vstd::prelude::*;

verus! {

/// Whether `edge` is a data-flow edge that `body` calls for: it enters an
/// instruction that reads some variable, and it leaves the last instruction
/// before that one, in listing order, that assigns the variable.
pub open spec fn is_data_flow(body: Body, edge: (int, int, EdgeType)) -> bool {
    let listing = body.listing();
    &&& edge.2 == EdgeType::DataFlow
    &&& 0 <= edge.0 < edge.1 < listing.len()
    &&& exists|local: u32| #[trigger]
        listing[edge.1].uses.contains(local) && last_definition(listing, local, edge.1) == Some(
            edge.0,
        )
}

/// Whether `edge` is a control-flow edge that `body` calls for: it leaves
/// an instruction with some successor that is a block of `body`, and it
/// enters the first instruction of that block.
pub open spec fn is_control_flow(body: Body, edge: (int, int, EdgeType)) -> bool {
    let listing = body.listing();
    &&& edge.2 == EdgeType::ControlFlow
    &&& 0 <= edge.0 < listing.len()
    &&& exists|successor: usize| #[trigger]
        listing[edge.0].successors.contains(successor) && successor < body.basic_blocks.len()
            && edge.1 == body.first_of(successor as int)
}

/// What `flow_edges` holds: exactly one edge for each variable read that
/// has a definition.
pub proof fn lemma_flow_edges_members(
    uses: Seq<u32>,
    definitions: Map<u32, int>,
    user: int,
    edge: (int, int, EdgeType),
)
    ensures
        flow_edges(uses, definitions, user).contains(edge) <==> edge.1 == user && edge.2
            == EdgeType::DataFlow && exists|local: u32| #[trigger]
            uses.contains(local) && definitions.contains_key(local) && definitions[local] == edge.0,
    decreases uses.len(),
{
    let edges = flow_edges(uses, definitions, user);
    if uses.len() == 0 {
        assert(!edges.contains(edge));
        assert forall|local: u32| !#[trigger] uses.contains(local) by {}
    } else {
        let earlier = flow_edges(uses.drop_last(), definitions, user);
        lemma_flow_edges_members(uses.drop_last(), definitions, user, edge);
        let last = uses.last();
        assert forall|local: u32| #[trigger]
            uses.contains(local) <==> uses.drop_last().contains(local) || local == last by {
            if uses.contains(local) {
                let i = choose|i: int| 0 <= i < uses.len() && uses[i] == local;
                if i < uses.len() - 1 {
                    assert(uses.drop_last()[i] == local);
                }
            }
            if uses.drop_last().contains(local) {
                let i = choose|i: int|
                    0 <= i < uses.drop_last().len() && uses.drop_last()[i] == local;
                assert(uses[i] == local);
            }
            if local == last {
                assert(uses[uses.len() - 1] == local);
            }
        }
        if definitions.contains_key(last) {
            let added = (definitions[last], user, EdgeType::DataFlow);
            assert(edges == earlier.push(added));
            if edges.contains(edge) {
                let k = choose|k: int| 0 <= k < edges.len() && edges[k] == edge;
                if k < earlier.len() {
                    assert(earlier[k] == edge);
                    let local = choose|local: u32| #[trigger]
                        uses.drop_last().contains(local) && definitions.contains_key(local)
                            && definitions[local] == edge.0;
                    assert(uses.contains(local));
                } else {
                    assert(uses.contains(last));
                }
            }
            if edge.1 == user && edge.2 == EdgeType::DataFlow && exists|local: u32| #[trigger]
                uses.contains(local) && definitions.contains_key(local) && definitions[local]
                    == edge.0 {
                let local = choose|local: u32| #[trigger]
                    uses.contains(local) && definitions.contains_key(local) && definitions[local]
                        == edge.0;
                if uses.drop_last().contains(local) {
                    assert(earlier.contains(edge));
                    let k = choose|k: int| 0 <= k < earlier.len() && earlier[k] == edge;
                    assert(edges[k] == edge);
                } else {
                    assert(edges[earlier.len() as int] == edge);
                }
            }
        } else {
            assert(edges == earlier);
            if edges.contains(edge) {
                let local = choose|local: u32| #[trigger]
                    uses.drop_last().contains(local) && definitions.contains_key(local)
                        && definitions[local] == edge.0;
                assert(uses.contains(local));
            }
            if edge.1 == user && edge.2 == EdgeType::DataFlow && exists|local: u32| #[trigger]
                uses.contains(local) && definitions.contains_key(local) && definitions[local]
                    == edge.0 {
                let local = choose|local: u32| #[trigger]
                    uses.contains(local) && definitions.contains_key(local) && definitions[local]
                        == edge.0;
                assert(uses.drop_last().contains(local));
            }
        }
    }
}

/// What `control_edges` holds: exactly one edge for each successor that is
/// a block of the body.
pub proof fn lemma_control_edges_members(
    successors: Seq<usize>,
    body: Body,
    from: int,
    edge: (int, int, EdgeType),
)
    ensures
        control_edges(successors, body, from).contains(edge) <==> edge.0 == from && edge.2
            == EdgeType::ControlFlow && exists|successor: usize| #[trigger]
            successors.contains(successor) && successor < body.basic_blocks.len() && edge.1
                == body.first_of(successor as int),
    decreases successors.len(),
{
    let edges = control_edges(successors, body, from);
    if successors.len() == 0 {
        assert(!edges.contains(edge));
        assert forall|successor: usize| !#[trigger] successors.contains(successor) by {}
    } else {
        let earlier = control_edges(successors.drop_last(), body, from);
        lemma_control_edges_members(successors.drop_last(), body, from, edge);
        let last = successors.last();
        assert forall|successor: usize| #[trigger]
            successors.contains(successor) <==> successors.drop_last().contains(successor)
                || successor == last by {
            if successors.contains(successor) {
                let i = choose|i: int| 0 <= i < successors.len() && successors[i] == successor;
                if i < successors.len() - 1 {
                    assert(successors.drop_last()[i] == successor);
                }
            }
            if successors.drop_last().contains(successor) {
                let i = choose|i: int|
                    0 <= i < successors.drop_last().len() && successors.drop_last()[i]
                        == successor;
                assert(successors[i] == successor);
            }
            if successor == last {
                assert(successors[successors.len() - 1] == successor);
            }
        }
        if last < body.basic_blocks.len() {
            let added = (from, body.first_of(last as int), EdgeType::ControlFlow);
            assert(edges == earlier.push(added));
            if edges.contains(edge) {
                let k = choose|k: int| 0 <= k < edges.len() && edges[k] == edge;
                if k < earlier.len() {
                    assert(earlier[k] == edge);
                    let successor = choose|successor: usize| #[trigger]
                        successors.drop_last().contains(successor) && successor
                            < body.basic_blocks.len() && edge.1 == body.first_of(successor as int);
                    assert(successors.contains(successor));
                } else {
                    assert(successors.contains(last));
                }
            }
            if edge.0 == from && edge.2 == EdgeType::ControlFlow && exists|successor: usize|
                #[trigger] successors.contains(successor) && successor < body.basic_blocks.len()
                    && edge.1 == body.first_of(successor as int) {
                let successor = choose|successor: usize| #[trigger]
                    successors.contains(successor) && successor < body.basic_blocks.len() && edge.1
                        == body.first_of(successor as int);
                if successors.drop_last().contains(successor) {
                    assert(earlier.contains(edge));
                    let k = choose|k: int| 0 <= k < earlier.len() && earlier[k] == edge;
                    assert(edges[k] == edge);
                } else {
                    assert(edges[earlier.len() as int] == edge);
                }
            }
        } else {
            assert(edges == earlier);
            if edges.contains(edge) {
                let successor = choose|successor: usize| #[trigger]
                    successors.drop_last().contains(successor) && successor
                        < body.basic_blocks.len() && edge.1 == body.first_of(successor as int);
                assert(successors.contains(successor));
            }
            if edge.0 == from && edge.2 == EdgeType::ControlFlow && exists|successor: usize|
                #[trigger] successors.contains(successor) && successor < body.basic_blocks.len()
                    && edge.1 == body.first_of(successor as int) {
                let successor = choose|successor: usize| #[trigger]
                    successors.contains(successor) && successor < body.basic_blocks.len() && edge.1
                        == body.first_of(successor as int);
                assert(successors.drop_last().contains(successor));
            }
        }
    }
}

/// The edges of one instruction are the data-flow edges into it and the
/// control-flow edges out of it that the body calls for.
pub proof fn lemma_edges_at_members(body: Body, position: int, edge: (int, int, EdgeType))
    requires
        0 <= position < body.listing().len(),
    ensures
        edges_at(body, position).contains(edge) <==> (is_data_flow(body, edge) && edge.1
            == position) || (is_control_flow(body, edge) && edge.0 == position),
{
    let listing = body.listing();
    let definitions = definitions_before(listing, position);
    let flow = flow_edges(listing[position].uses, definitions, position);
    let control = control_edges(listing[position].successors, body, position);
    lemma_flow_edges_members(listing[position].uses, definitions, position, edge);
    lemma_control_edges_members(listing[position].successors, body, position, edge);
    assert((flow + control).contains(edge) <==> flow.contains(edge) || control.contains(edge)) by {
        if (flow + control).contains(edge) {
            let k = choose|k: int| 0 <= k < (flow + control).len() && (flow + control)[k] == edge;
            if k < flow.len() {
                assert(flow[k] == edge);
            } else {
                assert(control[k - flow.len()] == edge);
            }
        }
        if flow.contains(edge) {
            let k = choose|k: int| 0 <= k < flow.len() && flow[k] == edge;
            assert((flow + control)[k] == edge);
        }
        if control.contains(edge) {
            let k = choose|k: int| 0 <= k < control.len() && control[k] == edge;
            assert((flow + control)[flow.len() + k] == edge);
        }
    }
    if flow.contains(edge) {
        let local = choose|local: u32| #[trigger]
            listing[position].uses.contains(local) && definitions.contains_key(local)
                && definitions[local] == edge.0;
        lemma_last_definition(listing, local, position);
        assert(listing[edge.1].uses.contains(local) && last_definition(listing, local, edge.1)
            == Some(edge.0));
    }
    if is_data_flow(body, edge) && edge.1 == position {
        let local = choose|local: u32| #[trigger]
            listing[edge.1].uses.contains(local) && last_definition(listing, local, edge.1)
                == Some(edge.0);
        assert(listing[position].uses.contains(local) && definitions.contains_key(local)
            && definitions[local] == edge.0);
    }
    if control.contains(edge) {
        let successor = choose|successor: usize| #[trigger]
            listing[position].successors.contains(successor) && successor
                < body.basic_blocks.len() && edge.1 == body.first_of(successor as int);
        assert(listing[edge.0].successors.contains(successor));
    }
    if is_control_flow(body, edge) && edge.0 == position {
        let successor = choose|successor: usize| #[trigger]
            listing[edge.0].successors.contains(successor) && successor < body.basic_blocks.len()
                && edge.1 == body.first_of(successor as int);
        assert(listing[position].successors.contains(successor));
    }
}

/// The edges of the first `count` instructions are the data-flow edges
/// into them and the control-flow edges out of them that the body calls
/// for.
pub proof fn lemma_edges_before_members(body: Body, count: nat, edge: (int, int, EdgeType))
    requires
        count <= body.listing().len(),
    ensures
        edges_before(body, count).contains(edge) <==> (is_data_flow(body, edge) && edge.1 < count)
            || (is_control_flow(body, edge) && edge.0 < count),
    decreases count,
{
    if count == 0 {
        assert(!edges_before(body, count).contains(edge));
    } else {
        let earlier = edges_before(body, (count - 1) as nat);
        let own = edges_at(body, count - 1);
        lemma_edges_before_members(body, (count - 1) as nat, edge);
        lemma_edges_at_members(body, count - 1, edge);
        assert((earlier + own).contains(edge) <==> earlier.contains(edge) || own.contains(edge))
            by {
            if (earlier + own).contains(edge) {
                let k = choose|k: int| 0 <= k < (earlier + own).len() && (earlier + own)[k] == edge;
                if k < earlier.len() {
                    assert(earlier[k] == edge);
                } else {
                    assert(own[k - earlier.len()] == edge);
                }
            }
            if earlier.contains(edge) {
                let k = choose|k: int| 0 <= k < earlier.len() && earlier[k] == edge;
                assert((earlier + own)[k] == edge);
            }
            if own.contains(edge) {
                let k = choose|k: int| 0 <= k < own.len() && own[k] == edge;
                assert((earlier + own)[earlier.len() + k] == edge);
            }
        }
    }
}

/// The code property graph has an edge if and only if the body calls for
/// it: a data-flow edge from the last assignment of a variable to an
/// instruction that reads it, or a control-flow edge from a terminator to
/// the first instruction of one of its successors.
pub proof fn lemma_cpg_edges_are_exactly_the_flows(body: Body, edge: (int, int, EdgeType))
    ensures
        cpg_edges_of(body).contains(edge) <==> is_data_flow(body, edge) || is_control_flow(
            body,
            edge,
        ),
{
    lemma_edges_before_members(body, body.listing().len(), edge);
}

/// A variable without an assignment before an instruction gives that
/// instruction no incoming data-flow edge, and no data-flow edge ever
/// leaves an instruction that assigns nothing.
pub proof fn lemma_no_data_flow_without_definition(body: Body, edge: (int, int, EdgeType))
    requires
        cpg_edges_of(body).contains(edge),
        edge.2 == EdgeType::DataFlow,
    ensures
        0 <= edge.0 < edge.1 < body.listing().len(),
        body.listing()[edge.0].defines is Some,
        body.listing()[edge.1].uses.contains(body.listing()[edge.0].defines->0),
{
    lemma_cpg_edges_are_exactly_the_flows(body, edge);
    let listing = body.listing();
    let local = choose|local: u32| #[trigger]
        listing[edge.1].uses.contains(local) && last_definition(listing, local, edge.1) == Some(
            edge.0,
        );
    lemma_last_definition(listing, local, edge.1);
}

/// The code property graph has one node per statement and one per
/// terminator.
pub proof fn lemma_cpg_node_count(body: Body)
    ensures
        cpg_nodes_of(body).len() == body.instructions_of(body.basic_blocks.len() as nat),
{
    lemma_listing_length(body, body.basic_blocks.len() as nat);
}

/// The node of the instruction at `index` of block `block` stands at the
/// position of the block's first instruction plus `index`, and carries the
/// instruction's text, its block and its index; the terminator of a block
/// has the number of the block's statements as its index.
pub proof fn lemma_cpg_node_at(body: Body, block: int, index: int)
    requires
        0 <= block < body.basic_blocks.len(),
        0 <= index <= body.basic_blocks[block].statements.len(),
    ensures
        0 <= body.first_of(block) + index < cpg_nodes_of(body).len(),
        index < body.basic_blocks[block].statements.len() ==> cpg_nodes_of(body)[body.first_of(
            block,
        ) + index] == (body.basic_blocks[block].statements[index].text@, block, index),
        index == body.basic_blocks[block].statements.len() ==> cpg_nodes_of(body)[body.first_of(
            block,
        ) + index] == (body.basic_blocks[block].terminator.text@, block, index),
{
    lemma_listing_at(body, block, index);
}

/// Blocks are listed one after the other: a later block starts after the
/// terminator of an earlier one.
pub proof fn lemma_blocks_follow(body: Body, earlier: int, later: int)
    requires
        0 <= earlier < later < body.basic_blocks.len(),
    ensures
        body.first_of(earlier) + body.basic_blocks[earlier].statements.len() < body.first_of(
            later,
        ),
{
    lemma_listing_at(body, earlier, 0);
    lemma_listing_grows(body, (earlier + 1) as nat, later as nat);
}

/// Different places of a body have different nodes.
pub proof fn lemma_cpg_nodes_are_distinct(
    body: Body,
    block: int,
    index: int,
    other_block: int,
    other_index: int,
)
    requires
        0 <= block < body.basic_blocks.len(),
        0 <= index <= body.basic_blocks[block].statements.len(),
        0 <= other_block < body.basic_blocks.len(),
        0 <= other_index <= body.basic_blocks[other_block].statements.len(),
        block != other_block || index != other_index,
    ensures
        body.first_of(block) + index != body.first_of(other_block) + other_index,
{
    if block < other_block {
        lemma_blocks_follow(body, block, other_block);
    } else if other_block < block {
        lemma_blocks_follow(body, other_block, block);
    }
}

/// Construction is a function of the body: two graphs that are each the
/// code property graph of the same body have the same nodes and the same
/// edges.
pub proof fn lemma_cpg_is_deterministic(
    body: Body,
    first: Graph<CpgNode, EdgeType, Directed, u32>,
    second: Graph<CpgNode, EdgeType, Directed, u32>,
)
    requires
        cpg_nodes(first) == cpg_nodes_of(body),
        cpg_edges(first) == cpg_edges_of(body),
        cpg_nodes(second) == cpg_nodes_of(body),
        cpg_edges(second) == cpg_edges_of(body),
    ensures
        cpg_nodes(first).len() == cpg_nodes(second).len(),
        cpg_edges(first).len() == cpg_edges(second).len(),
        cpg_nodes(first) == cpg_nodes(second),
        cpg_edges(first) == cpg_edges(second),
{
}

} // verus!
