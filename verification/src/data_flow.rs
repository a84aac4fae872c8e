//! The code property graph of a body as a mathematical value: one node per
//! instruction, data-flow edges from last definitions to uses, and
//! control-flow edges from terminators to successor blocks.

use crate::ir::{Body, Instruction};
use crate::property_graph::EdgeType;
use vstd::prelude::*;

verus! {

/// The node that stands for `instruction`.
pub open spec fn node_of(instruction: Instruction) -> (Seq<char>, int, int) {
    (instruction.text, instruction.block, instruction.index)
}

/// The nodes that stand for `listing`, in order.
pub open spec fn nodes_of(listing: Seq<Instruction>) -> Seq<(Seq<char>, int, int)> {
    Seq::new(listing.len(), |i: int| node_of(listing[i]))
}

/// The position of the last instruction before `before` that assigns
/// `local`, if there is one.
pub open spec fn last_definition(listing: Seq<Instruction>, local: u32, before: int) -> Option<int>
    decreases before,
{
    if before <= 0 || before > listing.len() {
        None
    } else if listing[before - 1].defines == Some(local) {
        Some(before - 1)
    } else {
        last_definition(listing, local, before - 1)
    }
}

/// For every variable assigned before `before`, the position of its last
/// assignment before `before`.
pub open spec fn definitions_before(listing: Seq<Instruction>, before: int) -> Map<u32, int> {
    Map::new(
        |local: u32| last_definition(listing, local, before) is Some,
        |local: u32| last_definition(listing, local, before)->0,
    )
}

/// The data-flow edges into `user` for the variables `uses`, in order: one
/// from the definition of each variable that has one in `definitions`.
pub open spec fn flow_edges(uses: Seq<u32>, definitions: Map<u32, int>, user: int) -> Seq<
    (int, int, EdgeType),
>
    decreases uses.len(),
{
    if uses.len() == 0 {
        Seq::empty()
    } else {
        let earlier = flow_edges(uses.drop_last(), definitions, user);
        if definitions.contains_key(uses.last()) {
            earlier.push((definitions[uses.last()], user, EdgeType::DataFlow))
        } else {
            earlier
        }
    }
}

/// The control-flow edges out of `from` for the blocks `successors`, in
/// order: one to the first instruction of each successor that is a block of
/// `body`.
pub open spec fn control_edges(successors: Seq<usize>, body: Body, from: int) -> Seq<
    (int, int, EdgeType),
>
    decreases successors.len(),
{
    if successors.len() == 0 {
        Seq::empty()
    } else {
        let earlier = control_edges(successors.drop_last(), body, from);
        if successors.last() < body.basic_blocks.len() {
            earlier.push((from, body.first_of(successors.last() as int), EdgeType::ControlFlow))
        } else {
            earlier
        }
    }
}

/// The edges that the instruction at `position` of the listing of `body`
/// gives rise to: data flow into it, then control flow out of it.
pub open spec fn edges_at(body: Body, position: int) -> Seq<(int, int, EdgeType)> {
    let listing = body.listing();
    flow_edges(listing[position].uses, definitions_before(listing, position), position)
        + control_edges(listing[position].successors, body, position)
}

/// The edges that the first `count` instructions of the listing of `body`
/// give rise to, instruction after instruction.
pub open spec fn edges_before(body: Body, count: nat) -> Seq<(int, int, EdgeType)>
    decreases count,
{
    if count == 0 || count > body.listing().len() {
        Seq::empty()
    } else {
        edges_before(body, (count - 1) as nat) + edges_at(body, count - 1)
    }
}

/// The nodes of the code property graph of `body`.
pub open spec fn cpg_nodes_of(body: Body) -> Seq<(Seq<char>, int, int)> {
    nodes_of(body.listing())
}

/// The edges of the code property graph of `body`.
pub open spec fn cpg_edges_of(body: Body) -> Seq<(int, int, EdgeType)> {
    edges_before(body, body.listing().len())
}

/// The code property graph of `body` can be addressed by 32-bit indices.
pub open spec fn cpg_fits(body: Body) -> bool {
    cpg_nodes_of(body).len() <= u32::MAX && cpg_edges_of(body).len() <= u32::MAX
}

/// The definitions held by a map from variables to node indices.
pub open spec fn as_positions(definitions: Map<u32, usize>) -> Map<u32, int> {
    Map::new(|local: u32| definitions.contains_key(local), |local: u32| definitions[local] as int)
}

/// The data-flow edges for two runs of variables are those for the first
/// followed by those for the second.
pub proof fn lemma_flow_edges_concat(
    first: Seq<u32>,
    second: Seq<u32>,
    definitions: Map<u32, int>,
    user: int,
)
    ensures
        flow_edges(first + second, definitions, user) == flow_edges(first, definitions, user)
            + flow_edges(second, definitions, user),
    decreases second.len(),
{
    if second.len() == 0 {
        assert(first + second =~= first);
    } else {
        assert((first + second).drop_last() =~= first + second.drop_last());
        lemma_flow_edges_concat(first, second.drop_last(), definitions, user);
    }
}

/// Listing more blocks keeps the listing of fewer as a prefix.
pub proof fn lemma_listing_grows(body: Body, fewer: nat, more: nat)
    requires
        fewer <= more <= body.basic_blocks.len(),
    ensures
        body.listing_of(fewer).len() <= body.listing_of(more).len(),
        forall|k: int|
            0 <= k < body.listing_of(fewer).len() ==> #[trigger] body.listing_of(more)[k]
                == body.listing_of(fewer)[k],
    decreases more,
{
    if fewer < more {
        lemma_listing_grows(body, fewer, (more - 1) as nat);
    }
}

/// The instruction at `index` of block `block` stands in the listing at the
/// position of the block's first instruction plus `index`.
pub proof fn lemma_listing_at(body: Body, block: int, index: int)
    requires
        0 <= block < body.basic_blocks.len(),
        0 <= index <= body.basic_blocks[block].statements.len(),
    ensures
        body.first_of(block) + index < body.listing().len(),
        body.first_of(block + 1) == body.first_of(block) + body.basic_blocks[block].statements.len()
            + 1,
        body.listing()[body.first_of(block) + index] == body.basic_blocks[block].listing(
            block,
        )[index],
{
    lemma_listing_grows(body, (block + 1) as nat, body.basic_blocks.len() as nat);
    let upto = body.listing_of((block + 1) as nat);
    assert(upto == body.listing_of(block as nat) + body.basic_blocks[block].listing(block));
    assert(upto[body.first_of(block) + index] == body.basic_blocks[block].listing(block)[index]);
}

/// More instructions give rise to more edges, the earlier ones first.
pub proof fn lemma_edges_grow(body: Body, fewer: nat, more: nat)
    requires
        fewer <= more <= body.listing().len(),
    ensures
        edges_before(body, fewer).len() <= edges_before(body, more).len(),
        forall|k: int|
            0 <= k < edges_before(body, fewer).len() ==> #[trigger] edges_before(body, more)[k]
                == edges_before(body, fewer)[k],
    decreases more,
{
    if fewer < more {
        lemma_edges_grow(body, fewer, (more - 1) as nat);
    }
}

/// A last definition stands before the position it was asked for, and it
/// is an instruction that assigns the variable.
pub proof fn lemma_last_definition(listing: Seq<Instruction>, local: u32, before: int)
    ensures
        match last_definition(listing, local, before) {
            Some(position) => 0 <= position < before <= listing.len()
                && listing[position].defines == Some(local) && forall|later: int|
                position < later < before ==> (#[trigger] listing[later]).defines != Some(local),
            None => forall|earlier: int|
                0 <= earlier < before <= listing.len() ==> (#[trigger] listing[earlier]).defines
                    != Some(local),
        },
    decreases before,
{
    if before <= 0 || before > listing.len() {
    } else if listing[before - 1].defines == Some(local) {
    } else {
        lemma_last_definition(listing, local, before - 1);
    }
}

/// The nodes of two listings in a row are the nodes of the first followed
/// by the nodes of the second.
pub proof fn lemma_nodes_of_concat(first: Seq<Instruction>, second: Seq<Instruction>)
    ensures
        nodes_of(first + second) == nodes_of(first) + nodes_of(second),
{
    assert(nodes_of(first + second) =~= nodes_of(first) + nodes_of(second));
}

/// More successors give rise to more control-flow edges.
pub proof fn lemma_control_edges_grow(
    successors: Seq<usize>,
    fewer: int,
    more: int,
    body: Body,
    from: int,
)
    requires
        0 <= fewer <= more <= successors.len(),
    ensures
        control_edges(successors.take(fewer), body, from).len() <= control_edges(
            successors.take(more),
            body,
            from,
        ).len(),
    decreases more,
{
    if fewer < more {
        lemma_control_edges_grow(successors, fewer, more - 1, body, from);
        assert(successors.take(more).drop_last() =~= successors.take(more - 1));
    }
}

/// The definitions before the next instruction are those before this one,
/// with this one as the last definition of the variable it assigns, if it
/// assigns one.
pub proof fn lemma_definitions_step(
    listing: Seq<Instruction>,
    position: usize,
    known: Map<u32, usize>,
)
    requires
        position < listing.len(),
        as_positions(known) == definitions_before(listing, position as int),
    ensures
        match listing[position as int].defines {
            Some(target) => as_positions(known.insert(target, position)) == definitions_before(
                listing,
                position + 1,
            ),
            None => as_positions(known) == definitions_before(listing, position + 1),
        },
{
    let before = definitions_before(listing, position as int);
    let after = definitions_before(listing, position + 1);
    match listing[position as int].defines {
        Some(target) => {
            let next = as_positions(known.insert(target, position));
            assert forall|local: u32|
                last_definition(listing, local, position + 1) == if local == target {
                    Some(position as int)
                } else {
                    last_definition(listing, local, position as int)
                } by {}
            assert forall|local: u32| next.contains_key(local) == #[trigger] after.contains_key(
                local,
            ) by {
                if local != target {
                    assert(known.contains_key(local) == before.contains_key(local));
                }
            }
            assert forall|local: u32| next.contains_key(local) implies #[trigger] next[local]
                == after[local] by {
                if local != target {
                    assert(before.contains_key(local));
                    assert(before[local] == known[local] as int);
                }
            }
            assert(next =~= after);
        },
        None => {
            assert forall|local: u32|
                last_definition(listing, local, position + 1) == last_definition(
                    listing,
                    local,
                    position as int,
                ) by {}
            assert(as_positions(known) =~= after);
        },
    }
}

} // verus!
