//! The size of a code property graph, found without building it: the
//! numbers of its nodes and edges, so that a body too large for 32-bit
//! indices can be refused.

use crate::cpg_builder::build_cpg_for_function;
use crate::data_flow::{
    as_positions, control_edges, cpg_edges_of, cpg_fits, cpg_nodes_of, definitions_before,
    edges_at, edges_before, flow_edges, lemma_definitions_step, lemma_edges_grow,
    lemma_flow_edges_concat, lemma_listing_at, lemma_listing_grows,
};
use crate::ir::{operand_uses, Body, Operand, Rvalue, StatementKind, Terminator, TerminatorKind};
use crate::property_graph::{cpg_edges, cpg_nodes, CpgNode, EdgeType};
use petgraph::graph::Graph;
use petgraph::Directed;
use std::collections::HashMap;
use vstd::prelude::*;

verus! {

broadcast use vstd::std_specs::hash::group_hash_axioms;

impl Body {
    /// The number of instructions of the first `count` blocks: their
    /// statements, and a terminator each.
    pub open spec fn instructions_of(self, count: nat) -> nat
        decreases count,
    {
        if count == 0 || count > self.basic_blocks.len() {
            0
        } else {
            self.instructions_of((count - 1) as nat)
                + self.basic_blocks[count - 1].statements.len() as nat + 1
        }
    }
}

/// The listing of the first `count` blocks has one entry per instruction.
pub proof fn lemma_listing_length(body: Body, count: nat)
    requires
        count <= body.basic_blocks.len(),
    ensures
        body.listing_of(count).len() == body.instructions_of(count),
    decreases count,
{
    if count > 0 {
        lemma_listing_length(body, (count - 1) as nat);
    }
}

/// The number of data-flow edges that `operand` gives rise to at
/// `use_node`: one if it reads a variable with a definition.
fn count_operand(operand: &Operand, last_def: &HashMap<u32, usize>, use_node: usize) -> (count:
    usize)
    ensures
        count == flow_edges(operand.uses(), as_positions(last_def@), use_node as int).len(),
        count <= 1,
{
    let ghost definitions = as_positions(last_def@);
    match operand {
        Operand::Move(local) | Operand::Copy(local) => {
            proof {
                assert(operand.uses() =~= seq![*local]);
                assert(operand.uses().drop_last() =~= Seq::<u32>::empty());
                assert(flow_edges(Seq::<u32>::empty(), definitions, use_node as int)
                    =~= Seq::empty());
            }
            if last_def.contains_key(local) {
                1
            } else {
                0
            }
        },
        Operand::Constant => 0,
    }
}

/// The number of data-flow edges that `operands` give rise to at
/// `use_node`.
fn count_operands(
    operands: &Vec<Operand>,
    last_def: &HashMap<u32, usize>,
    use_node: usize,
) -> (count: usize)
    ensures
        count == flow_edges(
            operand_uses(operands@, operands.len() as nat),
            as_positions(last_def@),
            use_node as int,
        ).len(),
{
    let ghost definitions = as_positions(last_def@);
    let length: usize = operands.len();
    let mut count: usize = 0;
    let mut i: usize = 0;
    while i < length
        invariant
            i <= length,
            length == operands.len(),
            definitions == as_positions(last_def@),
            count <= i,
            count == flow_edges(
                operand_uses(operands@, i as nat),
                definitions,
                use_node as int,
            ).len(),
        decreases length - i,
    {
        proof {
            lemma_flow_edges_concat(
                operand_uses(operands@, i as nat),
                operands[i as int].uses(),
                definitions,
                use_node as int,
            );
        }
        count = count + count_operand(&operands[i], last_def, use_node);
        i = i + 1;
    }
    count
}

/// The number of data-flow edges that `rvalue` gives rise to at `use_node`.
fn count_rvalue(rvalue: &Rvalue, last_def: &HashMap<u32, usize>, use_node: usize) -> (count: usize)
    ensures
        count == flow_edges(rvalue.uses(), as_positions(last_def@), use_node as int).len(),
{
    match rvalue {
        Rvalue::Use(operand) | Rvalue::CopyForDeref(operand) | Rvalue::UnaryOp(operand) => {
            count_operand(operand, last_def, use_node)
        },
        Rvalue::BinaryOp(left, right) | Rvalue::CheckedBinaryOp(left, right) => {
            proof {
                lemma_flow_edges_concat(
                    left.uses(),
                    right.uses(),
                    as_positions(last_def@),
                    use_node as int,
                );
            }
            count_operand(left, last_def, use_node) + count_operand(right, last_def, use_node)
        },
        Rvalue::Aggregate(operands) => count_operands(operands, last_def, use_node),
        Rvalue::Other => 0,
    }
}

/// The number of data-flow edges that `terminator` gives rise to at
/// `use_node`.
fn count_terminator(
    terminator: &Terminator,
    last_def: &HashMap<u32, usize>,
    use_node: usize,
) -> (count: usize)
    ensures
        count == flow_edges(terminator.uses(), as_positions(last_def@), use_node as int).len(),
{
    match &terminator.kind {
        TerminatorKind::Call { args } => count_operands(args, last_def, use_node),
        TerminatorKind::SwitchInt { discr } => count_operand(discr, last_def, use_node),
        TerminatorKind::Other => 0,
    }
}

/// The number of control-flow edges out of `terminator` at `from`: one for
/// each successor that is a block of `mir`.
fn count_successors(terminator: &Terminator, mir: &Body, from: usize) -> (count: usize)
    ensures
        count == control_edges(terminator.successors@, *mir, from as int).len(),
{
    let length: usize = terminator.successors.len();
    let blocks: usize = mir.basic_blocks.len();
    let mut count: usize = 0;
    let mut k: usize = 0;
    assert(terminator.successors@.take(0) =~= Seq::<usize>::empty());
    while k < length
        invariant
            k <= length,
            length == terminator.successors.len(),
            blocks == mir.basic_blocks.len(),
            count <= k,
            count == control_edges(terminator.successors@.take(k as int), *mir, from as int).len(),
        decreases length - k,
    {
        proof {
            assert(terminator.successors@.take(k + 1).drop_last() =~= terminator.successors@.take(
                k as int,
            ));
        }
        if terminator.successors[k] < blocks {
            count = count + 1;
        }
        k = k + 1;
    }
    assert(terminator.successors@.take(length as int) =~= terminator.successors@);
    count
}

/// The numbers of nodes and edges of the code property graph of `mir`,
/// unless one of them is beyond `u32::MAX`.
pub fn cpg_size(mir: &Body) -> (size: Option<(u32, u32)>)
    ensures
        match size {
            Some((nodes, edges)) => nodes == cpg_nodes_of(*mir).len() && edges == cpg_edges_of(
                *mir,
            ).len(),
            None => !cpg_fits(*mir),
        },
{
    let ghost listing = mir.listing();
    let ghost total = listing.len();
    let limit: u64 = 0xFFFF_FFFF;
    let block_count: usize = mir.basic_blocks.len();
    let mut last_def: HashMap<u32, usize> = HashMap::new();
    let mut nodes: u64 = 0;
    let mut edges: u64 = 0;
    let mut block_id: usize = 0;
    assert(as_positions(last_def@) =~= definitions_before(listing, 0));
    while block_id < block_count
        invariant
            block_id <= block_count,
            block_count == mir.basic_blocks.len(),
            listing == mir.listing(),
            total == listing.len(),
            limit == u32::MAX,
            nodes == mir.first_of(block_id as int),
            nodes <= limit,
            nodes <= total,
            edges == edges_before(*mir, nodes as nat).len(),
            edges <= limit,
            as_positions(last_def@) == definitions_before(listing, nodes as int),
        decreases block_count - block_id,
    {
        let block_data = &mir.basic_blocks[block_id];
        let count: usize = block_data.statements.len();
        proof {
            lemma_listing_at(*mir, block_id as int, count as int);
            lemma_listing_grows(*mir, (block_id + 1) as nat, block_count as nat);
        }
        if count as u64 >= limit - nodes {
            return None;
        }
        let first: usize = nodes as usize;
        let mut statement_index: usize = 0;
        while statement_index < count
            invariant
                statement_index <= count,
                count == block_data.statements.len(),
                block_id < mir.basic_blocks.len(),
                *block_data == mir.basic_blocks[block_id as int],
                listing == mir.listing(),
                total == listing.len(),
                limit == u32::MAX,
                first == mir.first_of(block_id as int),
                first + count < total,
                first + count < limit,
                edges == edges_before(*mir, (first + statement_index) as nat).len(),
                edges <= limit,
                as_positions(last_def@) == definitions_before(listing, first + statement_index),
            decreases count - statement_index,
        {
            let current: usize = first + statement_index;
            let ghost definitions = as_positions(last_def@);
            proof {
                lemma_listing_at(*mir, block_id as int, statement_index as int);
                lemma_edges_grow(*mir, (current + 1) as nat, total);
                lemma_definitions_step(listing, current, last_def@);
                assert(listing[current as int].successors =~= Seq::<usize>::empty());
                assert(control_edges(Seq::<usize>::empty(), *mir, current as int)
                    =~= Seq::empty());
                assert(edges_at(*mir, current as int) =~= flow_edges(
                    block_data.statements[statement_index as int].uses(),
                    definitions,
                    current as int,
                ));
            }
            match &block_data.statements[statement_index].kind {
                StatementKind::Assign { target, rvalue } => {
                    let more: usize = count_rvalue(rvalue, &last_def, current);
                    if more as u64 > limit - edges {
                        return None;
                    }
                    edges = edges + more as u64;
                    last_def.insert(*target, current);
                },
                StatementKind::Other => {
                    assert(flow_edges(Seq::<u32>::empty(), definitions, current as int)
                        =~= Seq::empty());
                },
            }
            statement_index = statement_index + 1;
        }
        let terminator = &block_data.terminator;
        let terminator_node: usize = first + count;
        proof {
            lemma_edges_grow(*mir, (terminator_node + 1) as nat, total);
            lemma_definitions_step(listing, terminator_node, last_def@);
            assert(listing[terminator_node as int].uses == terminator.uses());
            assert(listing[terminator_node as int].successors == terminator.successors@);
        }
        let flows: usize = count_terminator(terminator, &last_def, terminator_node);
        let jumps: usize = count_successors(terminator, mir, terminator_node);
        if flows as u64 > limit - edges {
            return None;
        }
        edges = edges + flows as u64;
        if jumps as u64 > limit - edges {
            return None;
        }
        edges = edges + jumps as u64;
        nodes = nodes + count as u64 + 1;
        block_id = block_id + 1;
    }
    Some((nodes as u32, edges as u32))
}

/// Builds the code property graph of `mir` if it fits 32-bit indices.
pub fn try_build_cpg_for_function(mir: &Body) -> (built: Option<
    Graph<CpgNode, EdgeType, Directed, u32>,
>)
    ensures
        match built {
            Some(cpg) => cpg_fits(*mir) && cpg_nodes(cpg) == cpg_nodes_of(*mir) && cpg_edges(cpg)
                == cpg_edges_of(*mir),
            None => !cpg_fits(*mir),
        },
{
    match cpg_size(mir) {
        Some(_) => Some(build_cpg_for_function(mir)),
        None => None,
    }
}

} // verus!
