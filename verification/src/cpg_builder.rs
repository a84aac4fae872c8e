//! Building the code property graph of a body: one pass that creates a node
//! per instruction, one pass that adds data-flow and control-flow edges.

use crate::data_flow::{
    as_positions, control_edges, cpg_edges_of, cpg_fits, cpg_nodes_of, definitions_before,
    edges_at, edges_before, flow_edges, lemma_control_edges_grow, lemma_definitions_step,
    lemma_edges_grow, lemma_flow_edges_concat, lemma_last_definition, lemma_listing_at,
    lemma_listing_grows, lemma_nodes_of_concat, nodes_of,
};
use crate::ir::{
    operand_uses, BasicBlockData, Body, Location, Operand, Rvalue, StatementKind, Terminator,
    TerminatorKind,
};
use crate::property_graph::{
    cpg_edges, cpg_nodes, empty_cpg, push_flow, push_node, CpgNode, EdgeType,
};
use petgraph::graph::Graph;
use petgraph::Directed;
use std::collections::HashMap;
use vstd::prelude::*;

verus! {

broadcast use vstd::std_specs::hash::group_hash_axioms;

/// Whether every definition in `last_def` is a node of a graph with
/// `nodes` nodes.
pub open spec fn definitions_within(last_def: Map<u32, usize>, nodes: nat) -> bool {
    forall|local: u32| last_def.contains_key(local) ==> (#[trigger] last_def[local]) < nodes
}

/// Adds a data-flow edge from the last definition of the variable that
/// `operand` reads, if it reads one and that variable has a definition, to
/// `use_node`.
pub fn visit_operand(
    operand: &Operand,
    last_def: &HashMap<u32, usize>,
    use_node: usize,
    cpg: &mut Graph<CpgNode, EdgeType, Directed, u32>,
)
    requires
        use_node < cpg_nodes(*old(cpg)).len() <= u32::MAX,
        definitions_within(last_def@, cpg_nodes(*old(cpg)).len()),
        cpg_edges(*old(cpg)).len() + flow_edges(
            operand.uses(),
            as_positions(last_def@),
            use_node as int,
        ).len() <= u32::MAX,
    ensures
        cpg_nodes(*final(cpg)) == cpg_nodes(*old(cpg)),
        cpg_edges(*final(cpg)) == cpg_edges(*old(cpg)) + flow_edges(
            operand.uses(),
            as_positions(last_def@),
            use_node as int,
        ),
{
    let ghost definitions = as_positions(last_def@);
    let ghost user = use_node as int;
    match operand {
        Operand::Move(local) | Operand::Copy(local) => {
            proof {
                assert(operand.uses() =~= seq![*local]);
                assert(operand.uses().drop_last() =~= Seq::<u32>::empty());
                assert(flow_edges(Seq::<u32>::empty(), definitions, user) =~= Seq::empty());
            }
            if let Some(def_node) = last_def.get(local) {
                assert(last_def@[*local] == *def_node);
                push_flow(cpg, *def_node, use_node, EdgeType::DataFlow);
                assert(cpg_edges(*cpg) =~= cpg_edges(*old(cpg)) + flow_edges(
                    operand.uses(),
                    definitions,
                    user,
                ));
            } else {
                assert(cpg_edges(*cpg) =~= cpg_edges(*old(cpg)) + flow_edges(
                    operand.uses(),
                    definitions,
                    user,
                ));
            }
        },
        Operand::Constant => {
            assert(cpg_edges(*cpg) =~= cpg_edges(*old(cpg)) + flow_edges(
                operand.uses(),
                definitions,
                user,
            ));
        },
    }
}

/// Visits `operands` in order.
fn visit_operands(
    operands: &Vec<Operand>,
    last_def: &HashMap<u32, usize>,
    use_node: usize,
    cpg: &mut Graph<CpgNode, EdgeType, Directed, u32>,
)
    requires
        use_node < cpg_nodes(*old(cpg)).len() <= u32::MAX,
        definitions_within(last_def@, cpg_nodes(*old(cpg)).len()),
        cpg_edges(*old(cpg)).len() + flow_edges(
            operand_uses(operands@, operands.len() as nat),
            as_positions(last_def@),
            use_node as int,
        ).len() <= u32::MAX,
    ensures
        cpg_nodes(*final(cpg)) == cpg_nodes(*old(cpg)),
        cpg_edges(*final(cpg)) == cpg_edges(*old(cpg)) + flow_edges(
            operand_uses(operands@, operands.len() as nat),
            as_positions(last_def@),
            use_node as int,
        ),
{
    let ghost definitions = as_positions(last_def@);
    let ghost user = use_node as int;
    let ghost before = cpg_edges(*cpg);
    let count: usize = operands.len();
    let mut i: usize = 0;
    assert(before + flow_edges(operand_uses(operands@, 0), definitions, user) =~= before);
    while i < count
        invariant
            i <= count,
            count == operands.len(),
            definitions == as_positions(last_def@),
            user == use_node as int,
            use_node < cpg_nodes(*cpg).len() <= u32::MAX,
            cpg_nodes(*cpg) == cpg_nodes(*old(cpg)),
            definitions_within(last_def@, cpg_nodes(*cpg).len()),
            cpg_edges(*cpg) == before + flow_edges(
                operand_uses(operands@, i as nat),
                definitions,
                user,
            ),
            before.len() + flow_edges(
                operand_uses(operands@, count as nat),
                definitions,
                user,
            ).len() <= u32::MAX,
        decreases count - i,
    {
        proof {
            lemma_operand_flow_grows(operands@, (i + 1) as nat, count as nat, definitions, user);
            lemma_flow_edges_concat(
                operand_uses(operands@, i as nat),
                operands[i as int].uses(),
                definitions,
                user,
            );
        }
        visit_operand(&operands[i], last_def, use_node, cpg);
        i = i + 1;
    }
}

/// More operands give rise to more data-flow edges.
pub proof fn lemma_operand_flow_grows(
    operands: Seq<Operand>,
    fewer: nat,
    more: nat,
    definitions: Map<u32, int>,
    user: int,
)
    requires
        fewer <= more <= operands.len(),
    ensures
        flow_edges(operand_uses(operands, fewer), definitions, user).len() <= flow_edges(
            operand_uses(operands, more),
            definitions,
            user,
        ).len(),
    decreases more,
{
    if fewer < more {
        lemma_operand_flow_grows(operands, fewer, (more - 1) as nat, definitions, user);
        lemma_flow_edges_concat(
            operand_uses(operands, (more - 1) as nat),
            operands[more - 1].uses(),
            definitions,
            user,
        );
    }
}

/// Adds a data-flow edge into `use_node` for every variable that `rvalue`
/// reads and that has a definition: a plain use, a copy for dereference and
/// a unary operation read one operand, a binary operation reads two, an
/// aggregate reads all its operands, any other shape reads none.
pub fn visit_rvalue(
    rvalue: &Rvalue,
    last_def: &HashMap<u32, usize>,
    use_node: usize,
    cpg: &mut Graph<CpgNode, EdgeType, Directed, u32>,
)
    requires
        use_node < cpg_nodes(*old(cpg)).len() <= u32::MAX,
        definitions_within(last_def@, cpg_nodes(*old(cpg)).len()),
        cpg_edges(*old(cpg)).len() + flow_edges(
            rvalue.uses(),
            as_positions(last_def@),
            use_node as int,
        ).len() <= u32::MAX,
    ensures
        cpg_nodes(*final(cpg)) == cpg_nodes(*old(cpg)),
        cpg_edges(*final(cpg)) == cpg_edges(*old(cpg)) + flow_edges(
            rvalue.uses(),
            as_positions(last_def@),
            use_node as int,
        ),
{
    match rvalue {
        Rvalue::Use(operand) | Rvalue::CopyForDeref(operand) | Rvalue::UnaryOp(operand) => {
            visit_operand(operand, last_def, use_node, cpg);
        },
        Rvalue::BinaryOp(left, right) | Rvalue::CheckedBinaryOp(left, right) => {
            proof {
                lemma_flow_edges_concat(
                    left.uses(),
                    right.uses(),
                    as_positions(last_def@),
                    use_node as int,
                );
            }
            visit_operand(left, last_def, use_node, cpg);
            visit_operand(right, last_def, use_node, cpg);
        },
        Rvalue::Aggregate(operands) => {
            visit_operands(operands, last_def, use_node, cpg);
        },
        Rvalue::Other => {
            assert(cpg_edges(*cpg) =~= cpg_edges(*old(cpg)) + flow_edges(
                rvalue.uses(),
                as_positions(last_def@),
                use_node as int,
            ));
        },
    }
}

/// Adds a data-flow edge into `use_node` for every variable that
/// `terminator` reads and that has a definition: a call reads its
/// arguments, a multi-way branch reads its discriminant, any other shape
/// reads nothing.
pub fn visit_terminator(
    terminator: &Terminator,
    last_def: &HashMap<u32, usize>,
    use_node: usize,
    cpg: &mut Graph<CpgNode, EdgeType, Directed, u32>,
)
    requires
        use_node < cpg_nodes(*old(cpg)).len() <= u32::MAX,
        definitions_within(last_def@, cpg_nodes(*old(cpg)).len()),
        cpg_edges(*old(cpg)).len() + flow_edges(
            terminator.uses(),
            as_positions(last_def@),
            use_node as int,
        ).len() <= u32::MAX,
    ensures
        cpg_nodes(*final(cpg)) == cpg_nodes(*old(cpg)),
        cpg_edges(*final(cpg)) == cpg_edges(*old(cpg)) + flow_edges(
            terminator.uses(),
            as_positions(last_def@),
            use_node as int,
        ),
{
    match &terminator.kind {
        TerminatorKind::Call { args } => {
            visit_operands(args, last_def, use_node, cpg);
        },
        TerminatorKind::SwitchInt { discr } => {
            visit_operand(discr, last_def, use_node, cpg);
        },
        TerminatorKind::Other => {
            assert(cpg_edges(*cpg) =~= cpg_edges(*old(cpg)) + flow_edges(
                terminator.uses(),
                as_positions(last_def@),
                use_node as int,
            ));
        },
    }
}

/// Creates the nodes of one block, in order: one per statement, then one
/// for the terminator. Returns the index of the first of them.
fn add_block_nodes(
    block_data: &BasicBlockData,
    block_id: usize,
    cpg: &mut Graph<CpgNode, EdgeType, Directed, u32>,
) -> (first: usize)
    requires
        cpg_nodes(*old(cpg)).len() + block_data.statements.len() + 1 <= u32::MAX,
    ensures
        first == cpg_nodes(*old(cpg)).len(),
        cpg_nodes(*final(cpg)) == cpg_nodes(*old(cpg)) + nodes_of(
            block_data.listing(block_id as int),
        ),
        cpg_edges(*final(cpg)) == cpg_edges(*old(cpg)),
{
    let ghost listing = block_data.listing(block_id as int);
    let ghost before = cpg_nodes(*cpg);
    let count: usize = block_data.statements.len();
    let mut statement_index: usize = 0;
    assert(before + nodes_of(listing).take(0) =~= before);
    while statement_index < count
        invariant
            statement_index <= count,
            count == block_data.statements.len(),
            listing == block_data.listing(block_id as int),
            before.len() + count + 1 <= u32::MAX,
            cpg_nodes(*cpg) == before + nodes_of(listing).take(statement_index as int),
            cpg_edges(*cpg) == cpg_edges(*old(cpg)),
        decreases count - statement_index,
    {
        let node = CpgNode {
            label: block_data.statements[statement_index].text.clone(),
            location: Location { block: block_id, statement_index },
        };
        assert(node@ == nodes_of(listing)[statement_index as int]);
        push_node(cpg, node);
        assert(nodes_of(listing).take(statement_index + 1) =~= nodes_of(listing).take(
            statement_index as int,
        ).push(nodes_of(listing)[statement_index as int]));
        statement_index = statement_index + 1;
    }
    let node = CpgNode {
        label: block_data.terminator.text.clone(),
        location: Location { block: block_id, statement_index: count },
    };
    assert(node@ == nodes_of(listing)[count as int]);
    let last = push_node(cpg, node);
    assert(cpg_nodes(*cpg) =~= before + nodes_of(listing));
    last - count
}

/// Adds the edges of one block: for each statement that assigns, data flow
/// into it, after which it is the last definition of its target; then data
/// flow into the terminator and control flow from the terminator to the
/// first node of each successor that is a block of the body.
fn add_block_edges(
    mir: &Body,
    block_id: usize,
    block_first: &Vec<usize>,
    last_def: &mut HashMap<u32, usize>,
    cpg: &mut Graph<CpgNode, EdgeType, Directed, u32>,
)
    requires
        block_id < mir.basic_blocks.len(),
        block_first@.len() == mir.basic_blocks.len(),
        forall|b: int|
            0 <= b < block_first@.len() ==> #[trigger] block_first@[b] == mir.first_of(b),
        cpg_fits(*mir),
        cpg_nodes(*old(cpg)) == cpg_nodes_of(*mir),
        cpg_edges(*old(cpg)) == edges_before(*mir, mir.first_of(block_id as int) as nat),
        as_positions(old(last_def)@) == definitions_before(
            mir.listing(),
            mir.first_of(block_id as int),
        ),
    ensures
        cpg_nodes(*final(cpg)) == cpg_nodes_of(*mir),
        cpg_edges(*final(cpg)) == edges_before(*mir, mir.first_of(block_id + 1) as nat),
        as_positions(final(last_def)@) == definitions_before(
            mir.listing(),
            mir.first_of(block_id + 1),
        ),
{
    let ghost listing = mir.listing();
    let ghost total = listing.len();
    let block_data = &mir.basic_blocks[block_id];
    let first: usize = block_first[block_id];
    let count: usize = block_data.statements.len();
    proof {
        lemma_listing_at(*mir, block_id as int, count as int);
    }
    let mut statement_index: usize = 0;
    while statement_index < count
        invariant
            statement_index <= count,
            count == block_data.statements.len(),
            block_id < mir.basic_blocks.len(),
            *block_data == mir.basic_blocks[block_id as int],
            listing == mir.listing(),
            total == listing.len(),
            first == mir.first_of(block_id as int),
            first + count < total,
            cpg_fits(*mir),
            cpg_nodes(*cpg) == cpg_nodes_of(*mir),
            cpg_edges(*cpg) == edges_before(*mir, (first + statement_index) as nat),
            as_positions(last_def@) == definitions_before(listing, first + statement_index),
        decreases count - statement_index,
    {
        let current: usize = first + statement_index;
        let ghost definitions = as_positions(last_def@);
        proof {
            lemma_listing_at(*mir, block_id as int, statement_index as int);
            lemma_edges_grow(*mir, (current + 1) as nat, total);
            lemma_definitions_step(listing, current, last_def@);
            assert(listing[current as int].successors =~= Seq::<usize>::empty());
            assert(control_edges(Seq::<usize>::empty(), *mir, current as int) =~= Seq::empty());
            assert(edges_at(*mir, current as int) =~= flow_edges(
                block_data.statements[statement_index as int].uses(),
                definitions,
                current as int,
            ));
            assert(definitions_within(last_def@, total)) by {
                assert forall|local: u32| last_def@.contains_key(local) implies (
                #[trigger] last_def@[local]) < total by {
                    lemma_last_definition(listing, local, current as int);
                    assert(definitions.contains_key(local));
                    assert(definitions[local] == last_def@[local] as int);
                }
            }
        }
        match &block_data.statements[statement_index].kind {
            StatementKind::Assign { target, rvalue } => {
                visit_rvalue(rvalue, last_def, current, cpg);
                last_def.insert(*target, current);
            },
            StatementKind::Other => {
                assert(flow_edges(Seq::<u32>::empty(), definitions, current as int)
                    =~= Seq::empty());
                assert(cpg_edges(*cpg) =~= edges_before(*mir, (current + 1) as nat));
            },
        }
        statement_index = statement_index + 1;
    }
    let terminator = &block_data.terminator;
    let terminator_node: usize = first + count;
    let ghost definitions = as_positions(last_def@);
    let ghost flow = flow_edges(terminator.uses(), definitions, terminator_node as int);
    let ghost base = cpg_edges(*cpg);
    proof {
        lemma_edges_grow(*mir, (terminator_node + 1) as nat, total);
        assert(listing[terminator_node as int].uses == terminator.uses());
        assert(listing[terminator_node as int].successors == terminator.successors@);
        assert(definitions_within(last_def@, total)) by {
            assert forall|local: u32| last_def@.contains_key(local) implies (
            #[trigger] last_def@[local]) < total by {
                lemma_last_definition(listing, local, terminator_node as int);
                assert(definitions.contains_key(local));
                assert(definitions[local] == last_def@[local] as int);
            }
        }
    }
    visit_terminator(terminator, last_def, terminator_node, cpg);
    let successor_count: usize = terminator.successors.len();
    let mut k: usize = 0;
    assert(terminator.successors@.take(0) =~= Seq::<usize>::empty());
    assert(base + flow + control_edges(
        terminator.successors@.take(0),
        *mir,
        terminator_node as int,
    ) =~= base + flow);
    while k < successor_count
        invariant
            k <= successor_count,
            successor_count == terminator.successors.len(),
            block_first@.len() == mir.basic_blocks.len(),
            forall|b: int|
                0 <= b < block_first@.len() ==> #[trigger] block_first@[b] == mir.first_of(b),
            terminator_node < total,
            total == mir.listing().len(),
            total <= u32::MAX,
            cpg_nodes(*cpg) == cpg_nodes_of(*mir),
            cpg_edges(*cpg) == base + flow + control_edges(
                terminator.successors@.take(k as int),
                *mir,
                terminator_node as int,
            ),
            base.len() + flow.len() + control_edges(
                terminator.successors@,
                *mir,
                terminator_node as int,
            ).len() <= u32::MAX,
        decreases successor_count - k,
    {
        let successor: usize = terminator.successors[k];
        proof {
            lemma_control_edges_grow(
                terminator.successors@,
                k + 1,
                successor_count as int,
                *mir,
                terminator_node as int,
            );
            assert(terminator.successors@.take(successor_count as int) =~= terminator.successors@);
            assert(terminator.successors@.take(k + 1).drop_last() =~= terminator.successors@.take(
                k as int,
            ));
        }
        if successor < block_first.len() {
            proof {
                lemma_listing_at(*mir, successor as int, 0);
            }
            push_flow(cpg, terminator_node, block_first[successor], EdgeType::ControlFlow);
        }
        k = k + 1;
    }
    proof {
        assert(terminator.successors@.take(successor_count as int) =~= terminator.successors@);
        lemma_definitions_step(listing, terminator_node, last_def@);
        assert(cpg_edges(*cpg) =~= edges_before(*mir, (terminator_node + 1) as nat));
    }
}

/// Builds the code property graph of `mir`: one node per statement and one
/// per terminator, block after block; a data-flow edge from the last
/// assignment of a variable, in that order, to each instruction that reads
/// it; a control-flow edge from each terminator to the first node of each
/// of its successors. The graph must fit 32-bit indices.
pub fn build_cpg_for_function(mir: &Body) -> (cpg: Graph<CpgNode, EdgeType, Directed, u32>)
    requires
        cpg_fits(*mir),
    ensures
        cpg_nodes(cpg) == cpg_nodes_of(*mir),
        cpg_edges(cpg) == cpg_edges_of(*mir),
{
    let mut cpg = empty_cpg();
    let block_count: usize = mir.basic_blocks.len();
    let mut block_first: Vec<usize> = Vec::new();
    let mut block_id: usize = 0;
    assert(cpg_nodes(cpg) =~= nodes_of(mir.listing_of(0)));
    while block_id < block_count
        invariant
            block_id <= block_count,
            block_count == mir.basic_blocks.len(),
            cpg_fits(*mir),
            block_first@.len() == block_id,
            forall|b: int| 0 <= b < block_id ==> #[trigger] block_first@[b] == mir.first_of(b),
            cpg_nodes(cpg) == nodes_of(mir.listing_of(block_id as nat)),
            cpg_edges(cpg) == Seq::<(int, int, EdgeType)>::empty(),
        decreases block_count - block_id,
    {
        proof {
            lemma_listing_grows(*mir, (block_id + 1) as nat, block_count as nat);
            lemma_nodes_of_concat(
                mir.listing_of(block_id as nat),
                mir.basic_blocks[block_id as int].listing(block_id as int),
            );
        }
        let first = add_block_nodes(&mir.basic_blocks[block_id], block_id, &mut cpg);
        block_first.push(first);
        block_id = block_id + 1;
    }
    let mut last_def: HashMap<u32, usize> = HashMap::new();
    let mut block_id: usize = 0;
    assert(as_positions(last_def@) =~= definitions_before(mir.listing(), 0));
    while block_id < block_count
        invariant
            block_id <= block_count,
            block_count == mir.basic_blocks.len(),
            cpg_fits(*mir),
            block_first@.len() == block_count,
            forall|b: int| 0 <= b < block_count ==> #[trigger] block_first@[b] == mir.first_of(b),
            cpg_nodes(cpg) == cpg_nodes_of(*mir),
            cpg_edges(cpg) == edges_before(*mir, mir.first_of(block_id as int) as nat),
            as_positions(last_def@) == definitions_before(
                mir.listing(),
                mir.first_of(block_id as int),
            ),
        decreases block_count - block_id,
    {
        add_block_edges(mir, block_id, &block_first, &mut last_def, &mut cpg);
        block_id = block_id + 1;
    }
    cpg
}

} // verus!
