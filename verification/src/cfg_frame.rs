//! What a walk may touch: it only appends to the graph, writes only to its
//! current block or to blocks it allocated, and sends edges only from those
//! blocks to the exit, to the exit of the innermost loop, or to blocks it
//! allocated.

use crate::cfg_growth::{lemma_cfg_after_branch_growth, lemma_cfg_after_growth};
use crate::control_flow::{
    cfg_after, cfg_after_branch, cfg_after_children, cfg_loop_opened, condition_label,
    condition_of, CfgState,
};
use crate::program_tree::{index_of_block, index_of_kind, role_of, AstNode, NodeRole};
use vstd::prelude::*;

verus! {

/// Whether a walk that started in `before` may have added the edge `edge`:
/// it leaves the block the walk started on or a block allocated since, and
/// it reaches the exit, the exit of the innermost loop around the walk, or
/// a block allocated since.
pub open spec fn edge_allowed(before: CfgState, edge: (int, int)) -> bool {
    &&& edge.0 == before.current || edge.0 >= before.blocks.len()
    &&& edge.1 == before.exit || edge.1 >= before.blocks.len() || (before.loops.len() > 0
        && edge.1 == before.loops.last().1)
}

/// Whether `after` can be the state of a walk that started in `before`,
/// whatever loops the walk is in at the moment.
pub open spec fn grown_from(before: CfgState, after: CfgState) -> bool {
    &&& after.wf()
    &&& after.entry == before.entry
    &&& after.exit == before.exit
    &&& before.blocks.len() <= after.blocks.len()
    &&& before.edges.len() <= after.edges.len()
    &&& after.current == before.current || after.current >= before.blocks.len()
    &&& forall|k: int|
        0 <= k < before.edges.len() ==> #[trigger] after.edges[k] == before.edges[k]
    &&& forall|k: int|
        before.edges.len() <= k < after.edges.len() ==> edge_allowed(
            before,
            #[trigger] after.edges[k],
        )
    &&& forall|b: int|
        0 <= b < before.blocks.len() && b != before.current ==> #[trigger] after.blocks[b]
            == before.blocks[b]
    &&& before.blocks[before.current].is_prefix_of(after.blocks[before.current])
}

/// Whether `after` extends `before` as a finished walk does: grown from it,
/// and back in the same loops.
pub open spec fn extends(before: CfgState, after: CfgState) -> bool {
    grown_from(before, after) && after.loops == before.loops
}

/// Growth survives one more block.
pub proof fn lemma_grown_add_block(before: CfgState, after: CfgState)
    requires
        before.wf(),
        grown_from(before, after),
    ensures
        grown_from(before, after.add_block()),
        after.add_block().has_block(after.blocks.len() as int),
{
    let next = after.add_block();
    assert forall|k: int| 0 <= k < next.loops.len() implies next.has_block(
        (#[trigger] next.loops[k]).0,
    ) && next.has_block(next.loops[k].1) by {
        assert(after.has_block(after.loops[k].0));
    }
    assert forall|k: int| 0 <= k < next.edges.len() implies next.has_block(
        (#[trigger] next.edges[k]).0,
    ) && next.has_block(next.edges[k].1) by {
        assert(after.has_block(after.edges[k].0));
    }
}

/// Growth survives one more edge that the walk may add.
pub proof fn lemma_grown_add_edge(before: CfgState, after: CfgState, from: int, to: int)
    requires
        before.wf(),
        grown_from(before, after),
        after.has_block(from),
        after.has_block(to),
        edge_allowed(before, (from, to)),
    ensures
        grown_from(before, after.add_edge(from, to)),
{
    let next = after.add_edge(from, to);
    assert forall|k: int| 0 <= k < next.edges.len() implies next.has_block(
        (#[trigger] next.edges[k]).0,
    ) && next.has_block(next.edges[k].1) by {
        if k < after.edges.len() {
            assert(after.has_block(after.edges[k].0));
        }
    }
    assert forall|k: int| before.edges.len() <= k < next.edges.len() implies edge_allowed(
        before,
        #[trigger] next.edges[k],
    ) by {
        if k < after.edges.len() {
            assert(edge_allowed(before, after.edges[k]));
        }
    }
}

/// Growth survives a line appended to the current block.
pub proof fn lemma_grown_add_statement(before: CfgState, after: CfgState, line: Seq<char>)
    requires
        before.wf(),
        grown_from(before, after),
    ensures
        grown_from(before, after.add_statement(line)),
{
    let next = after.add_statement(line);
    assert forall|k: int| 0 <= k < next.loops.len() implies next.has_block(
        (#[trigger] next.loops[k]).0,
    ) && next.has_block(next.loops[k].1) by {
        assert(after.has_block(after.loops[k].0));
    }
    assert forall|k: int| 0 <= k < next.edges.len() implies next.has_block(
        (#[trigger] next.edges[k]).0,
    ) && next.has_block(next.edges[k].1) by {
        assert(after.has_block(after.edges[k].0));
    }
}

/// Growth survives moving the cursor to a block allocated since the start.
pub proof fn lemma_grown_move_to(before: CfgState, after: CfgState, block: int)
    requires
        before.wf(),
        grown_from(before, after),
        after.has_block(block),
        block == before.current || block >= before.blocks.len(),
    ensures
        grown_from(before, after.move_to(block)),
{
    let next = after.move_to(block);
    assert forall|k: int| 0 <= k < next.edges.len() implies next.has_block(
        (#[trigger] next.edges[k]).0,
    ) && next.has_block(next.edges[k].1) by {
        assert(after.has_block(after.edges[k].0));
    }
    assert forall|k: int| 0 <= k < next.loops.len() implies next.has_block(
        (#[trigger] next.loops[k]).0,
    ) && next.has_block(next.loops[k].1) by {
        assert(after.has_block(after.loops[k].0));
    }
}

/// A walk inside a walk: if `middle` is grown from `before` and `after`
/// extends `middle`, every edge added since `middle` being one that the
/// outer walk may add, then `after` is grown from `before`.
pub proof fn lemma_grown_then_extended(before: CfgState, middle: CfgState, after: CfgState)
    requires
        before.wf(),
        grown_from(before, middle),
        extends(middle, after),
        middle.loops.len() > 0 ==> middle.loops.last().1 >= before.blocks.len() || (
        before.loops.len() > 0 && middle.loops.last().1 == before.loops.last().1),
    ensures
        grown_from(before, after),
{
    assert forall|k: int| 0 <= k < before.edges.len() implies #[trigger] after.edges[k]
        == before.edges[k] by {
        assert(after.edges[k] == middle.edges[k]);
    }
    assert forall|k: int| before.edges.len() <= k < after.edges.len() implies edge_allowed(
        before,
        #[trigger] after.edges[k],
    ) by {
        if k < middle.edges.len() {
            assert(after.edges[k] == middle.edges[k]);
            assert(edge_allowed(before, middle.edges[k]));
        } else {
            assert(edge_allowed(middle, after.edges[k]));
        }
    }
    assert forall|b: int| 0 <= b < before.blocks.len() && b != before.current implies #[trigger]
        after.blocks[b] == before.blocks[b] by {
        assert(middle.blocks[b] == before.blocks[b]);
        if b != middle.current {
            assert(after.blocks[b] == middle.blocks[b]);
        }
    }
    if middle.current == before.current {
    } else {
        assert(after.blocks[before.current] == middle.blocks[before.current]);
    }
}

/// Visiting any node extends the state it starts from.
pub proof fn lemma_cfg_after_extends(node: AstNode, st: CfgState)
    requires
        st.wf(),
    ensures
        extends(st, cfg_after(node, st)),
    decreases node, 1nat,
{
    lemma_cfg_after_growth(node, st);
    match role_of(node.kind@) {
        NodeRole::Block | NodeRole::Container => {
            lemma_cfg_after_children_extends(node, node.children.len() as nat, st);
        },
        NodeRole::Conditional => {
            let merge = st.blocks.len() as int;
            let labelled = st.add_statement(condition_label(condition_of(node)));
            let opened = labelled.add_block();
            lemma_grown_add_statement(st, st, condition_label(condition_of(node)));
            lemma_grown_add_block(st, labelled);
            let then_at = index_of_kind(node.children@, "consequence"@);
            let after_then = if 0 <= then_at < node.children.len() {
                cfg_after_branch(node.children[then_at], st.current, merge, opened)
            } else {
                opened
            };
            if 0 <= then_at < node.children.len() {
                lemma_cfg_after_branch_grown(node.children[then_at], merge, st, opened);
            }
            let else_at = index_of_kind(node.children@, "alternative"@);
            let after_else = if 0 <= else_at < node.children.len() {
                cfg_after_branch(node.children[else_at], st.current, merge, after_then)
            } else {
                after_then.add_edge(st.current, merge)
            };
            if 0 <= else_at < node.children.len() {
                lemma_cfg_after_branch_grown(node.children[else_at], merge, st, after_then);
            } else {
                lemma_grown_add_edge(st, after_then, st.current, merge);
            }
            lemma_grown_move_to(st, after_else, merge);
        },
        NodeRole::Return => {
            let recorded = st.add_statement(node.text@);
            lemma_grown_add_statement(st, st, node.text@);
            lemma_grown_add_edge(st, recorded, st.current, st.exit);
            let left = recorded.add_edge(st.current, st.exit);
            lemma_grown_add_block(st, left);
            lemma_grown_move_to(st, left.add_block(), st.blocks.len() as int);
        },
        NodeRole::Loop => {
            let header = st.blocks.len() as int;
            let s1 = st.add_block();
            lemma_grown_add_block(st, st);
            let s2 = s1.add_edge(st.current, header);
            lemma_grown_add_edge(st, s1, st.current, header);
            let s3 = s2.add_block();
            lemma_grown_add_block(st, s2);
            let s4 = s3.add_block();
            lemma_grown_add_block(st, s3);
            let s5 = s4.enter_loop(header, header + 2);
            assert(grown_from(st, s5)) by {
                assert forall|k: int| 0 <= k < s5.loops.len() implies s5.has_block(
                    (#[trigger] s5.loops[k]).0,
                ) && s5.has_block(s5.loops[k].1) by {
                    if k < s4.loops.len() {
                        assert(s4.has_block(s4.loops[k].0));
                    }
                }
                assert forall|k: int| 0 <= k < s5.edges.len() implies s5.has_block(
                    (#[trigger] s5.edges[k]).0,
                ) && s5.has_block(s5.edges[k].1) by {
                    assert(s4.has_block(s4.edges[k].0));
                }
            }
            let s6 = s5.add_edge(header, header + 1);
            lemma_grown_add_edge(st, s5, header, header + 1);
            let s7 = s6.add_edge(header, header + 2);
            lemma_grown_add_edge(st, s6, header, header + 2);
            let opened = s7.move_to(header + 1);
            lemma_grown_move_to(st, s7, header + 1);
            assert(opened == cfg_loop_opened(st));
            let body_at = index_of_block(node.children@);
            let body_done = if 0 <= body_at < node.children.len() {
                cfg_after(node.children[body_at], opened)
            } else {
                opened
            };
            if 0 <= body_at < node.children.len() {
                lemma_cfg_after_extends(node.children[body_at], opened);
                lemma_grown_then_extended(st, opened, body_done);
            }
            let s8 = body_done.add_edge(body_done.current, header);
            lemma_grown_add_edge(st, body_done, body_done.current, header);
            let s9 = s8.leave_loop();
            assert(s9.loops =~= st.loops);
            assert(grown_from(st, s9)) by {
                assert forall|k: int| 0 <= k < s9.loops.len() implies s9.has_block(
                    (#[trigger] s9.loops[k]).0,
                ) && s9.has_block(s9.loops[k].1) by {
                    assert(s8.has_block(s8.loops[k].0));
                }
                assert forall|k: int| 0 <= k < s9.edges.len() implies s9.has_block(
                    (#[trigger] s9.edges[k]).0,
                ) && s9.has_block(s9.edges[k].1) by {
                    assert(s8.has_block(s8.edges[k].0));
                }
            }
            lemma_grown_move_to(st, s9, header + 2);
        },
        NodeRole::Break => {
            let recorded = st.add_statement("break"@);
            lemma_grown_add_statement(st, st, "break"@);
            let left = if st.loops.len() > 0 {
                recorded.add_edge(st.current, st.loops.last().1)
            } else {
                recorded
            };
            if st.loops.len() > 0 {
                assert(st.has_block(st.loops[st.loops.len() - 1].1));
                lemma_grown_add_edge(st, recorded, st.current, st.loops.last().1);
            }
            lemma_grown_add_block(st, left);
            lemma_grown_move_to(st, left.add_block(), st.blocks.len() as int);
        },
        NodeRole::Statement => {
            lemma_grown_add_statement(st, st, crate::text::summary_of(node.text@));
        },
    }
}

/// One branch of a conditional that started in `before`, visited from a
/// state `st` grown from `before` in the same loops, with `merge` allocated
/// since: the result is grown from `before` too.
pub proof fn lemma_cfg_after_branch_grown(
    branch: AstNode,
    merge: int,
    before: CfgState,
    st: CfgState,
)
    requires
        before.wf(),
        grown_from(before, st),
        st.loops == before.loops,
        before.blocks.len() <= merge < st.blocks.len(),
    ensures
        grown_from(before, cfg_after_branch(branch, before.current, merge, st)),
        cfg_after_branch(branch, before.current, merge, st).loops == before.loops,
        cfg_after_branch(branch, before.current, merge, st).blocks.len() > st.blocks.len(),
    decreases branch, 2nat,
{
    lemma_cfg_after_branch_growth(branch, before.current, merge, st);
    let start = st.blocks.len() as int;
    let s1 = st.add_block();
    lemma_grown_add_block(before, st);
    let s2 = s1.add_edge(before.current, start);
    lemma_grown_add_edge(before, s1, before.current, start);
    let s3 = s2.move_to(start);
    lemma_grown_move_to(before, s2, start);
    let done = cfg_after(branch, s3);
    lemma_cfg_after_extends(branch, s3);
    lemma_grown_then_extended(before, s3, done);
    lemma_grown_add_edge(before, done, done.current, merge);
}

/// Visiting the first `count` children of a node extends the state it
/// starts from.
pub proof fn lemma_cfg_after_children_extends(node: AstNode, count: nat, st: CfgState)
    requires
        st.wf(),
    ensures
        extends(st, cfg_after_children(node, count, st)),
    decreases node, 0nat, count,
{
    if count == 0 || count > node.children.len() {
    } else {
        let earlier = cfg_after_children(node, (count - 1) as nat, st);
        lemma_cfg_after_children_extends(node, (count - 1) as nat, st);
        lemma_cfg_after_extends(node.children[count - 1], earlier);
        lemma_grown_then_extended(st, earlier, cfg_after(node.children[count - 1], earlier));
    }
}

/// Visiting more children of a node extends the state reached after fewer.
pub proof fn lemma_cfg_after_more_children_extends(
    node: AstNode,
    fewer: nat,
    more: nat,
    st: CfgState,
)
    requires
        st.wf(),
        fewer <= more <= node.children.len(),
    ensures
        extends(cfg_after_children(node, fewer, st), cfg_after_children(node, more, st)),
    decreases more,
{
    let from = cfg_after_children(node, fewer, st);
    lemma_cfg_after_children_extends(node, fewer, st);
    if fewer < more {
        let earlier = cfg_after_children(node, (more - 1) as nat, st);
        lemma_cfg_after_more_children_extends(node, fewer, (more - 1) as nat, st);
        lemma_cfg_after_extends(node.children[more - 1], earlier);
        lemma_grown_then_extended(from, earlier, cfg_after(node.children[more - 1], earlier));
    }
}

} // verus!
