//! Laws of the control-flow graph: what straight-line code, conditionals,
//! returns, loops and breaks are guaranteed to leave in the graph.

use crate::cfg_builder::CfgBuilder;
use crate::cfg_frame::{
    edge_allowed, grown_from, lemma_cfg_after_children_extends, lemma_cfg_after_extends,
    lemma_grown_add_block, lemma_grown_add_edge, lemma_grown_add_statement, lemma_grown_move_to,
};
use crate::cfg_growth::lemma_cfg_after_growth;
use crate::control_flow::{
    cfg_after, cfg_after_branch, cfg_after_break, cfg_after_children, cfg_loop_opened,
    condition_label, condition_of, ends_in, function_cfg, CfgState,
};
use crate::program_tree::{index_of_block, index_of_kind, role_of, AstNode, NodeRole};
use crate::text::summary_of;
use vstd::prelude::*;

verus! {

/// An edge is in the graph after one more edge was added if and only if it
/// was there before or is the one added.
pub proof fn lemma_has_edge_after_add(st: CfgState, from: int, to: int, a: int, b: int)
    ensures
        st.add_edge(from, to).has_edge(a, b) <==> st.has_edge(a, b) || (a == from && b == to),
{
    let next = st.add_edge(from, to);
    if st.has_edge(a, b) {
        let k = choose|k: int| 0 <= k < st.edges.len() && st.edges[k] == (a, b);
        assert(next.edges[k] == (a, b));
    }
    if a == from && b == to {
        assert(next.edges[st.edges.len() as int] == (a, b));
    }
    if next.has_edge(a, b) {
        let k = choose|k: int| 0 <= k < next.edges.len() && next.edges[k] == (a, b);
        if k < st.edges.len() {
            assert(st.edges[k] == (a, b));
        }
    }
}

/// No edge of a well-formed graph ends in a block that is yet to be
/// allocated.
pub proof fn lemma_no_edge_into_future_block(st: CfgState, from: int, block: int)
    requires
        st.wf(),
        block >= st.blocks.len(),
    ensures
        !st.has_edge(from, block),
{
    if st.has_edge(from, block) {
        let k = choose|k: int| 0 <= k < st.edges.len() && st.edges[k] == (from, block);
        assert(st.has_block(st.edges[k].1));
    }
}

/// A state that extends another has every edge into `block` that the other
/// has, and no further one, if `block` existed before and is neither the
/// exit nor the exit of the innermost loop.
pub proof fn lemma_extension_adds_no_edge_into(
    before: CfgState,
    after: CfgState,
    from: int,
    block: int,
)
    requires
        before.wf(),
        grown_from(before, after),
        before.has_block(block),
        block != before.exit,
        before.loops.len() > 0 ==> block != before.loops.last().1,
    ensures
        after.has_edge(from, block) <==> before.has_edge(from, block),
{
    if after.has_edge(from, block) {
        let k = choose|k: int| 0 <= k < after.edges.len() && after.edges[k] == (from, block);
        if k < before.edges.len() {
            assert(before.edges[k] == (from, block));
        } else {
            assert(edge_allowed(before, after.edges[k]));
        }
    }
    if before.has_edge(from, block) {
        let k = choose|k: int| 0 <= k < before.edges.len() && before.edges[k] == (from, block);
        assert(after.edges[k] == (from, block));
    }
}

/// Visiting a node adds no edge into a block that existed before, unless
/// the block is the exit or the exit of the innermost loop.
pub proof fn lemma_walk_adds_no_edge_into(node: AstNode, st: CfgState, from: int, block: int)
    requires
        st.wf(),
        st.has_block(block),
        block != st.exit,
        st.loops.len() > 0 ==> block != st.loops.last().1,
    ensures
        cfg_after(node, st).has_edge(from, block) <==> st.has_edge(from, block),
{
    lemma_cfg_after_extends(node, st);
    lemma_extension_adds_no_edge_into(st, cfg_after(node, st), from, block);
}

/// Adding an edge raises the in-degree of its target by one and leaves
/// every other in-degree as it is.
pub proof fn lemma_in_degree_after_add(st: CfgState, from: int, to: int, block: int)
    ensures
        st.add_edge(from, to).in_degree(block) == st.in_degree(block) + if to == block {
            1int
        } else {
            0int
        },
{
    st.edges.lemma_filter_len_push(ends_in(block), (from, to));
}

/// A block that is yet to be allocated has in-degree zero.
pub proof fn lemma_in_degree_of_future_block(st: CfgState, block: int)
    requires
        st.wf(),
        block >= st.blocks.len(),
    ensures
        st.in_degree(block) == 0,
{
    assert(st.edges.all(|e: (int, int)| !ends_in(block)(e))) by {
        assert forall|k: int| 0 <= k < st.edges.len() implies !ends_in(block)(
            #[trigger] st.edges[k],
        ) by {
            assert(st.has_block(st.edges[k].1));
        }
    }
    st.edges.lemma_all_neg_filter_empty(ends_in(block));
}

/// A state that extends another leaves the in-degree of `block` as it was,
/// if `block` existed before and is neither the exit nor the exit of the
/// innermost loop.
pub proof fn lemma_extension_keeps_in_degree(before: CfgState, after: CfgState, block: int)
    requires
        before.wf(),
        grown_from(before, after),
        before.has_block(block),
        block != before.exit,
        before.loops.len() > 0 ==> block != before.loops.last().1,
    ensures
        after.in_degree(block) == before.in_degree(block),
{
    let added = after.edges.subrange(before.edges.len() as int, after.edges.len() as int);
    assert(after.edges =~= before.edges + added);
    Seq::filter_distributes_over_add(before.edges, added, ends_in(block));
    assert(added.all(|e: (int, int)| !ends_in(block)(e))) by {
        assert forall|k: int| 0 <= k < added.len() implies !ends_in(block)(
            #[trigger] added[k],
        ) by {
            assert(edge_allowed(before, after.edges[before.edges.len() + k]));
        }
    }
    added.lemma_all_neg_filter_empty(ends_in(block));
}

/// A state that extends another has every edge out of `block` that the
/// other has, and no further one, if `block` existed before and the walk
/// did not start on it.
pub proof fn lemma_extension_adds_no_edge_out_of(
    before: CfgState,
    after: CfgState,
    block: int,
    to: int,
)
    requires
        before.wf(),
        grown_from(before, after),
        before.has_block(block),
        block != before.current,
    ensures
        after.has_edge(block, to) <==> before.has_edge(block, to),
{
    if after.has_edge(block, to) {
        let k = choose|k: int| 0 <= k < after.edges.len() && after.edges[k] == (block, to);
        if k < before.edges.len() {
            assert(before.edges[k] == (block, to));
        } else {
            assert(edge_allowed(before, after.edges[k]));
        }
    }
    if before.has_edge(block, to) {
        let k = choose|k: int| 0 <= k < before.edges.len() && before.edges[k] == (block, to);
        assert(after.edges[k] == (block, to));
    }
}

/// Visiting a node adds no edge into the entry block and none out of the
/// exit block.
pub proof fn lemma_walk_spares_entry_and_exit(node: AstNode, st: CfgState, other: int)
    requires
        st.wf(),
    ensures
        cfg_after(node, st).has_edge(other, st.entry) <==> st.has_edge(other, st.entry),
        cfg_after(node, st).has_edge(st.exit, other) <==> st.has_edge(st.exit, other),
{
    lemma_cfg_after_extends(node, st);
    if st.loops.len() > 0 {
        assert(st.loops[st.loops.len() - 1].1 != st.entry);
    }
    lemma_extension_adds_no_edge_into(st, cfg_after(node, st), other, st.entry);
    lemma_extension_adds_no_edge_out_of(st, cfg_after(node, st), st.exit, other);
}

/// The finished graph of a function has no edge into the entry block and
/// none out of the exit block.
pub proof fn lemma_function_spares_entry_and_exit(function: AstNode, other: int)
    ensures
        !function_cfg(function).has_edge(other, function_cfg(function).entry),
        !function_cfg(function).has_edge(function_cfg(function).exit, other),
{
    let start = CfgState::initial();
    let body_at = index_of_block(function.children@);
    let walked = if 0 <= body_at < function.children.len() {
        cfg_after(function.children[body_at], start)
    } else {
        start
    };
    assert(start.wf());
    assert(!start.has_edge(other, start.entry));
    assert(!start.has_edge(start.exit, other));
    if 0 <= body_at < function.children.len() {
        lemma_walk_spares_entry_and_exit(function.children[body_at], start, other);
        lemma_cfg_after_extends(function.children[body_at], start);
    }
    lemma_has_edge_after_add(walked, walked.current, walked.exit, other, walked.entry);
    lemma_has_edge_after_add(walked, walked.current, walked.exit, walked.exit, other);
}

/// After a `return` the block it sat in leads to the exit, and the cursor
/// is on a fresh, empty block with no incoming edge.
pub proof fn lemma_return_leads_to_exit(node: AstNode, st: CfgState)
    requires
        st.wf(),
        role_of(node.kind@) == NodeRole::Return,
    ensures
        cfg_after(node, st).has_edge(st.current, st.exit),
        cfg_after(node, st).edges == st.edges.push((st.current, st.exit)),
        cfg_after(node, st).blocks.len() == st.blocks.len() + 1,
        cfg_after(node, st).loops == st.loops,
        cfg_after(node, st).current == st.blocks.len(),
        cfg_after(node, st).blocks[st.blocks.len() as int] == Seq::<Seq<char>>::empty(),
        cfg_after(node, st).blocks[st.current] == st.blocks[st.current].push(node.text@),
        cfg_after(node, st).in_degree(st.blocks.len() as int) == 0,
        forall|from: int| !#[trigger] cfg_after(node, st).has_edge(from, st.blocks.len() as int),
{
    let after = cfg_after(node, st);
    let fresh = st.blocks.len() as int;
    lemma_cfg_after_extends(node, st);
    assert(after.edges[st.edges.len() as int] == (st.current, st.exit));
    assert forall|from: int| !#[trigger] after.has_edge(from, fresh) by {
        lemma_has_edge_after_add(st.add_statement(node.text@), st.current, st.exit, from, fresh);
        lemma_no_edge_into_future_block(st, from, fresh);
    }
    assert(after.edges.all(|e: (int, int)| !ends_in(fresh)(e))) by {
        assert forall|k: int| 0 <= k < after.edges.len() implies !ends_in(fresh)(
            #[trigger] after.edges[k],
        ) by {
            assert(after.has_edge(after.edges[k].0, after.edges[k].1));
        }
    }
    after.edges.lemma_all_neg_filter_empty(ends_in(fresh));
}

/// What follows a `return` in the same sequence of statements never gives
/// the block after the `return` an incoming edge: visiting any number of
/// children of any node from there leaves that block unreachable.
pub proof fn lemma_code_after_return_is_unreachable(
    node: AstNode,
    rest: AstNode,
    count: nat,
    st: CfgState,
    from: int,
)
    requires
        st.wf(),
        role_of(node.kind@) == NodeRole::Return,
    ensures
        !cfg_after_children(rest, count, cfg_after(node, st)).has_edge(
            from,
            st.blocks.len() as int,
        ),
{
    let returned = cfg_after(node, st);
    let fresh = st.blocks.len() as int;
    lemma_cfg_after_extends(node, st);
    lemma_return_leads_to_exit(node, st);
    lemma_cfg_after_children_extends(rest, count, returned);
    assert(st.loops.len() > 0 ==> st.has_block(st.loops[st.loops.len() - 1].1));
    lemma_extension_adds_no_edge_into(
        returned,
        cfg_after_children(rest, count, returned),
        from,
        fresh,
    );
}

/// A conditional with both branches: the block of the condition leads to
/// the start of either branch, the end of either branch leads to the merge
/// block, nothing else does, and in particular the block of the condition
/// does not. The cursor ends on the merge block.
pub proof fn lemma_conditional_with_else(node: AstNode, st: CfgState)
    requires
        st.wf(),
        role_of(node.kind@) == NodeRole::Conditional,
        0 <= index_of_kind(node.children@, "consequence"@) < node.children.len(),
        0 <= index_of_kind(node.children@, "alternative"@) < node.children.len(),
    ensures
        ({
            let merge = st.blocks.len() as int;
            let opened = st.add_statement(condition_label(condition_of(node))).add_block();
            let then_branch = node.children[index_of_kind(node.children@, "consequence"@)];
            let else_branch = node.children[index_of_kind(node.children@, "alternative"@)];
            let after_then = cfg_after_branch(then_branch, st.current, merge, opened);
            let after_else = cfg_after_branch(else_branch, st.current, merge, after_then);
            let after = cfg_after(node, st);
            &&& after.current == merge
            &&& after.blocks[merge] == Seq::<Seq<char>>::empty()
            &&& after.has_edge(st.current, merge + 1)
            &&& after.has_edge(st.current, after_then.blocks.len() as int)
            &&& after.has_edge(after_then.current, merge)
            &&& after.has_edge(after_else.current, merge)
            &&& after_then.current != after_else.current
            &&& !after.has_edge(st.current, merge)
            &&& forall|from: int| #[trigger]
                after.has_edge(from, merge) ==> from == after_then.current || from
                    == after_else.current
            &&& after.in_degree(merge) == 2
            &&& after.blocks[st.current] == st.blocks[st.current].push(
                condition_label(condition_of(node)),
            )
        }),
{
    let merge = st.blocks.len() as int;
    let pre = st.current;
    let label = condition_label(condition_of(node));
    let labelled = st.add_statement(label);
    let opened = labelled.add_block();
    let then_branch = node.children[index_of_kind(node.children@, "consequence"@)];
    let else_branch = node.children[index_of_kind(node.children@, "alternative"@)];
    let after_then = cfg_after_branch(then_branch, pre, merge, opened);
    let after_else = cfg_after_branch(else_branch, pre, merge, after_then);
    let after = cfg_after(node, st);
    assert(after == after_else.move_to(merge));
    lemma_grown_add_statement(st, st, label);
    lemma_grown_add_block(st, labelled);
    lemma_branch_edges(then_branch, merge, st, opened);
    lemma_branch_edges(else_branch, merge, st, after_then);
    lemma_cfg_after_extends(node, st);
    lemma_in_degree_of_future_block(st, merge);
    assert(opened.in_degree(merge) == st.in_degree(merge));
    assert(after.in_degree(merge) == after_else.in_degree(merge));
    assert forall|from: int| opened.has_edge(from, merge) implies false by {
        lemma_no_edge_into_future_block(st, from, merge);
    }
    assert(after.blocks[merge] == opened.blocks[merge]);
    assert(opened.blocks[merge] == Seq::<Seq<char>>::empty());
    assert(after_then.has_edge(pre, merge + 1));
    assert(after_else.has_edge(pre, merge + 1));
    assert(after_then.has_edge(after_then.current, merge));
    assert(after_else.has_edge(after_then.current, merge));
    assert(after_else.has_edge(pre, after_then.blocks.len() as int));
    assert(after_else.has_edge(after_else.current, merge));
    assert forall|from: int| #[trigger] after.has_edge(from, merge) implies from
        == after_then.current || from == after_else.current by {
        assert(after_else.has_edge(from, merge));
        if from != after_else.current {
            assert(after_then.has_edge(from, merge));
            if from != after_then.current {
                assert(opened.has_edge(from, merge));
            }
        }
    }
}

/// One branch of a conditional that started in `before`, visited from a
/// state `st` grown from `before` in the same loops: the edges it adds into
/// `merge` and out of the block of the condition.
proof fn lemma_branch_edges(branch: AstNode, merge: int, before: CfgState, st: CfgState)
    requires
        before.wf(),
        grown_from(before, st),
        st.loops == before.loops,
        merge == before.blocks.len(),
        merge < st.blocks.len(),
    ensures
        ({
            let done = cfg_after_branch(branch, before.current, merge, st);
            &&& grown_from(before, done)
            &&& done.loops == before.loops
            &&& done.blocks.len() > st.blocks.len()
            &&& done.current > merge
            &&& done.current >= st.blocks.len()
            &&& done.blocks[merge] == st.blocks[merge]
            &&& done.has_edge(before.current, st.blocks.len() as int)
            &&& done.has_edge(done.current, merge)
            &&& done.in_degree(merge) == st.in_degree(merge) + 1
            &&& forall|b: int|
                0 <= b < st.blocks.len() ==> #[trigger] done.blocks[b] == st.blocks[b]
            &&& forall|a: int, b: int| st.has_edge(a, b) ==> #[trigger] done.has_edge(a, b)
            &&& forall|from: int| #[trigger]
                done.has_edge(from, merge) ==> st.has_edge(from, merge) || from == done.current
        }),
{
    let pre = before.current;
    let start = st.blocks.len() as int;
    let s1 = st.add_block();
    lemma_grown_add_block(before, st);
    let s2 = s1.add_edge(pre, start);
    lemma_grown_add_edge(before, s1, pre, start);
    let s3 = s2.move_to(start);
    lemma_grown_move_to(before, s2, start);
    let walked = cfg_after(branch, s3);
    lemma_cfg_after_extends(branch, s3);
    lemma_cfg_after_growth(branch, s3);
    crate::cfg_frame::lemma_grown_then_extended(before, s3, walked);
    let done = walked.add_edge(walked.current, merge);
    lemma_grown_add_edge(before, walked, walked.current, merge);
    assert(done == cfg_after_branch(branch, pre, merge, st));
    assert(before.loops.len() > 0 ==> before.has_block(
        before.loops[before.loops.len() - 1].1,
    ));
    assert(s1.in_degree(merge) == st.in_degree(merge));
    lemma_in_degree_after_add(s1, pre, start, merge);
    assert(s3.in_degree(merge) == s2.in_degree(merge));
    lemma_extension_keeps_in_degree(s3, walked, merge);
    lemma_in_degree_after_add(walked, walked.current, merge, merge);
    assert(done.edges[walked.edges.len() as int] == (walked.current, merge));
    assert(walked.edges[s1.edges.len() as int] == s3.edges[s1.edges.len() as int]);
    assert(done.edges[s1.edges.len() as int] == (pre, start));
    assert forall|a: int, b: int| st.has_edge(a, b) implies #[trigger] done.has_edge(a, b) by {
        let k = choose|k: int| 0 <= k < st.edges.len() && st.edges[k] == (a, b);
        assert(walked.edges[k] == s3.edges[k]);
        assert(done.edges[k] == (a, b));
    }
    assert forall|from: int| #[trigger] done.has_edge(from, merge) implies st.has_edge(
        from,
        merge,
    ) || from == done.current by {
        lemma_has_edge_after_add(walked, walked.current, merge, from, merge);
        lemma_extension_adds_no_edge_into(s3, walked, from, merge);
        lemma_has_edge_after_add(s1, pre, start, from, merge);
    }
}

/// A conditional without an `else`: the block of the condition leads to
/// the start of the branch and, directly, to the merge block; the end of the
/// branch leads to the merge block; nothing else does. The cursor ends on
/// the merge block.
pub proof fn lemma_conditional_without_else(node: AstNode, st: CfgState)
    requires
        st.wf(),
        role_of(node.kind@) == NodeRole::Conditional,
        0 <= index_of_kind(node.children@, "consequence"@) < node.children.len(),
        index_of_kind(node.children@, "alternative"@) == node.children.len(),
    ensures
        ({
            let merge = st.blocks.len() as int;
            let opened = st.add_statement(condition_label(condition_of(node))).add_block();
            let then_branch = node.children[index_of_kind(node.children@, "consequence"@)];
            let after_then = cfg_after_branch(then_branch, st.current, merge, opened);
            let after = cfg_after(node, st);
            &&& after.current == merge
            &&& after.has_edge(st.current, merge + 1)
            &&& after.has_edge(after_then.current, merge)
            &&& after.has_edge(st.current, merge)
            &&& after_then.current != st.current
            &&& forall|from: int| #[trigger]
                after.has_edge(from, merge) ==> from == after_then.current || from == st.current
            &&& after.in_degree(merge) == 2
            &&& after.blocks[st.current] == st.blocks[st.current].push(
                condition_label(condition_of(node)),
            )
        }),
{
    let merge = st.blocks.len() as int;
    let pre = st.current;
    let label = condition_label(condition_of(node));
    let labelled = st.add_statement(label);
    let opened = labelled.add_block();
    let then_branch = node.children[index_of_kind(node.children@, "consequence"@)];
    let after_then = cfg_after_branch(then_branch, pre, merge, opened);
    let after = cfg_after(node, st);
    assert(after == after_then.add_edge(pre, merge).move_to(merge));
    lemma_grown_add_statement(st, st, label);
    lemma_grown_add_block(st, labelled);
    lemma_branch_edges(then_branch, merge, st, opened);
    lemma_in_degree_of_future_block(st, merge);
    assert(opened.in_degree(merge) == st.in_degree(merge));
    lemma_in_degree_after_add(after_then, pre, merge, merge);
    assert(after.in_degree(merge) == after_then.add_edge(pre, merge).in_degree(merge));
    assert forall|from: int| opened.has_edge(from, merge) implies false by {
        lemma_no_edge_into_future_block(st, from, merge);
    }
    assert forall|from: int| #[trigger] after.has_edge(from, merge) implies from
        == after_then.current || from == pre by {
        lemma_has_edge_after_add(after_then, pre, merge, from, merge);
    }
    lemma_has_edge_after_add(after_then, pre, merge, pre, merge);
    lemma_has_edge_after_add(after_then, pre, merge, pre, merge + 1);
    lemma_has_edge_after_add(after_then, pre, merge, after_then.current, merge);
}

/// A state that extends another has every edge that the other has.
pub proof fn lemma_extension_keeps_edges(before: CfgState, after: CfgState, from: int, to: int)
    requires
        grown_from(before, after),
        before.has_edge(from, to),
    ensures
        after.has_edge(from, to),
{
    let k = choose|k: int| 0 <= k < before.edges.len() && before.edges[k] == (from, to);
    assert(after.edges[k] == (from, to));
}

/// After a `break` inside a loop the block it sat in leads to the exit of
/// the innermost loop, and the cursor is on a fresh, empty block with no
/// incoming edge. Outside any loop the `break` adds no edge at all.
pub proof fn lemma_break_leads_out_of_loop(node: AstNode, st: CfgState)
    requires
        st.wf(),
        role_of(node.kind@) == NodeRole::Break,
    ensures
        st.loops.len() > 0 ==> cfg_after(node, st).has_edge(st.current, st.loops.last().1),
        st.loops.len() > 0 ==> cfg_after(node, st).edges == st.edges.push(
            (st.current, st.loops.last().1),
        ),
        st.loops.len() == 0 ==> cfg_after(node, st).edges == st.edges,
        cfg_after(node, st).blocks.len() == st.blocks.len() + 1,
        cfg_after(node, st).loops == st.loops,
        cfg_after(node, st).current == st.blocks.len(),
        cfg_after(node, st).blocks[st.blocks.len() as int] == Seq::<Seq<char>>::empty(),
        cfg_after(node, st).blocks[st.current] == st.blocks[st.current].push("break"@),
        cfg_after(node, st).in_degree(st.blocks.len() as int) == 0,
        forall|from: int| !#[trigger] cfg_after(node, st).has_edge(from, st.blocks.len() as int),
{
    let after = cfg_after(node, st);
    let fresh = st.blocks.len() as int;
    lemma_cfg_after_extends(node, st);
    if st.loops.len() > 0 {
        assert(after.edges[st.edges.len() as int] == (st.current, st.loops.last().1));
    }
    assert forall|from: int| !#[trigger] after.has_edge(from, fresh) by {
        lemma_no_edge_into_future_block(after, from, fresh + 1);
        if after.has_edge(from, fresh) {
            let k = choose|k: int| 0 <= k < after.edges.len() && after.edges[k] == (from, fresh);
            if k < st.edges.len() {
                assert(st.has_block(st.edges[k].1));
            } else {
                assert(st.has_block(st.loops[st.loops.len() - 1].1));
            }
        }
    }
    assert(after.edges.all(|e: (int, int)| !ends_in(fresh)(e))) by {
        assert forall|k: int| 0 <= k < after.edges.len() implies !ends_in(fresh)(
            #[trigger] after.edges[k],
        ) by {
            assert(after.has_edge(after.edges[k].0, after.edges[k].1));
        }
    }
    after.edges.lemma_all_neg_filter_empty(ends_in(fresh));
}

/// A loop whose body holds a `break` as one of its statements: the block
/// before the loop leads to the header, the header leads to the body and to
/// the block after the loop, the block of the `break` leads to the block
/// after the loop, and the end of the body leads back to the header. The
/// cursor ends on the block after the loop, in the loops it started in.
pub proof fn lemma_loop_with_break(node: AstNode, position: int, st: CfgState)
    requires
        st.wf(),
        role_of(node.kind@) == NodeRole::Loop,
        0 <= index_of_block(node.children@) < node.children.len(),
        0 <= position < node.children[index_of_block(node.children@)].children.len(),
        role_of(
            node.children[index_of_block(node.children@)].children[position].kind@,
        ) == NodeRole::Break,
    ensures
        ({
            let header = st.blocks.len() as int;
            let body = node.children[index_of_block(node.children@)];
            let opened = cfg_loop_opened(st);
            let at_break = cfg_after_children(body, position as nat, opened);
            let body_done = cfg_after(body, opened);
            let after = cfg_after(node, st);
            &&& after.has_edge(st.current, header)
            &&& after.has_edge(header, header + 1)
            &&& after.has_edge(header, header + 2)
            &&& after.has_edge(at_break.current, header + 2)
            &&& after.has_edge(body_done.current, header)
            &&& after.current == header + 2
            &&& after.loops == st.loops
        }),
{
    let header = st.blocks.len() as int;
    let body = node.children[index_of_block(node.children@)];
    let opened = cfg_loop_opened(st);
    let at_break = cfg_after_children(body, position as nat, opened);
    let broken = cfg_after_children(body, (position + 1) as nat, opened);
    let body_done = cfg_after(body, opened);
    let after = cfg_after(node, st);
    crate::program_tree::lemma_index_of_block(node.children@);
    assert(role_of(body.kind@) == NodeRole::Block);
    assert(body_done == cfg_after_children(body, body.children.len() as nat, opened));
    lemma_cfg_after_extends(node, st);
    lemma_loop_opened(st);
    lemma_cfg_after_children_extends(body, position as nat, opened);
    assert(((position + 1) as nat - 1) as nat == position as nat);
    assert(broken == cfg_after(body.children[position], at_break));
    assert(broken == cfg_after_break(at_break));
    assert(at_break.loops.last() == (header, header + 2));
    lemma_break_leads_out_of_loop(body.children[position], at_break);
    crate::cfg_frame::lemma_cfg_after_more_children_extends(
        body,
        (position + 1) as nat,
        body.children.len() as nat,
        opened,
    );
    lemma_cfg_after_children_extends(body, body.children.len() as nat, opened);
    lemma_extension_keeps_edges(broken, body_done, at_break.current, header + 2);
    lemma_extension_keeps_edges(opened, body_done, st.current, header);
    lemma_extension_keeps_edges(opened, body_done, header, header + 1);
    lemma_extension_keeps_edges(opened, body_done, header, header + 2);
    lemma_has_edge_after_add(body_done, body_done.current, header, st.current, header);
    lemma_has_edge_after_add(body_done, body_done.current, header, header, header + 1);
    lemma_has_edge_after_add(body_done, body_done.current, header, header, header + 2);
    lemma_has_edge_after_add(body_done, body_done.current, header, at_break.current, header + 2);
    lemma_has_edge_after_add(body_done, body_done.current, header, body_done.current, header);
}

/// The state at the start of a loop body is well formed, inside the new
/// loop, and holds the three edges that open the loop.
pub proof fn lemma_loop_opened(st: CfgState)
    requires
        st.wf(),
    ensures
        ({
            let header = st.blocks.len() as int;
            let opened = cfg_loop_opened(st);
            &&& grown_from(st, opened)
            &&& opened.loops == st.loops.push((header, header + 2))
            &&& opened.current == header + 1
            &&& opened.blocks.len() == st.blocks.len() + 3
            &&& opened.has_edge(st.current, header)
            &&& opened.has_edge(header, header + 1)
            &&& opened.has_edge(header, header + 2)
        }),
{
    let header = st.blocks.len() as int;
    let s1 = st.add_block();
    lemma_grown_add_block(st, st);
    let s2 = s1.add_edge(st.current, header);
    lemma_grown_add_edge(st, s1, st.current, header);
    let s3 = s2.add_block();
    lemma_grown_add_block(st, s2);
    let s4 = s3.add_block();
    lemma_grown_add_block(st, s3);
    let s5 = s4.enter_loop(header, header + 2);
    assert(grown_from(st, s5)) by {
        assert forall|k: int| 0 <= k < s5.loops.len() implies s5.has_block(
            (#[trigger] s5.loops[k]).0,
        ) && s5.has_block(s5.loops[k].1) by {
            if k < s4.loops.len() {
                assert(s4.has_block(s4.loops[k].0));
            }
        }
        assert forall|k: int| 0 <= k < s5.edges.len() implies s5.has_block(
            (#[trigger] s5.edges[k]).0,
        ) && s5.has_block(s5.edges[k].1) by {
            assert(s4.has_block(s4.edges[k].0));
        }
    }
    let s6 = s5.add_edge(header, header + 1);
    lemma_grown_add_edge(st, s5, header, header + 1);
    let s7 = s6.add_edge(header, header + 2);
    lemma_grown_add_edge(st, s6, header, header + 2);
    let opened = s7.move_to(header + 1);
    lemma_grown_move_to(st, s7, header + 1);
    assert(opened == cfg_loop_opened(st));
    assert(opened.edges[st.edges.len() as int] == (st.current, header));
    assert(opened.edges[st.edges.len() as int + 1] == (header, header + 1));
    assert(opened.edges[st.edges.len() as int + 2] == (header, header + 2));
}

/// Whether visiting `node` meets statements only: no conditional, loop,
/// `return` or `break`.
pub open spec fn straight_line(node: AstNode) -> bool
    decreases node, 1nat,
{
    match role_of(node.kind@) {
        NodeRole::Block | NodeRole::Container => straight_line_below(
            node,
            node.children.len() as nat,
        ),
        NodeRole::Statement => true,
        _ => false,
    }
}

/// Whether visiting the first `count` children of `node` meets statements
/// only.
pub open spec fn straight_line_below(node: AstNode, count: nat) -> bool
    decreases node, 0nat, count,
{
    if count == 0 || count > node.children.len() {
        true
    } else {
        straight_line_below(node, (count - 1) as nat) && straight_line(node.children[count - 1])
    }
}

/// The summary lines of the statements that visiting `node` meets, in
/// order, empty ones left out.
pub open spec fn statement_lines(node: AstNode) -> Seq<Seq<char>>
    decreases node, 1nat,
{
    match role_of(node.kind@) {
        NodeRole::Block | NodeRole::Container => statement_lines_below(
            node,
            node.children.len() as nat,
        ),
        NodeRole::Statement => if summary_of(node.text@).len() > 0 {
            seq![summary_of(node.text@)]
        } else {
            Seq::empty()
        },
        _ => Seq::empty(),
    }
}

/// The summary lines of the statements that visiting the first `count`
/// children of `node` meets.
pub open spec fn statement_lines_below(node: AstNode, count: nat) -> Seq<Seq<char>>
    decreases node, 0nat, count,
{
    if count == 0 || count > node.children.len() {
        Seq::empty()
    } else {
        statement_lines_below(node, (count - 1) as nat) + statement_lines(node.children[count - 1])
    }
}

/// The state `st` with `lines` appended to its current block.
pub open spec fn with_lines(st: CfgState, lines: Seq<Seq<char>>) -> CfgState {
    CfgState { blocks: st.blocks.update(st.current, st.blocks[st.current] + lines), ..st }
}

/// Straight-line code changes nothing but the current block, which
/// receives the summary lines of its statements in order: no block, no
/// edge, and the cursor stays.
pub proof fn lemma_straight_line_accumulates(node: AstNode, st: CfgState)
    requires
        st.has_block(st.current),
        straight_line(node),
    ensures
        cfg_after(node, st) == with_lines(st, statement_lines(node)),
    decreases node, 1nat,
{
    match role_of(node.kind@) {
        NodeRole::Block | NodeRole::Container => {
            lemma_straight_line_children_accumulate(node, node.children.len() as nat, st);
        },
        NodeRole::Statement => {
            let line = summary_of(node.text@);
            if line.len() > 0 {
                assert(st.blocks[st.current].push(line) =~= st.blocks[st.current] + seq![line]);
            } else {
                assert(st.blocks[st.current] + Seq::<Seq<char>>::empty()
                    =~= st.blocks[st.current]);
                assert(st.blocks.update(st.current, st.blocks[st.current]) =~= st.blocks);
            }
        },
        _ => {},
    }
}

/// The first `count` children of a node whose children are straight-line
/// code leave their summary lines in the current block and nothing else.
pub proof fn lemma_straight_line_children_accumulate(node: AstNode, count: nat, st: CfgState)
    requires
        st.has_block(st.current),
        straight_line_below(node, count),
    ensures
        cfg_after_children(node, count, st) == with_lines(st, statement_lines_below(node, count)),
    decreases node, 0nat, count,
{
    if count == 0 || count > node.children.len() {
        assert(st.blocks[st.current] + Seq::<Seq<char>>::empty() =~= st.blocks[st.current]);
        assert(st.blocks.update(st.current, st.blocks[st.current]) =~= st.blocks);
    } else {
        let earlier_lines = statement_lines_below(node, (count - 1) as nat);
        let earlier = cfg_after_children(node, (count - 1) as nat, st);
        let child = node.children[count - 1];
        lemma_straight_line_children_accumulate(node, (count - 1) as nat, st);
        lemma_straight_line_accumulates(child, earlier);
        let own = statement_lines(child);
        assert((st.blocks[st.current] + earlier_lines) + own =~= st.blocks[st.current] + (
        earlier_lines + own));
        assert(with_lines(earlier, own).blocks =~= with_lines(st, earlier_lines + own).blocks);
    }
}

/// The graph of a function whose body is straight-line code has the entry
/// block, which holds the summary lines of the body, and the exit block,
/// joined by a single edge.
pub proof fn lemma_straight_line_function(function: AstNode)
    requires
        0 <= index_of_block(function.children@) < function.children.len(),
        straight_line(
            function.children[index_of_block(function.children@)],
        ),
    ensures
        function_cfg(function).blocks == seq![
            seq!["Entry"@] + statement_lines(
                function.children[index_of_block(function.children@)],
            ),
            seq!["Exit"@],
        ],
        function_cfg(function).edges == seq![(0int, 1int)],
{
    let body = function.children[index_of_block(function.children@)];
    lemma_straight_line_accumulates(body, CfgState::initial());
    let walked = cfg_after(body, CfgState::initial());
    assert(function_cfg(function).blocks =~= seq![
        seq!["Entry"@] + statement_lines(body),
        seq!["Exit"@],
    ]);
    assert(function_cfg(function).edges =~= seq![(0int, 1int)]);
}

/// The graph of a function without a body is the entry block leading to
/// the exit block.
pub proof fn lemma_function_without_body(function: AstNode)
    requires
        index_of_block(function.children@) == function.children.len(),
    ensures
        function_cfg(function).blocks == CfgState::initial().blocks,
        function_cfg(function).edges == seq![(0int, 1int)],
{
    assert(function_cfg(function).edges =~= seq![(0int, 1int)]);
}

/// Construction is a function of the tree: two builders that each hold the
/// graph of the same function hold the same blocks and the same edges.
pub proof fn lemma_function_cfg_is_deterministic(
    function: AstNode,
    first: CfgBuilder,
    second: CfgBuilder,
)
    requires
        first@ == function_cfg(function),
        second@ == function_cfg(function),
    ensures
        first@.blocks.len() == second@.blocks.len(),
        first@.edges.len() == second@.edges.len(),
        first@.edges == second@.edges,
        first@.blocks == second@.blocks,
{
}

/// Visiting is a function of the tree and the state it starts from: two
/// builders that were equal before visiting the same node are equal after.
pub proof fn lemma_walk_is_deterministic(
    node: AstNode,
    first_before: CfgBuilder,
    first_after: CfgBuilder,
    second_before: CfgBuilder,
    second_after: CfgBuilder,
)
    requires
        first_before@ == second_before@,
        first_after@ == cfg_after(node, first_before@),
        second_after@ == cfg_after(node, second_before@),
    ensures
        first_after@ == second_after@,
{
}

} // verus!
