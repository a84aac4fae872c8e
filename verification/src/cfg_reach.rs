//! Reachability: in the finished graph of a function that meets no `break`
//! outside a loop, the exit can be reached from the entry.

use crate::cfg_frame::{
    grown_from, lemma_cfg_after_branch_grown, lemma_cfg_after_children_extends,
    lemma_cfg_after_extends, lemma_grown_add_block, lemma_grown_add_statement,
};
use crate::cfg_laws::{lemma_loop_opened, lemma_return_leads_to_exit};
use crate::control_flow::{
    cfg_after, cfg_after_branch, cfg_after_children, cfg_branch_opened, cfg_loop_opened,
    condition_label, condition_of, function_cfg, CfgState,
};
use crate::program_tree::{index_of_block, index_of_kind, role_of, AstNode, NodeRole};
use vstd::prelude::*;

verus! {

/// Whether `path` is a walk along edges of the graph: it names at least one
/// block, and each block leads to the next.
pub open spec fn is_path(st: CfgState, path: Seq<int>) -> bool {
    &&& path.len() > 0
    &&& forall|i: int| 0 <= i < path.len() - 1 ==> st.has_edge(#[trigger] path[i], path[i + 1])
}

/// Whether `to` can be reached from `from` along edges of the graph.
pub open spec fn reachable(st: CfgState, from: int, to: int) -> bool {
    exists|path: Seq<int>| #[trigger] is_path(st, path) && path.first() == from && path.last() == to
}

/// Whether the block under the cursor can be reached from the entry.
pub open spec fn live(st: CfgState) -> bool {
    reachable(st, st.entry, st.current)
}

/// Whether the exit can be reached from the entry.
pub open spec fn exit_reached(st: CfgState) -> bool {
    reachable(st, st.entry, st.exit)
}

/// Whether visiting `node` meets a `break` that is in no loop of `node`.
pub open spec fn breaks_out(node: AstNode) -> bool
    decreases node, 1nat,
{
    match role_of(node.kind@) {
        NodeRole::Block | NodeRole::Container => breaks_out_below(
            node,
            node.children.len() as nat,
        ),
        NodeRole::Conditional => {
            let then_at = index_of_kind(node.children@, "consequence"@);
            let else_at = index_of_kind(node.children@, "alternative"@);
            (0 <= then_at < node.children.len() && breaks_out(node.children[then_at])) || (0
                <= else_at < node.children.len() && breaks_out(node.children[else_at]))
        },
        NodeRole::Break => true,
        _ => false,
    }
}

/// Whether visiting one of the first `count` children of `node` meets a
/// `break` that is in no loop of that child.
pub open spec fn breaks_out_below(node: AstNode, count: nat) -> bool
    decreases node, 0nat, count,
{
    if count == 0 || count > node.children.len() {
        false
    } else {
        breaks_out_below(node, (count - 1) as nat) || breaks_out(node.children[count - 1])
    }
}

/// Every block can be reached from itself.
pub proof fn lemma_reachable_self(st: CfgState, block: int)
    ensures
        reachable(st, block, block),
{
    let path = seq![block];
    assert(is_path(st, path));
    assert(path.first() == block && path.last() == block);
}

/// What can be reached can be left by an edge.
pub proof fn lemma_reachable_step(st: CfgState, from: int, via: int, to: int)
    requires
        reachable(st, from, via),
        st.has_edge(via, to),
    ensures
        reachable(st, from, to),
{
    let path = choose|path: Seq<int>|
        #[trigger] is_path(st, path) && path.first() == from && path.last() == via;
    let longer = path.push(to);
    assert forall|i: int| 0 <= i < longer.len() - 1 implies st.has_edge(
        #[trigger] longer[i],
        longer[i + 1],
    ) by {
        if i < path.len() - 1 {
            assert(st.has_edge(path[i], path[i + 1]));
        }
    }
    assert(is_path(st, longer));
    assert(longer.first() == from && longer.last() == to);
}

/// Whether `after` has every edge of `before`, at the same place.
pub open spec fn keeps_edges(before: CfgState, after: CfgState) -> bool {
    &&& before.edges.len() <= after.edges.len()
    &&& forall|k: int| 0 <= k < before.edges.len() ==> #[trigger] after.edges[k] == before.edges[k]
}

/// What can be reached stays within reach when edges are only added.
pub proof fn lemma_reachable_kept(before: CfgState, after: CfgState, from: int, to: int)
    requires
        keeps_edges(before, after),
        reachable(before, from, to),
    ensures
        reachable(after, from, to),
{
    let path = choose|path: Seq<int>|
        #[trigger] is_path(before, path) && path.first() == from && path.last() == to;
    assert forall|i: int| 0 <= i < path.len() - 1 implies after.has_edge(
        #[trigger] path[i],
        path[i + 1],
    ) by {
        assert(before.has_edge(path[i], path[i + 1]));
        let k = choose|k: int|
            0 <= k < before.edges.len() && before.edges[k] == (path[i], path[i + 1]);
        assert(after.edges[k] == (path[i], path[i + 1]));
    }
    assert(is_path(after, path));
}

/// What can be reached stays within reach, and gains the target of an edge
/// added from a block within reach.
proof fn lemma_reachable_through_new_edge(st: CfgState, from: int, via: int, to: int)
    requires
        reachable(st, from, via),
    ensures
        reachable(st.add_edge(via, to), from, to),
        keeps_edges(st, st.add_edge(via, to)),
{
    let next = st.add_edge(via, to);
    lemma_reachable_kept(st, next, from, via);
    assert(next.edges[st.edges.len() as int] == (via, to));
    lemma_reachable_step(next, from, via, to);
}

/// A walk that starts where the entry leads and meets no `break` outside a
/// loop ends where the entry leads, or has made the exit reachable.
pub proof fn lemma_walk_stays_live(node: AstNode, st: CfgState)
    requires
        st.wf(),
        live(st),
        !breaks_out(node),
    ensures
        live(cfg_after(node, st)) || exit_reached(cfg_after(node, st)),
    decreases node, 1nat,
{
    let after = cfg_after(node, st);
    let entry = st.entry;
    lemma_cfg_after_extends(node, st);
    match role_of(node.kind@) {
        NodeRole::Block | NodeRole::Container => {
            lemma_children_stay_live(node, node.children.len() as nat, st);
        },
        NodeRole::Conditional => {
            let merge = st.blocks.len() as int;
            let pre = st.current;
            let label = condition_label(condition_of(node));
            let labelled = st.add_statement(label);
            let opened = labelled.add_block();
            lemma_grown_add_statement(st, st, label);
            lemma_grown_add_block(st, labelled);
            lemma_reachable_kept(st, opened, entry, pre);
            let then_at = index_of_kind(node.children@, "consequence"@);
            let has_then = 0 <= then_at < node.children.len();
            let after_then = if has_then {
                cfg_after_branch(node.children[then_at], pre, merge, opened)
            } else {
                opened
            };
            if has_then {
                lemma_branch_stays_live(node.children[then_at], merge, st, opened);
                lemma_cfg_after_branch_grown(node.children[then_at], merge, st, opened);
            }
            let else_at = index_of_kind(node.children@, "alternative"@);
            let has_else = 0 <= else_at < node.children.len();
            let after_else = if has_else {
                cfg_after_branch(node.children[else_at], pre, merge, after_then)
            } else {
                after_then.add_edge(pre, merge)
            };
            if has_else {
                lemma_branch_stays_live(node.children[else_at], merge, st, after_then);
            } else {
                lemma_reachable_through_new_edge(after_then, entry, pre, merge);
            }
            assert(after == after_else.move_to(merge));
            assert(keeps_edges(after_else, after));
            if reachable(after_else, entry, merge) {
                lemma_reachable_kept(after_else, after, entry, merge);
            } else {
                lemma_reachable_kept(after_else, after, entry, st.exit);
            }
        },
        NodeRole::Return => {
            lemma_return_leads_to_exit(node, st);
            lemma_reachable_kept(st, after, entry, st.current);
            lemma_reachable_step(after, entry, st.current, st.exit);
        },
        NodeRole::Loop => {
            let header = st.blocks.len() as int;
            let opened = cfg_loop_opened(st);
            lemma_loop_opened(st);
            lemma_reachable_kept(st, opened, entry, st.current);
            lemma_reachable_step(opened, entry, st.current, header);
            lemma_reachable_step(opened, entry, header, header + 2);
            let body_at = index_of_block(node.children@);
            let body_done = if 0 <= body_at < node.children.len() {
                cfg_after(node.children[body_at], opened)
            } else {
                opened
            };
            if 0 <= body_at < node.children.len() {
                lemma_cfg_after_extends(node.children[body_at], opened);
            }
            lemma_reachable_kept(opened, body_done, entry, header + 2);
            let closed = body_done.add_edge(body_done.current, header);
            assert(keeps_edges(body_done, closed));
            lemma_reachable_kept(body_done, closed, entry, header + 2);
            assert(after.edges == closed.edges);
            lemma_reachable_kept(closed, after, entry, header + 2);
        },
        NodeRole::Break => {},
        NodeRole::Statement => {
            lemma_reachable_kept(st, after, entry, st.current);
        },
    }
}

/// One branch of a conditional that started in `before`, where the entry
/// leads, visited from a state `st` grown from `before`: if the branch meets
/// no `break` outside a loop, the entry leads to `merge` afterwards or to
/// the exit, and still to where the conditional started.
proof fn lemma_branch_stays_live(branch: AstNode, merge: int, before: CfgState, st: CfgState)
    requires
        before.wf(),
        grown_from(before, st),
        st.loops == before.loops,
        before.blocks.len() <= merge < st.blocks.len(),
        reachable(st, before.entry, before.current),
        !breaks_out(branch),
    ensures
        ({
            let done = cfg_after_branch(branch, before.current, merge, st);
            &&& reachable(done, before.entry, merge) || reachable(done, before.entry, before.exit)
            &&& reachable(done, before.entry, before.current)
        }),
    decreases branch, 2nat,
{
    let pre = before.current;
    let entry = before.entry;
    let start = st.blocks.len() as int;
    let s1 = st.add_block();
    lemma_grown_add_block(before, st);
    let s2 = s1.add_edge(pre, start);
    crate::cfg_frame::lemma_grown_add_edge(before, s1, pre, start);
    let s3 = s2.move_to(start);
    crate::cfg_frame::lemma_grown_move_to(before, s2, start);
    assert(s3 == cfg_branch_opened(pre, st));
    assert(keeps_edges(st, s1));
    lemma_reachable_kept(st, s1, entry, pre);
    lemma_reachable_through_new_edge(s1, entry, pre, start);
    assert(keeps_edges(s2, s3));
    lemma_reachable_kept(s2, s3, entry, start);
    lemma_reachable_kept(s1, s2, entry, pre);
    lemma_reachable_kept(s2, s3, entry, pre);
    let walked = cfg_after(branch, s3);
    lemma_walk_stays_live(branch, s3);
    lemma_cfg_after_extends(branch, s3);
    lemma_reachable_kept(s3, walked, entry, pre);
    let done = walked.add_edge(walked.current, merge);
    assert(keeps_edges(walked, done));
    lemma_reachable_kept(walked, done, entry, pre);
    if live(walked) {
        lemma_reachable_through_new_edge(walked, entry, walked.current, merge);
    } else {
        lemma_reachable_kept(walked, done, entry, before.exit);
    }
}

/// The first `count` children of a node, visited from where the entry
/// leads or with the exit already reachable: if none of them meets a
/// `break` outside a loop, the walk ends where the entry leads, or the exit
/// is reachable.
proof fn lemma_children_stay_live(node: AstNode, count: nat, st: CfgState)
    requires
        st.wf(),
        live(st) || exit_reached(st),
        !breaks_out_below(node, count),
    ensures
        live(cfg_after_children(node, count, st)) || exit_reached(
            cfg_after_children(node, count, st),
        ),
    decreases node, 0nat, count,
{
    if count == 0 || count > node.children.len() {
    } else {
        let earlier = cfg_after_children(node, (count - 1) as nat, st);
        let child = node.children[count - 1];
        lemma_children_stay_live(node, (count - 1) as nat, st);
        lemma_cfg_after_children_extends(node, (count - 1) as nat, st);
        lemma_cfg_after_extends(child, earlier);
        if live(earlier) {
            lemma_walk_stays_live(child, earlier);
        } else {
            lemma_reachable_kept(earlier, cfg_after(child, earlier), st.entry, st.exit);
        }
    }
}

/// In the finished graph of a function whose body meets no `break` outside
/// a loop, the exit can be reached from the entry.
pub proof fn lemma_exit_is_reachable(function: AstNode)
    requires
        0 <= index_of_block(function.children@) < function.children.len() ==> !breaks_out(
            function.children[index_of_block(function.children@)],
        ),
    ensures
        reachable(
            function_cfg(function),
            function_cfg(function).entry,
            function_cfg(function).exit,
        ),
{
    let start = CfgState::initial();
    let body_at = index_of_block(function.children@);
    let walked = if 0 <= body_at < function.children.len() {
        cfg_after(function.children[body_at], start)
    } else {
        start
    };
    assert(start.wf());
    lemma_reachable_self(start, start.entry);
    if 0 <= body_at < function.children.len() {
        lemma_walk_stays_live(function.children[body_at], start);
        lemma_cfg_after_extends(function.children[body_at], start);
    }
    let done = walked.add_edge(walked.current, walked.exit);
    assert(keeps_edges(walked, done));
    if live(walked) {
        lemma_reachable_through_new_edge(walked, start.entry, walked.current, walked.exit);
    } else {
        lemma_reachable_kept(walked, done, start.entry, start.exit);
    }
}

} // verus!
