//! Every `return` and every `break` that a walk meets, wherever in the
//! tree: its block leads to where it jumps, and the block allocated after
//! it stays without an incoming edge to the end of the walk.

use crate::cfg_frame::{
    grown_from, lemma_cfg_after_branch_grown, lemma_cfg_after_children_extends,
    lemma_cfg_after_extends, lemma_grown_add_block, lemma_grown_add_edge,
    lemma_grown_add_statement, lemma_grown_move_to,
};
use crate::cfg_laws::{
    lemma_break_leads_out_of_loop, lemma_extension_adds_no_edge_into,
    lemma_extension_keeps_edges, lemma_has_edge_after_add, lemma_loop_opened,
    lemma_return_leads_to_exit,
};
use crate::control_flow::{
    cfg_after, cfg_after_branch, cfg_after_children, cfg_branch_opened, cfg_loop_opened,
    condition_label, condition_of, function_cfg, CfgState,
};
use crate::program_tree::{index_of_block, index_of_kind, role_of, AstNode, NodeRole};
use vstd::prelude::*;

verus! {

/// A `return` or a `break` that a walk met.
pub struct JumpSite {
    /// The block the statement sits in.
    pub block: int,
    /// The block control passes to: the exit for a `return`, the exit of
    /// the innermost loop for a `break`, nothing for a `break` outside any
    /// loop.
    pub target: Option<int>,
    /// The block allocated for what follows the statement.
    pub next: int,
}

/// The `return`s and `break`s that visiting `node` from `st` meets, in
/// order.
pub open spec fn jump_sites(node: AstNode, st: CfgState) -> Seq<JumpSite>
    decreases node, 1nat,
{
    match role_of(node.kind@) {
        NodeRole::Block | NodeRole::Container => jump_sites_below(
            node,
            node.children.len() as nat,
            st,
        ),
        NodeRole::Conditional => {
            let merge = st.blocks.len() as int;
            let opened = st.add_statement(condition_label(condition_of(node))).add_block();
            let then_at = index_of_kind(node.children@, "consequence"@);
            let in_then = if 0 <= then_at < node.children.len() {
                jump_sites(node.children[then_at], cfg_branch_opened(st.current, opened))
            } else {
                Seq::empty()
            };
            let after_then = if 0 <= then_at < node.children.len() {
                cfg_after_branch(node.children[then_at], st.current, merge, opened)
            } else {
                opened
            };
            let else_at = index_of_kind(node.children@, "alternative"@);
            let in_else = if 0 <= else_at < node.children.len() {
                jump_sites(node.children[else_at], cfg_branch_opened(st.current, after_then))
            } else {
                Seq::empty()
            };
            in_then + in_else
        },
        NodeRole::Return => seq![
            JumpSite { block: st.current, target: Some(st.exit), next: st.blocks.len() as int },
        ],
        NodeRole::Loop => {
            let body_at = index_of_block(node.children@);
            if 0 <= body_at < node.children.len() {
                jump_sites(node.children[body_at], cfg_loop_opened(st))
            } else {
                Seq::empty()
            }
        },
        NodeRole::Break => seq![
            JumpSite {
                block: st.current,
                target: if st.loops.len() > 0 {
                    Some(st.loops.last().1)
                } else {
                    None
                },
                next: st.blocks.len() as int,
            },
        ],
        NodeRole::Statement => Seq::empty(),
    }
}

/// The `return`s and `break`s that visiting the first `count` children of `node` from
/// `st` meets, in order.
pub open spec fn jump_sites_below(node: AstNode, count: nat, st: CfgState) -> Seq<JumpSite>
    decreases node, 0nat, count,
{
    if count == 0 || count > node.children.len() {
        Seq::empty()
    } else {
        jump_sites_below(node, (count - 1) as nat, st) + jump_sites(
            node.children[count - 1],
            cfg_after_children(node, (count - 1) as nat, st),
        )
    }
}

/// The `return`s and `break`s met while building the graph of the function
/// defined by `function`.
pub open spec fn function_jump_sites(function: AstNode) -> Seq<JumpSite> {
    let body_at = index_of_block(function.children@);
    if 0 <= body_at < function.children.len() {
        jump_sites(function.children[body_at], CfgState::initial())
    } else {
        Seq::empty()
    }
}

/// Whether the graph of `st` has what `site` calls for: the block of the
/// statement leads to its target, if it has one, and the block after it
/// exists and has no incoming edge.
pub open spec fn jump_settled(st: CfgState, site: JumpSite) -> bool {
    &&& site.target matches Some(target) ==> st.has_edge(site.block, target)
    &&& st.has_block(site.next)
    &&& forall|from: int| !#[trigger] st.has_edge(from, site.next)
}

/// Whether every site of `sites` is settled in `after` and has its next
/// block allocated since `before`.
pub open spec fn jumps_settled(before: CfgState, after: CfgState, sites: Seq<JumpSite>) -> bool {
    forall|k: int|
        0 <= k < sites.len() ==> (#[trigger] sites[k]).next >= before.blocks.len() && jump_settled(
            after,
            sites[k],
        )
}

/// A settled site stays settled when the walk goes on: through any state
/// that extends the one it was settled in.
proof fn lemma_settled_survives(before: CfgState, after: CfgState, site: JumpSite)
    requires
        before.wf(),
        grown_from(before, after),
        jump_settled(before, site),
        site.next != before.exit,
        before.loops.len() > 0 ==> site.next != before.loops.last().1,
    ensures
        jump_settled(after, site),
{
    if site.target is Some {
        lemma_extension_keeps_edges(before, after, site.block, site.target->0);
    }
    assert forall|from: int| !#[trigger] after.has_edge(from, site.next) by {
        lemma_extension_adds_no_edge_into(before, after, from, site.next);
    }
}

/// A settled site stays settled when an edge is added that does not end in
/// its next block.
proof fn lemma_settled_survives_edge(st: CfgState, site: JumpSite, from: int, to: int)
    requires
        jump_settled(st, site),
        to != site.next,
    ensures
        jump_settled(st.add_edge(from, to), site),
{
    if site.target is Some {
        lemma_has_edge_after_add(st, from, to, site.block, site.target->0);
    }
    assert forall|a: int| !#[trigger] st.add_edge(from, to).has_edge(a, site.next) by {
        lemma_has_edge_after_add(st, from, to, a, site.next);
    }
}

/// No loop that a well-formed state is in has an exit that is yet to be
/// allocated.
proof fn lemma_innermost_exit_exists(st: CfgState)
    requires
        st.wf(),
    ensures
        st.loops.len() > 0 ==> st.has_block(st.loops.last().1),
{
    if st.loops.len() > 0 {
        assert(st.has_block(st.loops[st.loops.len() - 1].1));
    }
}

/// Every `return` and `break` met while visiting `node` is settled when
/// the visit ends.
pub proof fn lemma_jumps_settled(node: AstNode, st: CfgState)
    requires
        st.wf(),
    ensures
        jumps_settled(st, cfg_after(node, st), jump_sites(node, st)),
    decreases node, 1nat,
{
    let after = cfg_after(node, st);
    let sites = jump_sites(node, st);
    lemma_cfg_after_extends(node, st);
    match role_of(node.kind@) {
        NodeRole::Block | NodeRole::Container => {
            lemma_jumps_settled_below(node, node.children.len() as nat, st);
        },
        NodeRole::Conditional => {
            let merge = st.blocks.len() as int;
            let pre = st.current;
            let label = condition_label(condition_of(node));
            let labelled = st.add_statement(label);
            let opened = labelled.add_block();
            lemma_grown_add_statement(st, st, label);
            lemma_grown_add_block(st, labelled);
            let then_at = index_of_kind(node.children@, "consequence"@);
            let has_then = 0 <= then_at < node.children.len();
            let in_then = if has_then {
                jump_sites(node.children[then_at], cfg_branch_opened(pre, opened))
            } else {
                Seq::empty()
            };
            let after_then = if has_then {
                cfg_after_branch(node.children[then_at], pre, merge, opened)
            } else {
                opened
            };
            if has_then {
                lemma_jumps_settled_in_branch(node.children[then_at], merge, st, opened);
                lemma_cfg_after_branch_grown(node.children[then_at], merge, st, opened);
            }
            let else_at = index_of_kind(node.children@, "alternative"@);
            let has_else = 0 <= else_at < node.children.len();
            let in_else = if has_else {
                jump_sites(node.children[else_at], cfg_branch_opened(pre, after_then))
            } else {
                Seq::empty()
            };
            let after_else = if has_else {
                cfg_after_branch(node.children[else_at], pre, merge, after_then)
            } else {
                after_then.add_edge(pre, merge)
            };
            if has_else {
                lemma_jumps_settled_in_branch(node.children[else_at], merge, st, after_then);
                lemma_branch_keeps_settled(
                    node.children[else_at],
                    merge,
                    st,
                    after_then,
                    in_then,
                );
            } else {
                assert forall|k: int| 0 <= k < in_then.len() implies jump_settled(
                    after_else,
                    #[trigger] in_then[k],
                ) by {
                    lemma_settled_survives_edge(after_then, in_then[k], pre, merge);
                }
            }
            assert(after.edges == after_else.edges);
            assert(after.blocks == after_else.blocks);
            assert forall|k: int| 0 <= k < sites.len() implies (#[trigger] sites[k]).next
                >= st.blocks.len() && jump_settled(after, sites[k]) by {
                if k < in_then.len() {
                    assert(sites[k] == in_then[k]);
                    assert(jump_settled(after_else, in_then[k]));
                } else {
                    assert(sites[k] == in_else[k - in_then.len()]);
                    assert(jump_settled(after_else, in_else[k - in_then.len()]));
                }
                let site = sites[k];
                assert forall|from: int| !#[trigger] after.has_edge(from, site.next) by {
                    assert(!after_else.has_edge(from, site.next));
                }
                if site.target is Some {
                    assert(after_else.has_edge(site.block, site.target->0));
                }
            }
        },
        NodeRole::Return => {
            lemma_return_leads_to_exit(node, st);
        },
        NodeRole::Break => {
            lemma_break_leads_out_of_loop(node, st);
            lemma_innermost_exit_exists(st);
        },
        NodeRole::Loop => {
            let header = st.blocks.len() as int;
            let opened = cfg_loop_opened(st);
            lemma_loop_opened(st);
            let body_at = index_of_block(node.children@);
            if 0 <= body_at < node.children.len() {
                let body = node.children[body_at];
                let body_done = cfg_after(body, opened);
                lemma_jumps_settled(body, opened);
                lemma_cfg_after_extends(body, opened);
                assert forall|k: int| 0 <= k < sites.len() implies (#[trigger] sites[k]).next
                    >= st.blocks.len() && jump_settled(after, sites[k]) by {
                    lemma_settled_survives_edge(body_done, sites[k], body_done.current, header);
                    let closed = body_done.add_edge(body_done.current, header);
                    assert(after.edges == closed.edges);
                    assert(after.blocks == closed.blocks);
                    let site = sites[k];
                    assert forall|from: int| !#[trigger] after.has_edge(from, site.next) by {
                        assert(!closed.has_edge(from, site.next));
                    }
                    if site.target is Some {
                        assert(closed.has_edge(site.block, site.target->0));
                    }
                }
            }
        },
        NodeRole::Statement => {},
    }
}

/// Every `return` and `break` met in one branch of a conditional that
/// started in `before` is settled when the branch ends.
proof fn lemma_jumps_settled_in_branch(
    branch: AstNode,
    merge: int,
    before: CfgState,
    st: CfgState,
)
    requires
        before.wf(),
        grown_from(before, st),
        st.loops == before.loops,
        before.blocks.len() <= merge < st.blocks.len(),
    ensures
        jumps_settled(
            before,
            cfg_after_branch(branch, before.current, merge, st),
            jump_sites(branch, cfg_branch_opened(before.current, st)),
        ),
        forall|k: int|
            0 <= k < jump_sites(branch, cfg_branch_opened(before.current, st)).len() ==> (
            #[trigger] jump_sites(branch, cfg_branch_opened(before.current, st))[k]).next > merge,
    decreases branch, 2nat,
{
    let pre = before.current;
    let start = st.blocks.len() as int;
    let s1 = st.add_block();
    lemma_grown_add_block(before, st);
    let s2 = s1.add_edge(pre, start);
    lemma_grown_add_edge(before, s1, pre, start);
    let s3 = s2.move_to(start);
    lemma_grown_move_to(before, s2, start);
    assert(s3 == cfg_branch_opened(pre, st));
    let walked = cfg_after(branch, s3);
    let sites = jump_sites(branch, s3);
    lemma_jumps_settled(branch, s3);
    let done = walked.add_edge(walked.current, merge);
    assert forall|k: int| 0 <= k < sites.len() implies (#[trigger] sites[k]).next
        >= before.blocks.len() && jump_settled(done, sites[k]) by {
        lemma_settled_survives_edge(walked, sites[k], walked.current, merge);
    }
}

/// The sites settled before one branch of a conditional are still
/// settled after it.
proof fn lemma_branch_keeps_settled(
    branch: AstNode,
    merge: int,
    before: CfgState,
    st: CfgState,
    sites: Seq<JumpSite>,
)
    requires
        before.wf(),
        grown_from(before, st),
        st.loops == before.loops,
        before.blocks.len() <= merge < st.blocks.len(),
        jumps_settled(before, st, sites),
        forall|k: int| 0 <= k < sites.len() ==> (#[trigger] sites[k]).next != merge,
    ensures
        jumps_settled(before, cfg_after_branch(branch, before.current, merge, st), sites),
{
    let pre = before.current;
    let start = st.blocks.len() as int;
    let s1 = st.add_block();
    lemma_grown_add_block(before, st);
    let s2 = s1.add_edge(pre, start);
    lemma_grown_add_edge(before, s1, pre, start);
    let s3 = s2.move_to(start);
    lemma_grown_move_to(before, s2, start);
    assert(s3 == cfg_branch_opened(pre, st));
    let walked = cfg_after(branch, s3);
    lemma_cfg_after_extends(branch, s3);
    lemma_innermost_exit_exists(before);
    let done = walked.add_edge(walked.current, merge);
    assert forall|k: int| 0 <= k < sites.len() implies (#[trigger] sites[k]).next
        >= before.blocks.len() && jump_settled(done, sites[k]) by {
        let site = sites[k];
        lemma_settled_survives_edge(st, site, pre, start);
        assert(s3.edges == st.add_edge(pre, start).edges);
        assert(jump_settled(s3, site)) by {
            if site.target is Some {
                assert(st.add_edge(pre, start).has_edge(site.block, site.target->0));
            }
            assert forall|from: int| !#[trigger] s3.has_edge(from, site.next) by {
                assert(!st.add_edge(pre, start).has_edge(from, site.next));
            }
        }
        lemma_settled_survives(s3, walked, site);
        lemma_settled_survives_edge(walked, site, walked.current, merge);
    }
}

/// Every `return` and `break` met while visiting the first `count`
/// children of `node` is settled when those visits end.
pub proof fn lemma_jumps_settled_below(node: AstNode, count: nat, st: CfgState)
    requires
        st.wf(),
    ensures
        jumps_settled(
            st,
            cfg_after_children(node, count, st),
            jump_sites_below(node, count, st),
        ),
    decreases node, 0nat, count,
{
    if count == 0 || count > node.children.len() {
    } else {
        let earlier = cfg_after_children(node, (count - 1) as nat, st);
        let earlier_sites = jump_sites_below(node, (count - 1) as nat, st);
        let child = node.children[count - 1];
        let own_sites = jump_sites(child, earlier);
        let after = cfg_after(child, earlier);
        let sites = jump_sites_below(node, count, st);
        lemma_jumps_settled_below(node, (count - 1) as nat, st);
        lemma_cfg_after_children_extends(node, (count - 1) as nat, st);
        lemma_jumps_settled(child, earlier);
        lemma_cfg_after_extends(child, earlier);
        lemma_innermost_exit_exists(st);
        assert forall|k: int| 0 <= k < sites.len() implies (#[trigger] sites[k]).next
            >= st.blocks.len() && jump_settled(after, sites[k]) by {
            if k < earlier_sites.len() {
                assert(sites[k] == earlier_sites[k]);
                lemma_settled_survives(earlier, after, earlier_sites[k]);
            } else {
                assert(sites[k] == own_sites[k - earlier_sites.len()]);
            }
        }
    }
}

/// In the finished graph of a function, the block of every `return` met
/// leads to the exit, the block of every `break` met inside a loop leads to
/// the exit of that loop, and the block allocated after either has no
/// incoming edge.
pub proof fn lemma_function_jumps_settled(function: AstNode, k: int)
    requires
        0 <= k < function_jump_sites(function).len(),
    ensures
        jump_settled(function_cfg(function), function_jump_sites(function)[k]),
        function_jump_sites(function)[k].target is Some ==> function_cfg(function).has_edge(
            function_jump_sites(function)[k].block,
            function_jump_sites(function)[k].target->0,
        ),
        forall|from: int|
            !#[trigger] function_cfg(function).has_edge(
                from,
                function_jump_sites(function)[k].next,
            ),
{
    let body_at = index_of_block(function.children@);
    let body = function.children[body_at];
    let start = CfgState::initial();
    let walked = cfg_after(body, start);
    let site = function_jump_sites(function)[k];
    assert(start.wf());
    lemma_jumps_settled(body, start);
    lemma_cfg_after_extends(body, start);
    assert(jump_settled(walked, site));
    lemma_settled_survives_edge(walked, site, walked.current, walked.exit);
}

} // verus!
