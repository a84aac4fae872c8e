//! How much a walk adds to the graph: block and edge counts depend on the
//! tree alone, and the walk leaves the loop stack as it found it.

use crate::control_flow::{
    blocks_added, blocks_added_below, cfg_after, cfg_after_branch, cfg_after_children,
    cfg_loop_opened, edges_added, edges_added_below, CfgState,
};
use crate::program_tree::{
    classify, find_block_child, find_child, index_of_block, index_of_kind, role_of, AstNode,
    NodeRole,
};
use vstd::prelude::*;

verus! {

/// Visiting `node` allocates `blocks_added(node)` blocks and adds
/// `edges_added(node, ..)` edges, keeps the entry, the exit and the loop
/// stack, and leaves the cursor on a block of the graph.
pub proof fn lemma_cfg_after_growth(node: AstNode, st: CfgState)
    requires
        st.has_block(st.current),
    ensures
        cfg_after(node, st).blocks.len() == st.blocks.len() + blocks_added(node),
        cfg_after(node, st).edges.len() == st.edges.len() + edges_added(
            node,
            st.loops.len() > 0,
        ),
        cfg_after(node, st).loops == st.loops,
        cfg_after(node, st).entry == st.entry,
        cfg_after(node, st).exit == st.exit,
        cfg_after(node, st).has_block(cfg_after(node, st).current),
    decreases node, 1nat,
{
    match role_of(node.kind@) {
        NodeRole::Block | NodeRole::Container => {
            lemma_cfg_after_children_growth(node, node.children.len() as nat, st);
        },
        NodeRole::Conditional => {
            let merge = st.blocks.len() as int;
            let opened = st.add_statement(
                crate::control_flow::condition_label(crate::control_flow::condition_of(node)),
            ).add_block();
            let then_at = index_of_kind(node.children@, "consequence"@);
            let after_then = if 0 <= then_at < node.children.len() {
                cfg_after_branch(node.children[then_at], st.current, merge, opened)
            } else {
                opened
            };
            if 0 <= then_at < node.children.len() {
                lemma_cfg_after_branch_growth(node.children[then_at], st.current, merge, opened);
            }
            let else_at = index_of_kind(node.children@, "alternative"@);
            if 0 <= else_at < node.children.len() {
                lemma_cfg_after_branch_growth(
                    node.children[else_at],
                    st.current,
                    merge,
                    after_then,
                );
            }
        },
        NodeRole::Loop => {
            let opened = cfg_loop_opened(st);
            let body_at = index_of_block(node.children@);
            if 0 <= body_at < node.children.len() {
                lemma_cfg_after_growth(node.children[body_at], opened);
            }
            assert(opened.loops.drop_last() =~= st.loops);
        },
        NodeRole::Return => {},
        NodeRole::Break => {},
        NodeRole::Statement => {},
    }
}

/// One branch of a conditional allocates one block and adds two edges
/// besides what the branch itself needs.
pub proof fn lemma_cfg_after_branch_growth(branch: AstNode, pre: int, merge: int, st: CfgState)
    ensures
        cfg_after_branch(branch, pre, merge, st).blocks.len() == st.blocks.len() + 1
            + blocks_added(branch),
        cfg_after_branch(branch, pre, merge, st).edges.len() == st.edges.len() + 2 + edges_added(
            branch,
            st.loops.len() > 0,
        ),
        cfg_after_branch(branch, pre, merge, st).loops == st.loops,
        cfg_after_branch(branch, pre, merge, st).entry == st.entry,
        cfg_after_branch(branch, pre, merge, st).exit == st.exit,
    decreases branch, 2nat,
{
    let start = st.blocks.len() as int;
    lemma_cfg_after_growth(branch, st.add_block().add_edge(pre, start).move_to(start));
}

/// Visiting the first `count` children of `node` allocates
/// `blocks_added_below(node, count)` blocks and adds
/// `edges_added_below(node, count, ..)` edges, and keeps the entry, the exit
/// and the loop stack.
pub proof fn lemma_cfg_after_children_growth(node: AstNode, count: nat, st: CfgState)
    requires
        st.has_block(st.current),
    ensures
        cfg_after_children(node, count, st).blocks.len() == st.blocks.len() + blocks_added_below(
            node,
            count,
        ),
        cfg_after_children(node, count, st).edges.len() == st.edges.len() + edges_added_below(
            node,
            count,
            st.loops.len() > 0,
        ),
        cfg_after_children(node, count, st).loops == st.loops,
        cfg_after_children(node, count, st).entry == st.entry,
        cfg_after_children(node, count, st).exit == st.exit,
        cfg_after_children(node, count, st).has_block(cfg_after_children(node, count, st).current),
    decreases node, 0nat, count,
{
    if count == 0 || count > node.children.len() {
    } else {
        lemma_cfg_after_children_growth(node, (count - 1) as nat, st);
        lemma_cfg_after_growth(
            node.children[count - 1],
            cfg_after_children(node, (count - 1) as nat, st),
        );
    }
}

/// Visiting more children never adds less.
pub proof fn lemma_added_below_monotone(node: AstNode, fewer: nat, more: nat, in_loop: bool)
    requires
        fewer <= more <= node.children.len(),
    ensures
        blocks_added_below(node, fewer) <= blocks_added_below(node, more),
        edges_added_below(node, fewer, in_loop) <= edges_added_below(node, more, in_loop),
    decreases more,
{
    if fewer < more {
        lemma_added_below_monotone(node, fewer, (more - 1) as nat, in_loop);
    }
}

/// The numbers of blocks and edges that visiting `node` adds to a graph,
/// inside a loop or not, unless one of them is beyond `u32::MAX`.
pub fn cfg_growth(node: &AstNode, in_loop: bool) -> (growth: Option<(u32, u32)>)
    ensures
        match growth {
            Some((blocks, edges)) => blocks == blocks_added(*node) && edges == edges_added(
                *node,
                in_loop,
            ),
            None => blocks_added(*node) > u32::MAX || edges_added(*node, in_loop) > u32::MAX,
        },
    decreases node,
{
    let limit: u64 = 0xFFFF_FFFF;
    let mut blocks: u64 = 0;
    let mut edges: u64 = 0;
    match classify(node.kind.as_str()) {
        NodeRole::Block | NodeRole::Container => {
            let count: usize = node.children.len();
            let mut i: usize = 0;
            while i < count
                invariant
                    i <= count,
                    count == node.children.len(),
                    limit == u32::MAX,
                    blocks_added(*node) == blocks_added_below(*node, count as nat),
                    edges_added(*node, in_loop) == edges_added_below(*node, count as nat, in_loop),
                    blocks == blocks_added_below(*node, i as nat),
                    edges == edges_added_below(*node, i as nat, in_loop),
                    blocks <= limit,
                    edges <= limit,
                decreases count - i,
            {
                proof {
                    lemma_added_below_monotone(*node, (i + 1) as nat, count as nat, in_loop);
                }
                match cfg_growth(&node.children[i], in_loop) {
                    Some((b, e)) => {
                        blocks = blocks + b as u64;
                        edges = edges + e as u64;
                    },
                    None => {
                        return None;
                    },
                }
                if blocks > limit || edges > limit {
                    return None;
                }
                i = i + 1;
            }
        },
        NodeRole::Conditional => {
            blocks = 1;
            if let Some(at) = find_child(node, "consequence") {
                match cfg_growth(&node.children[at], in_loop) {
                    Some((b, e)) => {
                        blocks = blocks + 1 + b as u64;
                        edges = edges + 2 + e as u64;
                    },
                    None => {
                        return None;
                    },
                }
            }
            if let Some(at) = find_child(node, "alternative") {
                match cfg_growth(&node.children[at], in_loop) {
                    Some((b, e)) => {
                        blocks = blocks + 1 + b as u64;
                        edges = edges + 2 + e as u64;
                    },
                    None => {
                        return None;
                    },
                }
            } else {
                edges = edges + 1;
            }
        },
        NodeRole::Return => {
            blocks = 1;
            edges = 1;
        },
        NodeRole::Loop => {
            blocks = 3;
            edges = 4;
            if let Some(at) = find_block_child(node) {
                match cfg_growth(&node.children[at], true) {
                    Some((b, e)) => {
                        blocks = blocks + b as u64;
                        edges = edges + e as u64;
                    },
                    None => {
                        return None;
                    },
                }
            }
        },
        NodeRole::Break => {
            blocks = 1;
            if in_loop {
                edges = 1;
            }
        },
        NodeRole::Statement => {},
    }
    if blocks > limit || edges > limit {
        None
    } else {
        Some((blocks as u32, edges as u32))
    }
}

} // verus!
