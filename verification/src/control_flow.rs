//! The control-flow graph under construction as a mathematical value, and
//! what visiting a program tree does to it.

use crate::program_tree::{index_of_block, index_of_kind, role_of, AstNode, NodeRole};
use crate::text::summary_of;
use vstd::prelude::*;

verus! {

/// A control-flow graph together with the cursor of the walk that builds it.
///
/// Blocks are addressed by their position in `blocks`; an edge is a pair
/// `(source, target)` of such positions.
pub struct CfgState {
    /// The statement lines of each block.
    pub blocks: Seq<Seq<Seq<char>>>,
    /// The edges, in the order they were added.
    pub edges: Seq<(int, int)>,
    /// The block where every function starts.
    pub entry: int,
    /// The block where every function ends.
    pub exit: int,
    /// The block that receives the next statement or outgoing edge.
    pub current: int,
    /// The enclosing loops, innermost last, each as `(header, exit)`.
    pub loops: Seq<(int, int)>,
}

impl CfgState {
    /// The graph every construction starts from: an entry block, an exit
    /// block, no edges, and the cursor on the entry block.
    pub open spec fn initial() -> CfgState {
        CfgState {
            blocks: seq![seq!["Entry"@], seq!["Exit"@]],
            edges: Seq::empty(),
            entry: 0,
            exit: 1,
            current: 0,
            loops: Seq::empty(),
        }
    }

    /// Whether `block` is a block of this graph.
    pub open spec fn has_block(self, block: int) -> bool {
        0 <= block < self.blocks.len()
    }

    /// Every block mentioned anywhere in the state exists, the entry is not
    /// the exit, the cursor is not on the exit, and no loop has the entry as
    /// its exit.
    pub open spec fn wf(self) -> bool {
        &&& self.has_block(self.entry)
        &&& self.has_block(self.exit)
        &&& self.has_block(self.current)
        &&& self.entry != self.exit
        &&& self.current != self.exit
        &&& forall|k: int|
            #![trigger self.edges[k]]
            0 <= k < self.edges.len() ==> self.has_block(self.edges[k].0) && self.has_block(
                self.edges[k].1,
            )
        &&& forall|k: int|
            #![trigger self.loops[k]]
            0 <= k < self.loops.len() ==> self.has_block(self.loops[k].0) && self.has_block(
                self.loops[k].1,
            ) && self.loops[k].1 != self.entry
    }

    /// Blocks and edges can all be addressed by 32-bit indices.
    pub open spec fn fits(self) -> bool {
        self.blocks.len() <= u32::MAX && self.edges.len() <= u32::MAX
    }

    /// The state with one more, empty block; its index is the former number
    /// of blocks.
    pub open spec fn add_block(self) -> CfgState {
        CfgState { blocks: self.blocks.push(Seq::empty()), ..self }
    }

    /// The state with one more edge, from `from` to `to`.
    pub open spec fn add_edge(self, from: int, to: int) -> CfgState {
        CfgState { edges: self.edges.push((from, to)), ..self }
    }

    /// The state with `line` appended to the current block.
    pub open spec fn add_statement(self, line: Seq<char>) -> CfgState {
        CfgState {
            blocks: self.blocks.update(self.current, self.blocks[self.current].push(line)),
            ..self
        }
    }

    /// The state with the cursor on `block`.
    pub open spec fn move_to(self, block: int) -> CfgState {
        CfgState { current: block, ..self }
    }

    /// The state inside one more loop.
    pub open spec fn enter_loop(self, header: int, exit: int) -> CfgState {
        CfgState { loops: self.loops.push((header, exit)), ..self }
    }

    /// The state outside the innermost loop, if there is one.
    pub open spec fn leave_loop(self) -> CfgState {
        if self.loops.len() > 0 {
            CfgState { loops: self.loops.drop_last(), ..self }
        } else {
            self
        }
    }

    /// Whether the graph has an edge from `from` to `to`.
    pub open spec fn has_edge(self, from: int, to: int) -> bool {
        self.edges.contains((from, to))
    }

    /// The number of edges that end in `block`.
    pub open spec fn in_degree(self, block: int) -> nat {
        self.edges.filter(ends_in(block)).len()
    }
}

/// The test whether an edge ends in `block`.
pub open spec fn ends_in(block: int) -> spec_fn((int, int)) -> bool {
    |edge: (int, int)| edge.1 == block
}

/// The text of the condition of the conditional `node`: that of its first
/// child tagged `condition`, or nothing.
pub open spec fn condition_of(node: AstNode) -> Seq<char> {
    let at = index_of_kind(node.children@, "condition"@);
    if 0 <= at < node.children.len() {
        node.children[at].text@
    } else {
        Seq::empty()
    }
}

/// The line a conditional leaves in its block.
pub open spec fn condition_label(condition: Seq<char>) -> Seq<char> {
    "IF ("@ + condition + ")"@
}

/// The state after a `return` with source text `text`: the text is recorded,
/// the current block leads to the exit, and the cursor sits on a fresh block
/// that nothing leads to.
pub open spec fn cfg_after_return(text: Seq<char>, st: CfgState) -> CfgState {
    let fresh = st.blocks.len() as int;
    st.add_statement(text).add_edge(st.current, st.exit).add_block().move_to(fresh)
}

/// The state after a `break`: it is recorded, the current block leads to the
/// exit of the innermost loop if there is a loop, and the cursor sits on a
/// fresh block that nothing leads to.
pub open spec fn cfg_after_break(st: CfgState) -> CfgState {
    let fresh = st.blocks.len() as int;
    let recorded = st.add_statement("break"@);
    let left = if st.loops.len() > 0 {
        recorded.add_edge(st.current, st.loops.last().1)
    } else {
        recorded
    };
    left.add_block().move_to(fresh)
}

/// The state after a plain statement with source text `text`: its summary
/// line is recorded unless it is empty.
pub open spec fn cfg_after_statement(text: Seq<char>, st: CfgState) -> CfgState {
    let line = summary_of(text);
    if line.len() > 0 {
        st.add_statement(line)
    } else {
        st
    }
}

/// The state at the start of a loop body: header, body and exit blocks are
/// allocated, the current block leads to the header, the header leads to
/// both the body and the exit, and the cursor sits on the body block inside
/// the new loop.
pub open spec fn cfg_loop_opened(st: CfgState) -> CfgState {
    let header = st.blocks.len() as int;
    st.add_block().add_edge(st.current, header).add_block().add_block().enter_loop(
        header,
        header + 2,
    ).add_edge(header, header + 1).add_edge(header, header + 2).move_to(header + 1)
}

/// The state after a loop whose body left the state `body_done`: the end of
/// the body leads back to `header`, the loop is left, and the cursor sits on
/// `exit`.
pub open spec fn cfg_loop_closed(body_done: CfgState, header: int, exit: int) -> CfgState {
    body_done.add_edge(body_done.current, header).leave_loop().move_to(exit)
}

/// The state after visiting `node` from `st`.
pub open spec fn cfg_after(node: AstNode, st: CfgState) -> CfgState
    decreases node, 1nat,
{
    match role_of(node.kind@) {
        NodeRole::Block | NodeRole::Container => cfg_after_children(
            node,
            node.children.len() as nat,
            st,
        ),
        NodeRole::Conditional => {
            let merge = st.blocks.len() as int;
            let opened = st.add_statement(condition_label(condition_of(node))).add_block();
            let then_at = index_of_kind(node.children@, "consequence"@);
            let after_then = if 0 <= then_at < node.children.len() {
                cfg_after_branch(node.children[then_at], st.current, merge, opened)
            } else {
                opened
            };
            let else_at = index_of_kind(node.children@, "alternative"@);
            let after_else = if 0 <= else_at < node.children.len() {
                cfg_after_branch(node.children[else_at], st.current, merge, after_then)
            } else {
                after_then.add_edge(st.current, merge)
            };
            after_else.move_to(merge)
        },
        NodeRole::Return => cfg_after_return(node.text@, st),
        NodeRole::Loop => {
            let header = st.blocks.len() as int;
            let opened = cfg_loop_opened(st);
            let body_at = index_of_block(node.children@);
            let body_done = if 0 <= body_at < node.children.len() {
                cfg_after(node.children[body_at], opened)
            } else {
                opened
            };
            cfg_loop_closed(body_done, header, header + 2)
        },
        NodeRole::Break => cfg_after_break(st),
        NodeRole::Statement => cfg_after_statement(node.text@, st),
    }
}

/// The state at the start of one branch of a conditional: a fresh block
/// that `pre` leads to, with the cursor on it.
pub open spec fn cfg_branch_opened(pre: int, st: CfgState) -> CfgState {
    let start = st.blocks.len() as int;
    st.add_block().add_edge(pre, start).move_to(start)
}

/// The state after one branch of a conditional: a fresh block that `pre`
/// leads to receives the branch, and where the branch ends leads to `merge`.
pub open spec fn cfg_after_branch(branch: AstNode, pre: int, merge: int, st: CfgState) -> CfgState
    decreases branch, 2nat,
{
    let done = cfg_after(branch, cfg_branch_opened(pre, st));
    done.add_edge(done.current, merge)
}

/// The state after visiting the first `count` children of `node`, in order,
/// from `st`.
pub open spec fn cfg_after_children(node: AstNode, count: nat, st: CfgState) -> CfgState
    decreases node, 0nat, count,
{
    if count == 0 || count > node.children.len() {
        st
    } else {
        cfg_after(node.children[count - 1], cfg_after_children(node, (count - 1) as nat, st))
    }
}

/// The number of blocks that visiting `node` allocates.
pub open spec fn blocks_added(node: AstNode) -> nat
    decreases node, 1nat,
{
    match role_of(node.kind@) {
        NodeRole::Block | NodeRole::Container => blocks_added_below(
            node,
            node.children.len() as nat,
        ),
        NodeRole::Conditional => {
            let then_at = index_of_kind(node.children@, "consequence"@);
            let in_then = if 0 <= then_at < node.children.len() {
                1 + blocks_added(node.children[then_at])
            } else {
                0
            };
            let else_at = index_of_kind(node.children@, "alternative"@);
            let in_else = if 0 <= else_at < node.children.len() {
                1 + blocks_added(node.children[else_at])
            } else {
                0
            };
            1 + in_then + in_else
        },
        NodeRole::Return => 1,
        NodeRole::Loop => {
            let body_at = index_of_block(node.children@);
            if 0 <= body_at < node.children.len() {
                3 + blocks_added(node.children[body_at])
            } else {
                3
            }
        },
        NodeRole::Break => 1,
        NodeRole::Statement => 0,
    }
}

/// The number of blocks that visiting the first `count` children of `node`
/// allocates.
pub open spec fn blocks_added_below(node: AstNode, count: nat) -> nat
    decreases node, 0nat, count,
{
    if count == 0 || count > node.children.len() {
        0
    } else {
        blocks_added_below(node, (count - 1) as nat) + blocks_added(node.children[count - 1])
    }
}

/// The number of edges that visiting `node` adds, inside a loop or not.
pub open spec fn edges_added(node: AstNode, in_loop: bool) -> nat
    decreases node, 1nat,
{
    match role_of(node.kind@) {
        NodeRole::Block | NodeRole::Container => edges_added_below(
            node,
            node.children.len() as nat,
            in_loop,
        ),
        NodeRole::Conditional => {
            let then_at = index_of_kind(node.children@, "consequence"@);
            let in_then = if 0 <= then_at < node.children.len() {
                2 + edges_added(node.children[then_at], in_loop)
            } else {
                0
            };
            let else_at = index_of_kind(node.children@, "alternative"@);
            let in_else = if 0 <= else_at < node.children.len() {
                2 + edges_added(node.children[else_at], in_loop)
            } else {
                1
            };
            in_then + in_else
        },
        NodeRole::Return => 1,
        NodeRole::Loop => {
            let body_at = index_of_block(node.children@);
            if 0 <= body_at < node.children.len() {
                4 + edges_added(node.children[body_at], true)
            } else {
                4
            }
        },
        NodeRole::Break => if in_loop {
            1
        } else {
            0
        },
        NodeRole::Statement => 0,
    }
}

/// The number of edges that visiting the first `count` children of `node`
/// adds, inside a loop or not.
pub open spec fn edges_added_below(node: AstNode, count: nat, in_loop: bool) -> nat
    decreases node, 0nat, count,
{
    if count == 0 || count > node.children.len() {
        0
    } else {
        edges_added_below(node, (count - 1) as nat, in_loop) + edges_added(
            node.children[count - 1],
            in_loop,
        )
    }
}

/// The finished graph of the function defined by `function`: its body, the
/// first child with the role of a block, is visited from the initial state,
/// and where that ends leads to the exit.
pub open spec fn function_cfg(function: AstNode) -> CfgState {
    let body_at = index_of_block(function.children@);
    let walked = if 0 <= body_at < function.children.len() {
        cfg_after(function.children[body_at], CfgState::initial())
    } else {
        CfgState::initial()
    };
    walked.add_edge(walked.current, walked.exit)
}

} // verus!
