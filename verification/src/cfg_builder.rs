//! The builder that walks a program tree and grows the basic-block graph.

use crate::block_graph::{
    block_mut, empty_graph, graph_blocks, graph_edges, push_block, push_edge, BasicBlock,
};
use crate::cfg_growth::{
    cfg_growth, lemma_added_below_monotone, lemma_cfg_after_branch_growth,
    lemma_cfg_after_children_growth, lemma_cfg_after_growth,
};
use crate::control_flow::{
    cfg_after, cfg_after_branch, cfg_after_children, cfg_loop_opened, condition_label, condition_of,
    function_cfg, CfgState,
};
use crate::program_tree::{
    classify, find_block_child, find_child, index_of_block, index_of_kind, AstNode, NodeRole,
};
use crate::text::summary_line;
use petgraph::graph::Graph;
use petgraph::Directed;
use vstd::prelude::*;
use vstd::string::{StrSliceExecFns, StringExecFns};

verus! {

/// A control-flow graph under construction: the graph, its two
/// distinguished blocks, and the cursor of the walk.
pub struct CfgBuilder {
    graph: Graph<BasicBlock, (), Directed, u32>,
    entry_node: usize,
    exit_node: usize,
    current_block: usize,
    loop_contexts: Vec<(usize, usize)>,
    block_count: usize,
    edge_count: usize,
}

impl View for CfgBuilder {
    type V = CfgState;

    closed spec fn view(&self) -> CfgState {
        CfgState {
            blocks: graph_blocks(self.graph),
            edges: graph_edges(self.graph),
            entry: self.entry_node as int,
            exit: self.exit_node as int,
            current: self.current_block as int,
            loops: Seq::new(
                self.loop_contexts.len() as nat,
                |k: int| (self.loop_contexts[k].0 as int, self.loop_contexts[k].1 as int),
            ),
        }
    }
}

impl CfgBuilder {
    /// The builder's own counts of blocks and edges are those of the graph.
    pub closed spec fn counted(&self) -> bool {
        self.block_count == graph_blocks(self.graph).len() && self.edge_count == graph_edges(
            self.graph,
        ).len()
    }

    /// The state is well formed, the graph can be addressed by 32-bit
    /// indices, and the builder has counted its blocks and edges.
    pub open spec fn wf(&self) -> bool {
        self@.wf() && self@.fits() && self.counted()
    }

    /// A builder on the initial graph: an entry block, an exit block, and
    /// the cursor on the entry block.
    pub fn new() -> (builder: CfgBuilder)
        ensures
            builder.wf(),
            builder@ == CfgState::initial(),
    {
        let mut graph = empty_graph();
        let entry_node = push_block(
            &mut graph,
            BasicBlock { statements: vec![String::from_str("Entry")] },
        );
        let exit_node = push_block(
            &mut graph,
            BasicBlock { statements: vec![String::from_str("Exit")] },
        );
        let builder = CfgBuilder {
            graph,
            entry_node,
            exit_node,
            current_block: entry_node,
            loop_contexts: Vec::new(),
            block_count: 2,
            edge_count: 0,
        };
        assert(builder@.blocks =~= CfgState::initial().blocks) by {
            assert(builder@.blocks[0] =~= seq!["Entry"@]);
            assert(builder@.blocks[1] =~= seq!["Exit"@]);
        }
        assert(builder@.loops =~= CfgState::initial().loops);
        builder
    }

    /// Allocates an empty block and returns its index.
    pub fn new_block(&mut self) -> (index: usize)
        requires
            old(self).wf(),
            old(self)@.blocks.len() < u32::MAX,
        ensures
            final(self).wf(),
            final(self)@ == old(self)@.add_block(),
            index == old(self)@.blocks.len(),
    {
        let index = push_block(&mut self.graph, BasicBlock::default());
        self.block_count = self.block_count + 1;
        assert(self@.loops =~= old(self)@.loops);
        index
    }

    /// Adds an edge from block `from` to block `to`.
    pub fn add_edge(&mut self, from: usize, to: usize)
        requires
            old(self).wf(),
            old(self)@.has_block(from as int),
            old(self)@.has_block(to as int),
            old(self)@.edges.len() < u32::MAX,
        ensures
            final(self).wf(),
            final(self)@ == old(self)@.add_edge(from as int, to as int),
    {
        push_edge(&mut self.graph, from, to);
        self.edge_count = self.edge_count + 1;
        assert(self@.loops =~= old(self)@.loops);
    }

    /// Appends `statement` to the current block.
    pub fn add_statement_to_current_block(&mut self, statement: String)
        requires
            old(self).wf(),
        ensures
            final(self).wf(),
            final(self)@ == old(self)@.add_statement(statement@),
    {
        if let Some(block) = block_mut(&mut self.graph, self.current_block) {
            let ghost before = block@;
            block.statements.push(statement);
            assert(block@ =~= before.push(statement@));
        }
        assert(self@.loops =~= old(self)@.loops);
    }

    /// The graph built so far.
    pub fn graph(&self) -> (g: &Graph<BasicBlock, (), Directed, u32>)
        ensures
            graph_blocks(*g) == self@.blocks,
            graph_edges(*g) == self@.edges,
    {
        &self.graph
    }

    /// Gives up the builder for the graph it built.
    pub fn into_graph(self) -> (g: Graph<BasicBlock, (), Directed, u32>)
        ensures
            graph_blocks(g) == self@.blocks,
            graph_edges(g) == self@.edges,
    {
        self.graph
    }

    /// The index of the entry block.
    pub fn entry_node(&self) -> (index: usize)
        ensures
            index == self@.entry,
    {
        self.entry_node
    }

    /// The index of the exit block.
    pub fn exit_node(&self) -> (index: usize)
        ensures
            index == self@.exit,
    {
        self.exit_node
    }

    /// The index of the block under the cursor.
    pub fn current_block(&self) -> (index: usize)
        ensures
            index == self@.current,
    {
        self.current_block
    }

    /// Puts the cursor on `block`.
    fn move_to(&mut self, block: usize)
        requires
            old(self).wf(),
            old(self)@.has_block(block as int),
            block != old(self)@.exit,
        ensures
            final(self).wf(),
            final(self)@ == old(self)@.move_to(block as int),
    {
        self.current_block = block;
        assert(self@.loops =~= old(self)@.loops);
    }

    /// Enters a loop with the given header and exit blocks.
    fn enter_loop(&mut self, header: usize, exit: usize)
        requires
            old(self).wf(),
            old(self)@.has_block(header as int),
            old(self)@.has_block(exit as int),
            exit != old(self)@.entry,
        ensures
            final(self).wf(),
            final(self)@ == old(self)@.enter_loop(header as int, exit as int),
    {
        self.loop_contexts.push((header, exit));
        assert(self@.loops =~= old(self)@.loops.push((header as int, exit as int)));
    }

    /// Leaves the innermost loop, if there is one.
    fn leave_loop(&mut self)
        requires
            old(self).wf(),
        ensures
            final(self).wf(),
            final(self)@ == old(self)@.leave_loop(),
    {
        self.loop_contexts.pop();
        proof {
            if old(self)@.loops.len() > 0 {
                assert(self@.loops =~= old(self)@.loops.drop_last());
            } else {
                assert(self@.loops =~= old(self)@.loops);
            }
        }
    }

    /// The exit block of the innermost loop, if there is one.
    fn innermost_exit(&self) -> (exit: Option<usize>)
        requires
            self.wf(),
        ensures
            match exit {
                Some(block) => self@.loops.len() > 0 && block == self@.loops.last().1,
                None => self@.loops.len() == 0,
            },
    {
        let depth: usize = self.loop_contexts.len();
        if depth > 0 {
            Some(self.loop_contexts[depth - 1].1)
        } else {
            None
        }
    }
}

/// Visits `ast_node` and grows the graph of `builder` accordingly.
///
/// A block or any other container visits its children in order; a
/// conditional, a loop, a `return` and a `break` shape the graph; a
/// statement leaves its summary line in the current block. The finished
/// graph must fit 32-bit indices.
pub fn build_cfg_from_ast(ast_node: &AstNode, builder: &mut CfgBuilder)
    requires
        old(builder).wf(),
        cfg_after(*ast_node, old(builder)@).fits(),
    ensures
        final(builder).wf(),
        final(builder)@ == cfg_after(*ast_node, old(builder)@),
    decreases ast_node, 0nat,
{
    let ghost start = builder@;
    proof {
        lemma_cfg_after_growth(*ast_node, start);
    }
    match classify(ast_node.kind.as_str()) {
        NodeRole::Block | NodeRole::Container => {
            let count: usize = ast_node.children.len();
            let mut i: usize = 0;
            while i < count
                invariant
                    i <= count,
                    count == ast_node.children.len(),
                    builder.wf(),
                    start.has_block(start.current),
                    builder@ == cfg_after_children(*ast_node, i as nat, start),
                    cfg_after_children(*ast_node, count as nat, start).fits(),
                decreases count - i,
            {
                proof {
                    lemma_cfg_after_children_growth(*ast_node, (i + 1) as nat, start);
                    lemma_cfg_after_children_growth(*ast_node, count as nat, start);
                    lemma_added_below_monotone(
                        *ast_node,
                        (i + 1) as nat,
                        count as nat,
                        start.loops.len() > 0,
                    );
                }
                build_cfg_from_ast(&ast_node.children[i], builder);
                i = i + 1;
            }
        },
        NodeRole::Conditional => {
            let condition = match find_child(ast_node, "condition") {
                Some(at) => ast_node.children[at].text.clone(),
                None => String::new(),
            };
            let label = String::from_str("IF (").concat(condition.as_str()).concat(")");
            assert(label@ == condition_label(condition_of(*ast_node)));
            let consequence = find_child(ast_node, "consequence");
            let alternative = find_child(ast_node, "alternative");
            let ghost merge = start.blocks.len() as int;
            let ghost opened = start.add_statement(label@).add_block();
            let ghost then_at = index_of_kind(ast_node.children@, "consequence"@);
            let ghost else_at = index_of_kind(ast_node.children@, "alternative"@);
            let ghost after_then = if 0 <= then_at < ast_node.children.len() {
                cfg_after_branch(ast_node.children[then_at], start.current, merge, opened)
            } else {
                opened
            };
            proof {
                if 0 <= then_at < ast_node.children.len() {
                    lemma_cfg_after_branch_growth(
                        ast_node.children[then_at],
                        start.current,
                        merge,
                        opened,
                    );
                }
                if 0 <= else_at < ast_node.children.len() {
                    lemma_cfg_after_branch_growth(
                        ast_node.children[else_at],
                        start.current,
                        merge,
                        after_then,
                    );
                }
            }
            builder.add_statement_to_current_block(label);
            let if_block_end = builder.current_block;
            let merge_block = builder.new_block();
            if let Some(at) = consequence {
                build_branch(&ast_node.children[at], if_block_end, merge_block, builder);
            }
            if let Some(at) = alternative {
                build_branch(&ast_node.children[at], if_block_end, merge_block, builder);
            } else {
                builder.add_edge(if_block_end, merge_block);
            }
            builder.move_to(merge_block);
        },
        NodeRole::Return => {
            builder.add_statement_to_current_block(ast_node.text.clone());
            builder.add_edge(builder.current_block, builder.exit_node);
            let fresh = builder.new_block();
            builder.move_to(fresh);
        },
        NodeRole::Loop => {
            let ghost opened = cfg_loop_opened(start);
            let ghost body_at = index_of_block(ast_node.children@);
            proof {
                if 0 <= body_at < ast_node.children.len() {
                    lemma_cfg_after_growth(ast_node.children[body_at], opened);
                }
            }
            let loop_header = builder.new_block();
            builder.add_edge(builder.current_block, loop_header);
            let loop_body_start = builder.new_block();
            let after_loop_block = builder.new_block();
            builder.enter_loop(loop_header, after_loop_block);
            builder.add_edge(loop_header, loop_body_start);
            builder.add_edge(loop_header, after_loop_block);
            builder.move_to(loop_body_start);
            if let Some(at) = find_block_child(ast_node) {
                build_cfg_from_ast(&ast_node.children[at], builder);
            }
            builder.add_edge(builder.current_block, loop_header);
            builder.leave_loop();
            builder.move_to(after_loop_block);
        },
        NodeRole::Break => {
            builder.add_statement_to_current_block(String::from_str("break"));
            if let Some(loop_end) = builder.innermost_exit() {
                builder.add_edge(builder.current_block, loop_end);
            }
            let fresh = builder.new_block();
            builder.move_to(fresh);
        },
        NodeRole::Statement => {
            let simplified_text = summary_line(ast_node.text.as_str());
            if simplified_text.as_str().unicode_len() > 0 {
                builder.add_statement_to_current_block(simplified_text);
            }
        },
    }
}

/// Visits `ast_node` and grows the graph of `builder` accordingly if the
/// finished graph fits 32-bit indices; leaves `builder` as it is otherwise.
pub fn try_build_cfg_from_ast(ast_node: &AstNode, builder: &mut CfgBuilder) -> (done: bool)
    requires
        old(builder).wf(),
    ensures
        final(builder).wf(),
        done == cfg_after(*ast_node, old(builder)@).fits(),
        done ==> final(builder)@ == cfg_after(*ast_node, old(builder)@),
        !done ==> final(builder)@ == old(builder)@,
{
    let in_loop = builder.loop_contexts.len() > 0;
    let limit: u64 = 0xFFFF_FFFF;
    proof {
        lemma_cfg_after_growth(*ast_node, builder@);
    }
    match cfg_growth(ast_node, in_loop) {
        Some((blocks, edges)) => {
            if blocks as u64 + builder.block_count as u64 <= limit && edges as u64
                + builder.edge_count as u64 <= limit {
                build_cfg_from_ast(ast_node, builder);
                true
            } else {
                false
            }
        },
        None => false,
    }
}

/// Visits one branch of a conditional: a fresh block that `pre` leads to
/// receives the branch, and where the branch ends leads to `merge`.
fn build_branch(branch: &AstNode, pre: usize, merge: usize, builder: &mut CfgBuilder)
    requires
        old(builder).wf(),
        old(builder)@.has_block(pre as int),
        old(builder)@.has_block(merge as int),
        cfg_after_branch(*branch, pre as int, merge as int, old(builder)@).fits(),
    ensures
        final(builder).wf(),
        final(builder)@ == cfg_after_branch(*branch, pre as int, merge as int, old(builder)@),
    decreases branch, 1nat,
{
    let ghost start = builder@;
    proof {
        let first = start.blocks.len() as int;
        lemma_cfg_after_growth(
            *branch,
            start.add_block().add_edge(pre as int, first).move_to(first),
        );
    }
    let branch_start = builder.new_block();
    builder.add_edge(pre, branch_start);
    builder.move_to(branch_start);
    build_cfg_from_ast(branch, builder);
    builder.add_edge(builder.current_block, merge);
}

/// Builds the graph of the function defined by `function`: its body is
/// visited from the initial graph, and where that ends leads to the exit. A
/// function without a body yields the entry leading to the exit. The
/// finished graph must fit 32-bit indices.
pub fn build_function_cfg(function: &AstNode) -> (builder: CfgBuilder)
    requires
        function_cfg(*function).fits(),
    ensures
        builder.wf(),
        builder@ == function_cfg(*function),
{
    let mut builder = CfgBuilder::new();
    if let Some(at) = find_block_child(function) {
        proof {
            lemma_cfg_after_growth(function.children[at as int], CfgState::initial());
        }
        build_cfg_from_ast(&function.children[at], &mut builder);
    }
    builder.add_edge(builder.current_block, builder.exit_node);
    builder
}

/// Builds the graph of the function defined by `function` if it fits 32-bit
/// indices.
pub fn try_build_function_cfg(function: &AstNode) -> (built: Option<CfgBuilder>)
    ensures
        match built {
            Some(builder) => builder.wf() && builder@ == function_cfg(*function),
            None => !function_cfg(*function).fits(),
        },
{
    let fits = match find_block_child(function) {
        Some(at) => {
            proof {
                lemma_cfg_after_growth(function.children[at as int], CfgState::initial());
            }
            match cfg_growth(&function.children[at], false) {
                Some((blocks, edges)) => blocks <= u32::MAX - 2 && edges < u32::MAX,
                None => false,
            }
        },
        None => true,
    };
    if fits {
        Some(build_function_cfg(function))
    } else {
        None
    }
}

} // verus!
