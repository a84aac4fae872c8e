//! The program tree: a tagged node with its source text and ordered
//! children, and the discovery of function definitions in it.

use crate::text::{has_suffix, same_text};
use vstd::prelude::*;
use vstd::string::StringExecFns;

verus! {

/// A node of a parsed program: its structural tag, the source text it
/// spans, and its children in source order.
#[derive(Debug)]
pub struct AstNode {
    pub kind: String,
    pub text: String,
    pub children: Vec<AstNode>,
}

/// What a node means to control flow, decided by its tag alone.
#[derive(Clone, Copy, Debug, PartialEq, Eq, Structural)]
pub enum NodeRole {
    /// A sequence of statements; its children run in order.
    Block,
    /// An `if` with an optional `else`.
    Conditional,
    /// A `return`.
    Return,
    /// A `loop`, `while` or `for`.
    Loop,
    /// A `break`.
    Break,
    /// A statement, declaration or item recorded as one summary line.
    Statement,
    /// Anything else: looked through for statements further down.
    Container,
}

/// The role of a node tagged `kind`.
pub open spec fn role_of(kind: Seq<char>) -> NodeRole {
    if kind == "statement_block"@ || kind == "block"@ {
        NodeRole::Block
    } else if kind == "if_expression"@ {
        NodeRole::Conditional
    } else if kind == "return_expression"@ {
        NodeRole::Return
    } else if kind == "loop_expression"@ || kind == "while_expression"@ || kind
        == "for_expression"@ {
        NodeRole::Loop
    } else if kind == "break_expression"@ {
        NodeRole::Break
    } else if "_statement"@.is_suffix_of(kind) || "_declaration"@.is_suffix_of(kind)
        || "_item"@.is_suffix_of(kind) {
        NodeRole::Statement
    } else {
        NodeRole::Container
    }
}

/// The least index at or after `from` of a node tagged `tag` in `nodes`, or
/// the length of `nodes` if there is none.
pub open spec fn index_of_kind_from(nodes: Seq<AstNode>, tag: Seq<char>, from: int) -> int
    decreases nodes.len() - from,
{
    if from < 0 || from >= nodes.len() || nodes[from].kind@ == tag {
        from
    } else {
        index_of_kind_from(nodes, tag, from + 1)
    }
}

/// The index of the first node tagged `tag` in `nodes`, or the length of
/// `nodes` if there is none.
pub open spec fn index_of_kind(nodes: Seq<AstNode>, tag: Seq<char>) -> int {
    index_of_kind_from(nodes, tag, 0)
}

/// The least index at or after `from` of a node with the role of a block
/// in `nodes`, or the length of `nodes` if there is none.
pub open spec fn index_of_block_from(nodes: Seq<AstNode>, from: int) -> int
    decreases nodes.len() - from,
{
    if from < 0 || from >= nodes.len() || role_of(nodes[from].kind@) == NodeRole::Block {
        from
    } else {
        index_of_block_from(nodes, from + 1)
    }
}

/// The index of the first node with the role of a block in `nodes`, or the
/// length of `nodes` if there is none. This is how the body of a function
/// or of a loop is found among its children.
pub open spec fn index_of_block(nodes: Seq<AstNode>) -> int {
    index_of_block_from(nodes, 0)
}

/// The function definitions in the subtree of `node`, in pre-order.
pub open spec fn functions_in(node: AstNode) -> Seq<AstNode>
    decreases node, 1nat,
{
    let own = if node.kind@ == "function_item"@ {
        seq![node]
    } else {
        Seq::empty()
    };
    own + functions_below(node, node.children.len() as nat)
}

/// The function definitions in the subtrees of the first `count` children of
/// `node`, in pre-order.
pub open spec fn functions_below(node: AstNode, count: nat) -> Seq<AstNode>
    decreases node, 0nat, count,
{
    if count == 0 || count > node.children.len() {
        Seq::empty()
    } else {
        functions_below(node, (count - 1) as nat) + functions_in(node.children[count - 1])
    }
}

/// The name of the function defined by `function`: the text of its first
/// child tagged `identifier`, or a placeholder.
pub open spec fn name_of(function: AstNode) -> Seq<char> {
    let i = index_of_kind(function.children@, "identifier"@);
    if 0 <= i < function.children.len() {
        function.children[i].text@
    } else {
        "unknown_function"@
    }
}

/// `index_of_kind` finds the first node with the tag: the index is within
/// `0..=nodes.len()`, a node at that index has the tag, and no node before
/// it does.
pub proof fn lemma_index_of_kind(nodes: Seq<AstNode>, tag: Seq<char>)
    ensures
        0 <= index_of_kind(nodes, tag) <= nodes.len(),
        index_of_kind(nodes, tag) < nodes.len() ==> nodes[index_of_kind(nodes, tag)].kind@ == tag,
        forall|j: int| 0 <= j < index_of_kind(nodes, tag) ==> (#[trigger] nodes[j]).kind@ != tag,
{
    lemma_index_of_kind_from(nodes, tag, 0);
}

/// `index_of_kind_from` finds the first node with the tag at or after
/// `from`.
pub proof fn lemma_index_of_kind_from(nodes: Seq<AstNode>, tag: Seq<char>, from: int)
    requires
        0 <= from <= nodes.len(),
    ensures
        from <= index_of_kind_from(nodes, tag, from) <= nodes.len(),
        index_of_kind_from(nodes, tag, from) < nodes.len() ==> nodes[index_of_kind_from(
            nodes,
            tag,
            from,
        )].kind@ == tag,
        forall|j: int|
            from <= j < index_of_kind_from(nodes, tag, from) ==> (#[trigger] nodes[j]).kind@ != tag,
    decreases nodes.len() - from,
{
    if from < nodes.len() && nodes[from].kind@ != tag {
        lemma_index_of_kind_from(nodes, tag, from + 1);
    }
}

/// The eight tags that shape control flow have the roles their names say.
pub proof fn lemma_roles_of_control_tags()
    ensures
        role_of("statement_block"@) == NodeRole::Block,
        role_of("block"@) == NodeRole::Block,
        role_of("if_expression"@) == NodeRole::Conditional,
        role_of("return_expression"@) == NodeRole::Return,
        role_of("loop_expression"@) == NodeRole::Loop,
        role_of("while_expression"@) == NodeRole::Loop,
        role_of("for_expression"@) == NodeRole::Loop,
        role_of("break_expression"@) == NodeRole::Break,
{
    reveal_strlit("statement_block");
    reveal_strlit("block");
    reveal_strlit("if_expression");
    reveal_strlit("return_expression");
    reveal_strlit("loop_expression");
    reveal_strlit("while_expression");
    reveal_strlit("for_expression");
    reveal_strlit("break_expression");
    assert("statement_block"@.len() == 15 && "statement_block"@[0] == 's');
    assert("block"@.len() == 5);
    assert("if_expression"@.len() == 13);
    assert("return_expression"@.len() == 17);
    assert("loop_expression"@.len() == 15 && "loop_expression"@[0] == 'l');
    assert("while_expression"@.len() == 16 && "while_expression"@[0] == 'w');
    assert("for_expression"@.len() == 14);
    assert("break_expression"@.len() == 16 && "break_expression"@[0] == 'b');
}

/// `index_of_block` finds the first block: the index is within
/// `0..=nodes.len()`, a node at that index has the role of a block, and no
/// node before it has.
pub proof fn lemma_index_of_block(nodes: Seq<AstNode>)
    ensures
        0 <= index_of_block(nodes) <= nodes.len(),
        index_of_block(nodes) < nodes.len() ==> role_of(nodes[index_of_block(nodes)].kind@)
            == NodeRole::Block,
        forall|j: int|
            0 <= j < index_of_block(nodes) ==> role_of((#[trigger] nodes[j]).kind@)
                != NodeRole::Block,
{
    lemma_index_of_block_from(nodes, 0);
}

/// `index_of_block_from` finds the first block at or after `from`.
pub proof fn lemma_index_of_block_from(nodes: Seq<AstNode>, from: int)
    requires
        0 <= from <= nodes.len(),
    ensures
        from <= index_of_block_from(nodes, from) <= nodes.len(),
        index_of_block_from(nodes, from) < nodes.len() ==> role_of(
            nodes[index_of_block_from(nodes, from)].kind@,
        ) == NodeRole::Block,
        forall|j: int|
            from <= j < index_of_block_from(nodes, from) ==> role_of((#[trigger] nodes[j]).kind@)
                != NodeRole::Block,
    decreases nodes.len() - from,
{
    if from < nodes.len() && role_of(nodes[from].kind@) != NodeRole::Block {
        lemma_index_of_block_from(nodes, from + 1);
    }
}

/// The role of a node tagged `kind`.
pub fn classify(kind: &str) -> (role: NodeRole)
    ensures
        role == role_of(kind@),
{
    if same_text(kind, "statement_block") || same_text(kind, "block") {
        NodeRole::Block
    } else if same_text(kind, "if_expression") {
        NodeRole::Conditional
    } else if same_text(kind, "return_expression") {
        NodeRole::Return
    } else if same_text(kind, "loop_expression") || same_text(kind, "while_expression")
        || same_text(kind, "for_expression") {
        NodeRole::Loop
    } else if same_text(kind, "break_expression") {
        NodeRole::Break
    } else if has_suffix(kind, "_statement") || has_suffix(kind, "_declaration") || has_suffix(
        kind,
        "_item",
    ) {
        NodeRole::Statement
    } else {
        NodeRole::Container
    }
}

/// The index of the first child of `node` tagged `tag`, if any.
pub fn find_child(node: &AstNode, tag: &str) -> (found: Option<usize>)
    ensures
        match found {
            Some(i) => i < node.children.len() && i == index_of_kind(node.children@, tag@),
            None => index_of_kind(node.children@, tag@) == node.children.len(),
        },
{
    let mut i: usize = 0;
    while i < node.children.len()
        invariant
            i <= node.children.len(),
            index_of_kind(node.children@, tag@) == index_of_kind_from(
                node.children@,
                tag@,
                i as int,
            ),
        decreases node.children.len() - i,
    {
        if same_text(node.children[i].kind.as_str(), tag) {
            return Some(i);
        }
        i = i + 1;
    }
    None
}

/// The index of the first child of `node` with the role of a block, if any:
/// the body of a function or of a loop.
pub fn find_block_child(node: &AstNode) -> (found: Option<usize>)
    ensures
        match found {
            Some(i) => i < node.children.len() && i == index_of_block(node.children@),
            None => index_of_block(node.children@) == node.children.len(),
        },
{
    let mut i: usize = 0;
    while i < node.children.len()
        invariant
            i <= node.children.len(),
            index_of_block(node.children@) == index_of_block_from(node.children@, i as int),
        decreases node.children.len() - i,
    {
        let kind = node.children[i].kind.as_str();
        if same_text(kind, "statement_block") || same_text(kind, "block") {
            return Some(i);
        }
        i = i + 1;
    }
    None
}

/// Appends to `functions` every function definition in the subtree of
/// `node`, in pre-order.
pub fn find_functions<'a>(node: &'a AstNode, functions: &mut Vec<&'a AstNode>)
    ensures
        final(functions)@.map_values(|f: &AstNode| *f) == old(functions)@.map_values(
            |f: &AstNode| *f,
        ) + functions_in(*node),
    decreases node,
{
    let ghost before = functions@.map_values(|f: &AstNode| *f);
    if same_text(node.kind.as_str(), "function_item") {
        functions.push(node);
    }
    let ghost own = functions@.map_values(|f: &AstNode| *f);
    assert(own == before + if node.kind@ == "function_item"@ {
        seq![*node]
    } else {
        Seq::empty()
    });
    let mut i: usize = 0;
    while i < node.children.len()
        invariant
            i <= node.children.len(),
            functions@.map_values(|f: &AstNode| *f) == own + functions_below(*node, i as nat),
        decreases node.children.len() - i,
    {
        find_functions(&node.children[i], functions);
        i = i + 1;
    }
}

/// The name of the function defined by `function`.
pub fn function_name(function: &AstNode) -> (name: String)
    ensures
        name@ == name_of(*function),
{
    match find_child(function, "identifier") {
        Some(i) => function.children[i].text.clone(),
        None => String::from_str("unknown_function"),
    }
}

} // verus!
