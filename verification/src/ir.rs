//! The instruction listing of one function: basic blocks of flat
//! statements, each block closed by a terminator.
//!
//! A variable is a `u32`; a block is named by its position in the body.

use vstd::prelude::*;

verus! {

/// An operand of an instruction: a variable that is read, or a constant.
#[derive(Debug)]
pub enum Operand {
    Copy(u32),
    Move(u32),
    Constant,
}

/// The right-hand side of an assignment, by shape.
#[derive(Debug)]
pub enum Rvalue {
    Use(Operand),
    CopyForDeref(Operand),
    BinaryOp(Operand, Operand),
    CheckedBinaryOp(Operand, Operand),
    UnaryOp(Operand),
    Aggregate(Vec<Operand>),
    /// Any other shape; it reads nothing as far as data flow goes.
    Other,
}

/// What a statement does.
#[derive(Debug)]
pub enum StatementKind {
    /// Assigns the value of `rvalue` to the variable `target`.
    Assign { target: u32, rvalue: Rvalue },
    /// Anything else; it neither reads nor writes as far as data flow goes.
    Other,
}

/// One statement: its rendered text and what it does.
#[derive(Debug)]
pub struct Statement {
    pub text: String,
    pub kind: StatementKind,
}

/// How a block ends, by shape.
#[derive(Debug)]
pub enum TerminatorKind {
    /// A call with the given arguments.
    Call { args: Vec<Operand> },
    /// A multi-way branch on `discr`.
    SwitchInt { discr: Operand },
    /// Any other shape; it reads nothing as far as data flow goes.
    Other,
}

/// The terminator of a block: its rendered text, its shape, and the blocks
/// control may pass to.
#[derive(Debug)]
pub struct Terminator {
    pub text: String,
    pub kind: TerminatorKind,
    pub successors: Vec<usize>,
}

/// A basic block: statements in order, then the terminator.
#[derive(Debug)]
pub struct BasicBlockData {
    pub statements: Vec<Statement>,
    pub terminator: Terminator,
}

/// The body of one function: its basic blocks in order.
#[derive(Debug)]
pub struct Body {
    pub basic_blocks: Vec<BasicBlockData>,
}

/// A place in a body: statement `statement_index` of block `block`, or the
/// terminator of that block if `statement_index` is the number of its
/// statements.
#[derive(Clone, Copy, Debug, PartialEq, Eq, Structural)]
pub struct Location {
    pub block: usize,
    pub statement_index: usize,
}

impl Operand {
    /// The variables the operand reads.
    pub open spec fn uses(self) -> Seq<u32> {
        match self {
            Operand::Copy(local) => seq![local],
            Operand::Move(local) => seq![local],
            Operand::Constant => Seq::empty(),
        }
    }
}

/// The variables the first `count` of `operands` read, in order.
pub open spec fn operand_uses(operands: Seq<Operand>, count: nat) -> Seq<u32>
    decreases count,
{
    if count == 0 || count > operands.len() {
        Seq::empty()
    } else {
        operand_uses(operands, (count - 1) as nat) + operands[count - 1].uses()
    }
}

impl Rvalue {
    /// The variables the expression reads, in order.
    pub open spec fn uses(self) -> Seq<u32> {
        match self {
            Rvalue::Use(operand) => operand.uses(),
            Rvalue::CopyForDeref(operand) => operand.uses(),
            Rvalue::BinaryOp(left, right) => left.uses() + right.uses(),
            Rvalue::CheckedBinaryOp(left, right) => left.uses() + right.uses(),
            Rvalue::UnaryOp(operand) => operand.uses(),
            Rvalue::Aggregate(operands) => operand_uses(operands@, operands.len() as nat),
            Rvalue::Other => Seq::empty(),
        }
    }
}

impl Statement {
    /// The variables the statement reads, in order.
    pub open spec fn uses(self) -> Seq<u32> {
        match self.kind {
            StatementKind::Assign { target, rvalue } => rvalue.uses(),
            StatementKind::Other => Seq::empty(),
        }
    }

    /// The variable the statement assigns, if any.
    pub open spec fn defines(self) -> Option<u32> {
        match self.kind {
            StatementKind::Assign { target, rvalue } => Some(target),
            StatementKind::Other => None,
        }
    }
}

impl Terminator {
    /// The variables the terminator reads, in order.
    pub open spec fn uses(self) -> Seq<u32> {
        match self.kind {
            TerminatorKind::Call { args } => operand_uses(args@, args.len() as nat),
            TerminatorKind::SwitchInt { discr } => discr.uses(),
            TerminatorKind::Other => Seq::empty(),
        }
    }
}

/// One entry of the flat listing of a body: a statement or a terminator
/// with what data flow and control flow need to know of it.
pub struct Instruction {
    /// The rendered text.
    pub text: Seq<char>,
    /// The block it belongs to.
    pub block: int,
    /// Its position in the block; for a terminator, the number of
    /// statements of the block.
    pub index: int,
    /// The variable it assigns, if any.
    pub defines: Option<u32>,
    /// The variables it reads, in order.
    pub uses: Seq<u32>,
    /// The blocks control may pass to; empty for a statement.
    pub successors: Seq<usize>,
}

impl BasicBlockData {
    /// The listing of the block, named `id`: its statements, then its
    /// terminator.
    pub open spec fn listing(self, id: int) -> Seq<Instruction> {
        Seq::new(
            (self.statements.len() + 1) as nat,
            |i: int|
                if i < self.statements.len() {
                    Instruction {
                        text: self.statements[i].text@,
                        block: id,
                        index: i,
                        defines: self.statements[i].defines(),
                        uses: self.statements[i].uses(),
                        successors: Seq::empty(),
                    }
                } else {
                    Instruction {
                        text: self.terminator.text@,
                        block: id,
                        index: self.statements.len() as int,
                        defines: None,
                        uses: self.terminator.uses(),
                        successors: self.terminator.successors@,
                    }
                },
        )
    }
}

impl Body {
    /// The listing of the first `count` blocks, block after block.
    pub open spec fn listing_of(self, count: nat) -> Seq<Instruction>
        decreases count,
    {
        if count == 0 || count > self.basic_blocks.len() {
            Seq::empty()
        } else {
            self.listing_of((count - 1) as nat) + self.basic_blocks[count - 1].listing(count - 1)
        }
    }

    /// The listing of the whole body.
    pub open spec fn listing(self) -> Seq<Instruction> {
        self.listing_of(self.basic_blocks.len() as nat)
    }

    /// The position in the listing of the first instruction of block
    /// `block`.
    pub open spec fn first_of(self, block: int) -> int {
        self.listing_of(block as nat).len() as int
    }

    /// The position in the listing of the instruction at `location`.
    pub open spec fn position_of(self, location: Location) -> int {
        self.first_of(location.block as int) + location.statement_index
    }
}

} // verus!
