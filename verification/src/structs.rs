//! The instruction tree: the data model every other component consumes.

use vstd::prelude::*;

verus! {

/// One instruction of the tape machine.
///
/// `Add`, `Mov`, `In`, `Out` and `Loop` are produced by the parser;
/// `Transfer` is a synthetic instruction only the optimizer emits, the
/// closed form of an affine, pointer-neutral loop.
#[derive(Debug, PartialEq, Eq)]
pub enum Op {
    /// Add the operand to the current cell, wrapping modulo 256.
    Add(u8),
    /// Shift the cursor by the operand (signed, composable).
    Mov(isize),
    /// Read one byte of input into the current cell; signals end of input.
    In,
    /// Write the current cell to the output.
    Out,
    /// While the current cell is non-zero, execute the body.
    Loop(OpStream),
    /// Closed form of an affine loop: add the first operand to the current
    /// cell until it reaches zero, counting iterations, and add each
    /// target's multiplier scaled by the iteration count at its offset.
    Transfer(u8, Vec<(isize, u8)>),
}

/// An ordered sequence of instructions; a tree node exclusively owning
/// its children.
#[derive(Debug, PartialEq, Eq)]
pub struct OpStream {
    pub ops: Vec<Op>,
}

impl OpStream {
    /// The instructions as a slice.
    pub fn get(&self) -> (r: &[Op])
        ensures
            r@ == self.ops@,
    {
        self.ops.as_slice()
    }
}

/// The mathematical form of an instruction: the same tree with sequences
/// for children. Contracts and the semantics speak of this form.
pub ghost enum SOp {
    Add(u8),
    Mov(isize),
    In,
    Out,
    Loop(Seq<SOp>),
    Transfer(u8, Seq<(isize, u8)>),
}

/// The mathematical form of one instruction.
pub open spec fn op_view(op: Op) -> SOp
    decreases op,
{
    match op {
        Op::Add(i) => SOp::Add(i),
        Op::Mov(n) => SOp::Mov(n),
        Op::In => SOp::In,
        Op::Out => SOp::Out,
        Op::Loop(stream) => SOp::Loop(ops_view(stream.ops@)),
        Op::Transfer(d, targets) => SOp::Transfer(d, targets@),
    }
}

/// The mathematical form of a sequence of instructions, element by element.
pub open spec fn ops_view(ops: Seq<Op>) -> Seq<SOp>
    decreases ops,
{
    if ops.len() == 0 {
        Seq::empty()
    } else {
        ops_view(ops.drop_last()).push(op_view(ops.last()))
    }
}

/// `ops_view` maps element by element: it keeps the length and views each
/// position.
pub proof fn lemma_ops_view_index(ops: Seq<Op>)
    ensures
        ops_view(ops).len() == ops.len(),
        forall|i: int| 0 <= i < ops.len() ==> ops_view(ops)[i] == op_view(ops[i]),
    decreases ops,
{
    if ops.len() > 0 {
        lemma_ops_view_index(ops.drop_last());
    }
}

/// Viewing commutes with appending one instruction.
pub proof fn lemma_ops_view_push(ops: Seq<Op>, x: Op)
    ensures
        ops_view(ops.push(x)) == ops_view(ops).push(op_view(x)),
{
    assert(ops.push(x).drop_last() =~= ops);
}

/// Viewing commutes with dropping the last instruction.
pub proof fn lemma_ops_view_drop_last(ops: Seq<Op>)
    requires
        ops.len() > 0,
    ensures
        ops_view(ops).len() == ops.len(),
        ops_view(ops.drop_last()) == ops_view(ops).drop_last(),
        ops_view(ops).last() == op_view(ops.last()),
{
    lemma_ops_view_index(ops);
    assert(ops_view(ops) == ops_view(ops.drop_last()).push(op_view(ops.last())));
    assert(ops_view(ops).drop_last() =~= ops_view(ops.drop_last()));
}

} // verus!
