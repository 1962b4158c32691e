//! The native-code backend's front half: lowering the instruction tree into
//! an explicit control-flow graph with loop-carried register merges, and an
//! evaluator that executes that graph against a fixed-capacity tape.
//!
//! The graph is laid out flat: one instruction array, a "block" being named
//! by the index of its first instruction. One live cursor value is threaded
//! through the lowering as numbered registers; a loop header holds a `Phi`
//! that merges the cursor arriving from before the loop with the cursor
//! arriving from the body's back edge, told apart by the index of the jump
//! that transferred control. Machine-code emission itself (through an LLVM
//! binding) is unverified by nature and lives outside this crate; the
//! evaluator here gives the graph its meaning and is what the contracts
//! speak of.
//!
//! The tape is a fixed 30000 bytes; a cursor outside it is wrapped into
//! range (reduced modulo the tape size, after reinterpreting the register's
//! two's-complement value as unsigned), the documented handling of the
//! fixed-capacity boundary.

use vstd::prelude::*;

use std::collections::HashMap;

use vstd::pervasive::unreached;

use crate::structs::{lemma_ops_view_index, op_view, ops_view, Op, OpStream, SOp};

verus! {

/// The fixed capacity of the native backend's tape, in bytes.
pub const MEMSIZE: usize = 30000;

/// One instruction of the control-flow graph. Register and instruction
/// indices are plain numbers; control transfers name the index of the
/// target's first instruction.
#[derive(Debug, PartialEq, Eq, Clone, Copy)]
pub enum CInst {
    /// A loop-header merge: `dst` takes the register recorded for whichever
    /// jump index control arrived from.
    Phi { dst: usize, a_from: usize, a_reg: usize, b_from: usize, b_reg: usize },
    /// `dst = src + off`: the lowering of `Mov`.
    PtrAdd { dst: usize, src: usize, off: isize },
    /// `tape[ptr] += delta` (wrapping): the lowering of `Add`.
    CellAdd { ptr: usize, delta: u8 },
    /// Write `tape[ptr]` to the output: the lowering of `Out`.
    Write { ptr: usize },
    /// Read one input byte into `tape[ptr]` and continue at `ok`; on end of
    /// input continue at `eof` (which holds the early return).
    Read { ptr: usize, eof: usize, ok: usize },
    /// An unconditional transfer.
    Jump { target: usize },
    /// Transfer to `zero` when `tape[ptr]` is zero, else to `nonzero`.
    Branch { ptr: usize, zero: usize, nonzero: usize },
    /// Leave the compiled function.
    Ret,
}

/// The lowering's running state: the instructions emitted so far and the
/// next free register number.
pub ghost struct LSt {
    pub code: Seq<CInst>,
    pub regs: usize,
}

/// The next free register number; allocation pins at the largest
/// representable value, far beyond what any machine-held tree can ask for.
pub open spec fn sat_reg(r: usize) -> usize {
    if r == usize::MAX {
        r
    } else {
        (r + 1) as usize
    }
}

/// Lower one instruction from cursor register `ptr`; yields the new state
/// and the cursor register after the instruction. A `Transfer` has no
/// lowering: it is left out here and refused by the compiler (a documented
/// capability gap), so this case is vacuous under [`no_transfer`].
pub open spec fn lower_op(st: LSt, ptr: usize, op: SOp) -> (LSt, usize)
    decreases op,
{
    match op {
        SOp::Add(delta) => (
            LSt { code: st.code.push(CInst::CellAdd { ptr, delta }), ..st },
            ptr,
        ),
        SOp::Mov(off) => {
            let dst = st.regs;
            (
                LSt {
                    code: st.code.push(CInst::PtrAdd { dst, src: ptr, off }),
                    regs: sat_reg(st.regs),
                },
                dst,
            )
        },
        SOp::Out => (LSt { code: st.code.push(CInst::Write { ptr }), ..st }, ptr),
        SOp::In => {
            // read, then an exit block holding the early return, then the
            // block that continues on success; the read's targets are
            // patched in once both stand
            let c1 = st.code.push(CInst::Read { ptr, eof: 0, ok: 0 }).push(CInst::Ret);
            let n = c1.len() as int;
            let c2 = c1.update(
                n - 2,
                CInst::Read { ptr, eof: (n - 1) as usize, ok: n as usize },
            );
            (LSt { code: c2, ..st }, ptr)
        },
        SOp::Loop(body) => {
            // entry jump, test block (phi, branch), body, back edge; the
            // phi's back-edge input and the branch's exit target are
            // patched once the body is lowered
            let c1 = st.code.push(CInst::Jump { target: 0 });
            let t = c1.len() as int;
            let merged = st.regs;
            let c2 = c1.update(t - 1, CInst::Jump { target: t as usize });
            let c3 = c2.push(
                CInst::Phi { dst: merged, a_from: (t - 1) as usize, a_reg: ptr, b_from: 0, b_reg: 0 },
            ).push(CInst::Branch { ptr: merged, zero: 0, nonzero: 0 });
            let (st2, body_ptr) = lower_seq(body, LSt { code: c3, regs: sat_reg(st.regs) }, merged);
            let c4 = st2.code.push(CInst::Jump { target: t as usize });
            let nb = c4.len() as int;
            let c5 = c4.update(
                t,
                CInst::Phi {
                    dst: merged,
                    a_from: (t - 1) as usize,
                    a_reg: ptr,
                    b_from: (nb - 1) as usize,
                    b_reg: body_ptr,
                },
            ).update(
                t + 1,
                CInst::Branch { ptr: merged, zero: nb as usize, nonzero: (t + 2) as usize },
            );
            (LSt { code: c5, ..st2 }, merged)
        },
        SOp::Transfer(_, _) => (st, ptr),
    }
}

/// The lowering only appends (patching in place): the emitted code never
/// shrinks.
pub proof fn lemma_lower_op_len(st: LSt, ptr: usize, op: SOp)
    ensures
        lower_op(st, ptr, op).0.code.len() >= st.code.len(),
    decreases op, 1int,
{
    match op {
        SOp::Loop(body) => {
            let c1 = st.code.push(CInst::Jump { target: 0 });
            let t = c1.len() as int;
            let c2 = c1.update(t - 1, CInst::Jump { target: t as usize });
            let c3 = c2.push(
                CInst::Phi { dst: st.regs, a_from: (t - 1) as usize, a_reg: ptr, b_from: 0, b_reg: 0 },
            ).push(CInst::Branch { ptr: st.regs, zero: 0, nonzero: 0 });
            lemma_lower_seq_len(body, LSt { code: c3, regs: sat_reg(st.regs) }, st.regs);
        },
        _ => {},
    }
}

/// Lowering a sequence only appends.
pub proof fn lemma_lower_seq_len(ops: Seq<SOp>, st: LSt, ptr: usize)
    ensures
        lower_seq(ops, st, ptr).0.code.len() >= st.code.len(),
    decreases ops, 0int,
{
    if ops.len() > 0 {
        lemma_lower_seq_len(ops.drop_last(), st, ptr);
        let (st1, p1) = lower_seq(ops.drop_last(), st, ptr);
        assert(decreases_to!(ops => ops[ops.len() - 1]));
        lemma_lower_op_len(st1, p1, ops.last());
    }
}

/// What [`no_transfer`] says of each element.
pub proof fn lemma_no_transfer_index(ops: Seq<SOp>, i: int)
    requires
        no_transfer(ops),
        0 <= i < ops.len(),
    ensures
        !(ops[i] is Transfer),
        ops[i] is Loop ==> no_transfer(ops[i]->Loop_0),
    decreases ops.len(),
{
    if i < ops.len() - 1 {
        lemma_no_transfer_index(ops.drop_last(), i);
    }
}

/// Lower a sequence of instructions left to right, threading the cursor
/// register through.
pub open spec fn lower_seq(ops: Seq<SOp>, st: LSt, ptr: usize) -> (LSt, usize)
    decreases ops,
{
    if ops.len() == 0 {
        (st, ptr)
    } else {
        let (st1, p1) = lower_seq(ops.drop_last(), st, ptr);
        lower_op(st1, p1, ops.last())
    }
}

/// The whole compiled function: the tree lowered from register 0 (which is
/// never assigned and so reads as the zero cursor), closed with a return.
pub open spec fn lower_tree(ops: Seq<SOp>) -> Seq<CInst> {
    let (st, p) = lower_seq(ops, LSt { code: Seq::empty(), regs: 1 }, 0);
    st.code.push(CInst::Ret)
}

/// No `Transfer` anywhere in the tree: what the backend can lower.
pub open spec fn no_transfer(ops: Seq<SOp>) -> bool
    decreases ops,
{
    ops.len() == 0 || {
        &&& no_transfer(ops.drop_last())
        &&& match ops.last() {
            SOp::Transfer(_, _) => false,
            SOp::Loop(body) => no_transfer(body),
            _ => true,
        }
    }
}

/// The graph machine's state: the instruction about to execute, the index
/// of the jump that last transferred control (what a `Phi` discriminates
/// on), the registers (unassigned ones read as zero), the fixed tape, the
/// unread input, the output so far, and whether the function has returned.
pub ghost struct ESt {
    pub pc: int,
    pub from: int,
    pub regs: Map<usize, i64>,
    pub tape: Seq<u8>,
    pub inp: Seq<u8>,
    pub out: Seq<u8>,
    pub done: bool,
}

/// Read a register; unassigned registers read as zero.
pub open spec fn rread(regs: Map<usize, i64>, r: usize) -> i64 {
    if regs.dom().contains(r) {
        regs[r]
    } else {
        0
    }
}

/// The tape address a cursor register denotes: its two's-complement value
/// reinterpreted as unsigned and reduced modulo the tape size.
pub open spec fn addr_of(v: i64) -> int {
    ((v as u64) % (MEMSIZE as u64)) as int
}

/// One step of the graph machine. Leaving the instruction array returns
/// from the function, so the step is total.
pub open spec fn estep(code: Seq<CInst>, st: ESt) -> ESt {
    if st.done || st.pc < 0 || st.pc >= code.len() {
        ESt { done: true, ..st }
    } else {
        match code[st.pc] {
            CInst::Phi { dst, a_from, a_reg, b_from, b_reg } => {
                let v = if st.from == a_from {
                    rread(st.regs, a_reg)
                } else {
                    rread(st.regs, b_reg)
                };
                ESt { pc: st.pc + 1, regs: st.regs.insert(dst, v), ..st }
            },
            CInst::PtrAdd { dst, src, off } => ESt {
                pc: st.pc + 1,
                regs: st.regs.insert(dst, rread(st.regs, src).wrapping_add(off as i64)),
                ..st
            },
            CInst::CellAdd { ptr, delta } => {
                let a = addr_of(rread(st.regs, ptr));
                ESt { pc: st.pc + 1, tape: st.tape.update(a, st.tape[a].wrapping_add(delta)), ..st }
            },
            CInst::Write { ptr } => {
                let a = addr_of(rread(st.regs, ptr));
                ESt { pc: st.pc + 1, out: st.out.push(st.tape[a]), ..st }
            },
            CInst::Read { ptr, eof, ok } => {
                if st.inp.len() == 0 {
                    ESt { pc: eof as int, from: st.pc, ..st }
                } else {
                    let a = addr_of(rread(st.regs, ptr));
                    ESt {
                        pc: ok as int,
                        from: st.pc,
                        tape: st.tape.update(a, st.inp[0]),
                        inp: st.inp.drop_first(),
                        ..st
                    }
                }
            },
            CInst::Jump { target } => ESt { pc: target as int, from: st.pc, ..st },
            CInst::Branch { ptr, zero, nonzero } => {
                let a = addr_of(rread(st.regs, ptr));
                let t = if st.tape[a] == 0 {
                    zero
                } else {
                    nonzero
                };
                ESt { pc: t as int, from: st.pc, ..st }
            },
            CInst::Ret => ESt { done: true, ..st },
        }
    }
}

/// `k` steps of the graph machine.
pub open spec fn esteps(code: Seq<CInst>, st: ESt, k: nat) -> ESt
    decreases k,
{
    if k == 0 {
        st
    } else {
        esteps(code, estep(code, st), (k - 1) as nat)
    }
}

/// The machine reaches a return within some number of steps.
pub open spec fn e_halts(code: Seq<CInst>, st: ESt) -> bool {
    exists|k: nat| (#[trigger] esteps(code, st, k)).done
}

/// The least number of steps to the return.
pub open spec fn e_fuel(code: Seq<CInst>, st: ESt) -> nat {
    choose|k: nat|
        (#[trigger] esteps(code, st, k)).done && (k == 0 || !esteps(
            code,
            st,
            (k - 1) as nat,
        ).done)
}

/// The state at the return.
pub open spec fn e_res(code: Seq<CInst>, st: ESt) -> ESt {
    esteps(code, st, e_fuel(code, st))
}

/// A returned state does not move.
pub proof fn lemma_esteps_done(code: Seq<CInst>, st: ESt, k: nat)
    requires
        st.done,
    ensures
        esteps(code, st, k) == st,
    decreases k,
{
    if k > 0 {
        assert(estep(code, st) == st);
        lemma_esteps_done(code, estep(code, st), (k - 1) as nat);
    }
}

/// Steps compose.
pub proof fn lemma_esteps_add(code: Seq<CInst>, st: ESt, a: nat, b: nat)
    ensures
        esteps(code, st, a + b) == esteps(code, esteps(code, st, a), b),
    decreases a,
{
    if a > 0 {
        lemma_esteps_add(code, estep(code, st), (a - 1) as nat, b);
    }
}

/// A halting state halts at its least step count; the state there is the
/// result, whatever witness the halting came with.
pub proof fn lemma_e_fuel(code: Seq<CInst>, st: ESt, k: nat)
    requires
        esteps(code, st, k).done,
    ensures
        e_fuel(code, st) <= k,
        e_res(code, st).done,
        esteps(code, st, k) == e_res(code, st),
    decreases k,
{
    if k > 0 && esteps(code, st, (k - 1) as nat).done {
        lemma_e_fuel(code, st, (k - 1) as nat);
        lemma_esteps_add(code, st, (k - 1) as nat, 1);
        lemma_esteps_done(code, esteps(code, st, (k - 1) as nat), 1);
    } else {
        assert(esteps(code, st, k).done && (k == 0 || !esteps(code, st, (k - 1) as nat).done));
        let km = e_fuel(code, st);
        assert(esteps(code, st, km).done && (km == 0 || !esteps(code, st, (km - 1) as nat).done));
        if km > k {
            lemma_esteps_add(code, st, k, (km - 1 - k) as nat);
            lemma_esteps_done(code, esteps(code, st, k), (km - 1 - k) as nat);
        } else {
            lemma_esteps_add(code, st, km, (k - km) as nat);
            lemma_esteps_done(code, esteps(code, st, km), (k - km) as nat);
        }
    }
}

/// One step off a halting, unreturned state lands on a halting state one
/// step closer to the return, with the same result.
#[verifier::rlimit(100)]
#[verifier::spinoff_prover]
pub proof fn lemma_e_step(code: Seq<CInst>, st: ESt)
    requires
        e_halts(code, st),
        !st.done,
    ensures
        e_halts(code, estep(code, st)),
        e_fuel(code, estep(code, st)) < e_fuel(code, st),
        e_res(code, estep(code, st)) == e_res(code, st),
{
    let kw = choose|k: nat| (#[trigger] esteps(code, st, k)).done;
    lemma_e_fuel(code, st, kw);
    let f = e_fuel(code, st);
    assert(f > 0) by {
        if f == 0 {
            assert(esteps(code, st, 0) == st);
        }
    }
    assert(esteps(code, estep(code, st), (f - 1) as nat) == esteps(code, st, f)) by {
        lemma_esteps_add(code, st, 1, (f - 1) as nat);
        assert(esteps(code, estep(code, st), 0) == estep(code, st));
        assert(esteps(code, st, 1) == estep(code, st));
    }
    lemma_e_fuel(code, estep(code, st), (f - 1) as nat);
}

/// The lowering context: the instructions emitted so far and the register
/// counter, mirroring [`LSt`].
struct Compiler {
    code: Vec<CInst>,
    n_regs: usize,
}

/// The state a lowering context denotes.
spec fn lst(c: Compiler) -> LSt {
    LSt { code: c.code@, regs: c.n_regs }
}

impl Compiler {
    /// Allocate the next register number.
    fn bump_reg(&mut self)
        ensures
            final(self).code == old(self).code,
            final(self).n_regs == sat_reg(old(self).n_regs),
    {
        if self.n_regs != usize::MAX {
            self.n_regs = self.n_regs + 1;
        }
    }

    /// Lower `Mov`: the new cursor register is the old one plus the offset.
    fn compile_mov(&mut self, ptr: usize, i: isize) -> (r: usize)
        ensures
            (lst(*final(self)), r) == lower_op(lst(*old(self)), ptr, SOp::Mov(i)),
    {
        let dst = self.n_regs;
        self.code.push(CInst::PtrAdd { dst, src: ptr, off: i });
        self.bump_reg();
        dst
    }

    /// Lower `Add`: load, add the byte constant with wraparound, store.
    fn compile_add(&mut self, ptr: usize, i: u8) -> (r: usize)
        ensures
            (lst(*final(self)), r) == lower_op(lst(*old(self)), ptr, SOp::Add(i)),
    {
        self.code.push(CInst::CellAdd { ptr, delta: i });
        ptr
    }

    /// Lower `In`: read a byte, and on end of input return early through a
    /// dedicated exit block.
    fn compile_in(&mut self, ptr: usize) -> (r: usize)
        ensures
            (lst(*final(self)), r) == lower_op(lst(*old(self)), ptr, SOp::In),
    {
        self.code.push(CInst::Read { ptr, eof: 0, ok: 0 });
        self.code.push(CInst::Ret);
        let n = self.code.len();
        self.code.set(n - 2, CInst::Read { ptr, eof: n - 1, ok: n });
        ptr
    }

    /// Lower `Out`: load the cell and write it.
    fn compile_out(&mut self, ptr: usize) -> (r: usize)
        ensures
            (lst(*final(self)), r) == lower_op(lst(*old(self)), ptr, SOp::Out),
    {
        self.code.push(CInst::Write { ptr });
        ptr
    }

    /// Lower `Loop`: a test block whose `Phi` merges the cursor arriving
    /// from before the loop with the cursor from the body's back edge, a
    /// branch on the merged cell, the lowered body, and the back edge; the
    /// merged register is the cursor after the loop.
    fn compile_loop(&mut self, ptr: usize, ops: &OpStream) -> (r: usize)
        requires
            no_transfer(ops_view(ops.ops@)),
        ensures
            (lst(*final(self)), r) == lower_op(
                lst(*old(self)),
                ptr,
                SOp::Loop(ops_view(ops.ops@)),
            ),
        decreases SOp::Loop(ops_view(ops.ops@)), 1int,
    {
        self.code.push(CInst::Jump { target: 0 });
        let t = self.code.len();
        self.code.set(t - 1, CInst::Jump { target: t });
        let merged = self.n_regs;
        self.code.push(CInst::Phi { dst: merged, a_from: t - 1, a_reg: ptr, b_from: 0, b_reg: 0 });
        self.code.push(CInst::Branch { ptr: merged, zero: 0, nonzero: 0 });
        self.bump_reg();
        let ghost mid = lst(*self);
        proof {
            let vloop = SOp::Loop(ops_view(ops.ops@));
            assert(decreases_to!(vloop => vloop->Loop_0));
            assert(vloop->Loop_0 == ops_view(ops.ops@));
        }
        let body_ptr = self.compile(ops.get(), merged);
        proof {
            lemma_lower_seq_len(ops_view(ops.ops@), mid, merged);
        }
        self.code.push(CInst::Jump { target: t });
        let nb = self.code.len();
        self.code.set(
            t,
            CInst::Phi { dst: merged, a_from: t - 1, a_reg: ptr, b_from: nb - 1, b_reg: body_ptr },
        );
        self.code.set(t + 1, CInst::Branch { ptr: merged, zero: nb, nonzero: t + 2 });
        merged
    }

    /// Lower a sequence of instructions, threading the cursor register
    /// through, as [`lower_seq`] says. A `Transfer` cannot be lowered: the
    /// backend refuses it, so it is ruled out up front.
    fn compile(&mut self, ops: &[Op], start_ptr: usize) -> (r: usize)
        requires
            no_transfer(ops_view(ops@)),
        ensures
            (lst(*final(self)), r) == lower_seq(ops_view(ops@), lst(*old(self)), start_ptr),
        decreases ops_view(ops@), 0int,
    {
        let ghost vops = ops_view(ops@);
        let ghost lst0 = lst(*old(self));
        let mut ptr = start_ptr;
        let mut i: usize = 0;
        proof {
            lemma_ops_view_index(ops@);
            assert(vops.take(0) =~= Seq::empty());
        }
        while i < ops.len()
            invariant
                i <= ops@.len(),
                vops == ops_view(ops@),
                lst0 == lst(*old(self)),
                no_transfer(vops),
                vops.len() == ops@.len(),
                (lst(*self), ptr) == lower_seq(vops.take(i as int), lst0, start_ptr),
            decreases ops@.len() - i,
        {
            proof {
                lemma_ops_view_index(ops@);
                lemma_no_transfer_index(vops, i as int);
                assert(vops.take(i as int + 1).drop_last() =~= vops.take(i as int));
                assert(vops.take(i as int + 1).last() == vops[i as int]);
                assert(decreases_to!(vops => vops[i as int]));
            }
            ptr = match &ops[i] {
                Op::Mov(n) => self.compile_mov(ptr, *n),
                Op::Add(x) => self.compile_add(ptr, *x),
                Op::In => self.compile_in(ptr),
                Op::Out => self.compile_out(ptr),
                Op::Loop(stream) => self.compile_loop(ptr, stream),
                Op::Transfer(_, _) => unreached(),
            };
            i = i + 1;
        }
        proof {
            assert(vops.take(vops.len() as int) =~= vops);
        }
        ptr
    }
}

/// The native backend's execution state: the fixed tape, the injected
/// input and output byte buffers, and whether the emitter may optimize
/// (kept for the interface; the graph's meaning does not depend on it).
pub struct LlvmState {
    pub memory: Vec<u8>,
    pub input: Vec<u8>,
    pub in_pos: usize,
    pub output: Vec<u8>,
    pub optimize: bool,
}

impl LlvmState {
    /// The tape has its fixed capacity and the read position lies within
    /// the input.
    pub open spec fn wf(self) -> bool {
        &&& self.memory@.len() == MEMSIZE
        &&& self.in_pos <= self.input@.len()
    }

    /// The graph machine's starting state for this execution state.
    pub open spec fn m(self) -> ESt {
        ESt {
            pc: 0,
            from: 0,
            regs: Map::empty(),
            tape: self.memory@,
            inp: self.input@.skip(self.in_pos as int),
            out: self.output@,
            done: false,
        }
    }

    /// The graph machine's state mid-run, assembled from this execution
    /// state and the evaluator's registers.
    pub open spec fn est_of(
        self,
        pc: usize,
        from: usize,
        regs: Map<usize, i64>,
        done: bool,
    ) -> ESt {
        ESt {
            pc: pc as int,
            from: from as int,
            regs,
            tape: self.memory@,
            inp: self.input@.skip(self.in_pos as int),
            out: self.output@,
            done,
        }
    }

    /// A fresh native-backend state: an all-zero tape of the fixed
    /// capacity, the given input still unread, the given output already
    /// written.
    pub fn new(input: Vec<u8>, output: Vec<u8>, optimize: bool) -> (r: LlvmState)
        ensures
            r.wf(),
            r.m() == (ESt {
                pc: 0,
                from: 0,
                regs: Map::<usize, i64>::empty(),
                tape: Seq::new(MEMSIZE as nat, |i: int| 0u8),
                inp: input@,
                out: output@,
                done: false,
            }),
            r.optimize == optimize,
    {
        let mut memory: Vec<u8> = Vec::new();
        let mut i: usize = 0;
        while i < MEMSIZE
            invariant
                i <= MEMSIZE,
                memory@.len() == i,
                forall|j: int| 0 <= j < i ==> memory@[j] == 0u8,
            decreases MEMSIZE - i,
        {
            memory.push(0);
            i = i + 1;
        }
        let r = LlvmState { memory, input, in_pos: 0, output, optimize };
        proof {
            assert(r.memory@ =~= Seq::new(MEMSIZE as nat, |i: int| 0u8));
            assert(r.input@.skip(0) =~= r.input@);
        }
        r
    }

    /// Compile the whole instruction tree once into one control-flow
    /// graph, then execute that graph against the fixed tape and the
    /// injected byte buffers. The tree must be free of `Transfer` (the
    /// backend's documented capability gap), and the compiled function
    /// must return from this state; a compiled program that never would
    /// (an endless loop) lies outside this contract, and on such inputs
    /// the call never returns, as the native function would not.
    #[verifier::rlimit(100)]
    pub fn run(&mut self, ops: &[Op]) -> (r: bool)
        requires
            old(self).wf(),
            no_transfer(ops_view(ops@)),
            e_halts(lower_tree(ops_view(ops@)), old(self).m()),
        ensures
            final(self).wf(),
            r == true,
            ({
                let e = e_res(lower_tree(ops_view(ops@)), old(self).m());
                &&& final(self).memory@ == e.tape
                &&& final(self).input@.skip(final(self).in_pos as int) == e.inp
                &&& final(self).output@ == e.out
            }),
    {
        let ghost codev = lower_tree(ops_view(ops@));
        let ghost init = self.m();
        let code = lower(ops);
        proof {
            assert(code@ == codev);
        }
        let mut regs: HashMap<usize, i64> = HashMap::new();
        let mut pc: usize = 0;
        let mut from: usize = 0;
        let mut done: bool = false;
        proof {
            assert(self.est_of(0, 0, regs@, false) == init);
        }
        while !done
            invariant
                self.wf(),
                codev == code@,
                e_halts(codev, self.est_of(pc, from, regs@, done)),
                e_res(codev, self.est_of(pc, from, regs@, done)) == e_res(codev, init),
            decreases e_fuel(codev, self.est_of(pc, from, regs@, done)),
        {
            let ghost est0 = self.est_of(pc, from, regs@, done);
            proof {
                lemma_e_step(codev, est0);
            }
            if pc >= code.len() {
                done = true;
                proof {
                    assert(self.est_of(pc, from, regs@, done) == estep(codev, est0));
                }
            } else {
                let inst = code[pc];
                match inst {
                    CInst::Phi { dst, a_from, a_reg, b_from, b_reg } => {
                        let v = if from == a_from {
                            regget(&regs, a_reg)
                        } else {
                            regget(&regs, b_reg)
                        };
                        regs.insert(dst, v);
                        pc = pc + 1;
                    },
                    CInst::PtrAdd { dst, src, off } => {
                        let v = regget(&regs, src).wrapping_add(off as i64);
                        regs.insert(dst, v);
                        pc = pc + 1;
                    },
                    CInst::CellAdd { ptr, delta } => {
                        let a = tape_addr(regget(&regs, ptr));
                        let cur = self.memory[a];
                        self.memory.set(a, cur.wrapping_add(delta));
                        pc = pc + 1;
                    },
                    CInst::Write { ptr } => {
                        let a = tape_addr(regget(&regs, ptr));
                        let cur = self.memory[a];
                        self.output.push(cur);
                        pc = pc + 1;
                    },
                    CInst::Read { ptr, eof, ok } => {
                        if self.in_pos < self.input.len() {
                            let b = self.input[self.in_pos];
                            let a = tape_addr(regget(&regs, ptr));
                            self.memory.set(a, b);
                            self.in_pos = self.in_pos + 1;
                            from = pc;
                            pc = ok;
                            proof {
                                assert(est0.inp.drop_first() =~= self.input@.skip(
                                    self.in_pos as int,
                                ));
                            }
                        } else {
                            from = pc;
                            pc = eof;
                        }
                    },
                    CInst::Jump { target } => {
                        from = pc;
                        pc = target;
                    },
                    CInst::Branch { ptr, zero, nonzero } => {
                        let a = tape_addr(regget(&regs, ptr));
                        let t = if self.memory[a] == 0 {
                            zero
                        } else {
                            nonzero
                        };
                        from = pc;
                        pc = t;
                    },
                    CInst::Ret => {
                        done = true;
                    },
                }
                proof {
                    assert(self.est_of(pc, from, regs@, done) == estep(codev, est0));
                }
            }
        }
        proof {
            let fin = self.est_of(pc, from, regs@, done);
            lemma_e_fuel(codev, fin, 0);
        }
        true
    }
}

/// Lower a `Transfer`-free instruction tree into its whole compiled
/// function: the flat control-flow graph, closed with a return. This is
/// what an emitter turns into machine code, instruction for instruction.
pub fn lower(ops: &[Op]) -> (r: Vec<CInst>)
    requires
        no_transfer(ops_view(ops@)),
    ensures
        r@ == lower_tree(ops_view(ops@)),
{
    let mut compiler = Compiler { code: Vec::new(), n_regs: 1 };
    let _ = compiler.compile(ops, 0);
    compiler.code.push(CInst::Ret);
    compiler.code
}

/// Read one of the evaluator's registers; unassigned registers read as
/// zero, the way the graph machine does.
fn regget(regs: &HashMap<usize, i64>, r: usize) -> (v: i64)
    ensures
        v == rread(regs@, r),
{
    match regs.get(&r) {
        Some(v) => *v,
        None => 0,
    }
}

/// The tape address a cursor register denotes, in range by construction.
fn tape_addr(v: i64) -> (r: usize)
    ensures
        r as int == addr_of(v),
        r < MEMSIZE,
{
    ((v as u64) % (MEMSIZE as u64)) as usize
}

} // verus!
