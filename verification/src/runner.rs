//! The tree-walking interpreter: a machine state over a sparse, unbounded
//! byte tape, with injected input and output byte buffers.
//!
//! Every run is verified against the fuel-indexed evaluator of
//! [`crate::semantics`]: a call that returns yields exactly the machine that
//! `run_s` denotes. The language itself admits programs that never finish;
//! such a run has no finishing fuel, so it lies outside `run`'s contract,
//! and on such inputs the code simply does not return (the loop keeps
//! spinning), which is the faithful behaviour of the source program.

use vstd::prelude::*;

use std::collections::HashMap;

use crate::semantics::{
    cell, lemma_loop_unfold, lemma_loop_zero, lemma_orbit_cycle, lemma_run_unfold, lemma_run_zero,
    lemma_scaled_mod, lemma_step_now, lemma_steps_orbit, lemma_transfer_halts,
    lemma_transfer_zero, orbit, run_halts, run_res, step_halts, step_res, transfer_iters, tread,
    Mach,
};
use crate::structs::{lemma_ops_view_index, op_view, ops_view, Op, SOp};

verus! {

use crate::semantics::{apply_targets, run_fuel, step_fuel};

/// One execution's state: the cursor, the tape, the input bytes (read at
/// `in_pos`) and the output bytes written so far.
pub struct State {
    pub index: isize,
    pub memory: HashMap<isize, u8>,
    pub input: Vec<u8>,
    pub in_pos: usize,
    pub output: Vec<u8>,
}

impl State {
    /// The read position lies within the input.
    pub open spec fn wf(self) -> bool {
        self.in_pos <= self.input@.len()
    }

    /// The abstract machine this state denotes.
    pub open spec fn m(self) -> Mach {
        Mach {
            cur: self.index,
            tape: self.memory@,
            inp: self.input@.skip(self.in_pos as int),
            out: self.output@,
        }
    }

    /// A fresh state: cursor at zero, an all-zero tape, the given input
    /// still unread, the given output already written.
    pub fn new(input: Vec<u8>, output: Vec<u8>) -> (r: State)
        ensures
            r.wf(),
            r.m() == (Mach { cur: 0isize, tape: Map::<isize, u8>::empty(), inp: input@, out: output@ }),
    {
        let r = State { index: 0, memory: HashMap::new(), input, in_pos: 0, output };
        proof {
            assert(r.input@.skip(0) =~= r.input@);
        }
        r
    }

    /// Read the cell `relative` away from the cursor; unwritten cells are
    /// zero.
    pub fn cell_at(&self, relative: isize) -> (r: u8)
        ensures
            r == tread(self.m().tape, self.index.wrapping_add(relative)),
    {
        let a = self.index.wrapping_add(relative);
        match self.memory.get(&a) {
            Some(v) => *v,
            None => 0,
        }
    }

    /// Write the cell `relative` away from the cursor, growing the tape as
    /// needed.
    pub fn set_cell(&mut self, relative: isize, value: u8)
        ensures
            final(self).wf() == old(self).wf(),
            final(self).m() == (Mach {
                tape: old(self).m().tape.insert(old(self).index.wrapping_add(relative), value),
                ..old(self).m()
            }),
            final(self).index == old(self).index,
    {
        let a = self.index.wrapping_add(relative);
        self.memory.insert(a, value);
    }

    /// Execute one instruction. Returns `true` when it completed, `false`
    /// when it was stopped by end of input. The precondition asks that the
    /// instruction finishes from this state; on an instruction that never
    /// would (an endless loop, a stalled transfer), the call never returns.
    #[verifier::rlimit(100)]
    #[verifier::spinoff_prover]
    pub fn step(&mut self, op: &Op) -> (r: bool)
        requires
            old(self).wf(),
            step_halts(old(self).m(), op_view(*op)),
        ensures
            final(self).wf(),
            (final(self).m(), r) == step_res(old(self).m(), op_view(*op)),
        decreases step_fuel(old(self).m(), op_view(*op)), op_view(*op), 0int,
    {
        let ghost m0 = self.m();
        match op {
            Op::Add(i) => {
                let v = self.cell_at(0);
                self.set_cell(0, v.wrapping_add(*i));
                proof {
                    lemma_step_now(m0, op_view(*op));
                }
                true
            },
            Op::Mov(n) => {
                self.index = self.index.wrapping_add(*n);
                proof {
                    lemma_step_now(m0, op_view(*op));
                }
                true
            },
            Op::In => {
                proof {
                    lemma_step_now(m0, op_view(*op));
                }
                if self.in_pos < self.input.len() {
                    let b = self.input[self.in_pos];
                    let a = self.index;
                    self.memory.insert(a, b);
                    self.in_pos = self.in_pos + 1;
                    proof {
                        assert(old(self).input@.skip(old(self).in_pos as int).drop_first()
                            =~= self.input@.skip(self.in_pos as int));
                    }
                    true
                } else {
                    proof {
                        assert(m0.inp.len() == 0);
                    }
                    false
                }
            },
            Op::Out => {
                let v = self.cell_at(0);
                self.output.push(v);
                proof {
                    lemma_step_now(m0, op_view(*op));
                }
                true
            },
            Op::Loop(stream) => {
                while self.cell_at(0) != 0
                    invariant
                        self.wf(),
                        op_view(*op) == SOp::Loop(ops_view(stream.ops@)),
                        m0 == old(self).m(),
                        step_halts(self.m(), op_view(*op)),
                        step_fuel(self.m(), op_view(*op)) <= step_fuel(m0, op_view(*op)),
                        step_res(self.m(), op_view(*op)) == step_res(m0, op_view(*op)),
                    decreases step_fuel(self.m(), op_view(*op)),
                {
                    proof {
                        lemma_loop_unfold(self.m(), op_view(*op));
                    }
                    let ok = self.run(stream.get());
                    if !ok {
                        return false;
                    }
                }
                proof {
                    lemma_loop_zero(self.m(), op_view(*op));
                }
                true
            },
            Op::Transfer(d, targets) => {
                let start = self.cell_at(0);
                if start == 0 {
                    proof {
                        lemma_transfer_zero(m0, op_view(*op));
                    }
                    return true;
                }
                proof {
                    lemma_transfer_halts(m0, op_view(*op));
                    lemma_steps_orbit(start, *d, 256);
                }
                let ghost n = transfer_iters(start, *d).unwrap();
                let mut v0 = start;
                let mut iterations: u16 = 0;
                while v0 != 0
                    invariant
                        start == cell(m0),
                        start != 0,
                        transfer_iters(start, *d) == Some(n),
                        orbit(start, *d, n) == 0,
                        forall|k: nat| k < n ==> orbit(start, *d, k) != 0,
                        n <= 256,
                        iterations as nat <= n,
                        v0 == orbit(start, *d, iterations as nat),
                    decreases n - iterations as nat,
                {
                    proof {
                        // the counter has not reached zero, so more
                        // iterations remain
                        assert((iterations as nat) < n);
                    }
                    v0 = v0.wrapping_add(*d);
                    proof {
                        assert(v0 == orbit(start, *d, iterations as nat + 1));
                    }
                    if v0 == start {
                        // The counter came back around without passing
                        // zero: the loop this transfer replaced would never
                        // terminate, which the halting precondition rules
                        // out; an unverified caller that reaches this point
                        // is kept waiting forever, as the original loop
                        // would have.
                        proof {
                            lemma_orbit_cycle(start, *d, iterations as nat + 1, 256);
                            assert(false);
                        }
                        loop
                            invariant
                                false,
                            decreases 0int,
                        {
                        }
                    }
                    iterations = iterations + 1;
                }
                proof {
                    // the orbit first reaches zero exactly at `n`
                    assert((iterations as nat) == n);
                }
                self.set_cell(0, 0);
                let ghost t0 = m0.tape.insert(m0.cur, 0);
                let scale = (iterations % 256) as u8;
                let mut j: usize = 0;
                while j < targets.len()
                    invariant
                        self.wf(),
                        j <= targets@.len(),
                        scale as nat == n % 256,
                        self.m() == (Mach {
                            tape: apply_targets(t0, m0.cur, targets@.take(j as int), n),
                            ..m0
                        }),
                    decreases targets@.len() - j,
                {
                    let (off, mult) = targets[j];
                    let cur = self.cell_at(off);
                    self.set_cell(off, cur.wrapping_add(mult.wrapping_mul(scale)));
                    proof {
                        lemma_scaled_mod(mult, scale, n);
                        assert(targets@.take(j as int + 1).drop_last() =~= targets@.take(
                            j as int,
                        ));
                        assert(targets@.take(j as int + 1).last() == targets@[j as int]);
                    }
                    j = j + 1;
                }
                proof {
                    assert(targets@.take(targets@.len() as int) =~= targets@);
                }
                true
            },
        }
    }

    /// Execute a sequence of instructions left to right. Returns `true`
    /// when every instruction completed, `false` when the run was stopped
    /// by end of input. On a program that never finishes the call never
    /// returns.
    #[verifier::rlimit(100)]
    #[verifier::spinoff_prover]
    pub fn run(&mut self, ops: &[Op]) -> (r: bool)
        requires
            old(self).wf(),
            run_halts(old(self).m(), ops_view(ops@)),
        ensures
            final(self).wf(),
            (final(self).m(), r) == run_res(old(self).m(), ops_view(ops@)),
        decreases run_fuel(old(self).m(), ops_view(ops@)), ops_view(ops@), 1int,
    {
        let ghost m0 = self.m();
        let ghost vops = ops_view(ops@);
        proof {
            assert(vops.skip(0) =~= vops);
        }
        let mut i: usize = 0;
        while i < ops.len()
            invariant
                self.wf(),
                i <= ops@.len(),
                m0 == old(self).m(),
                vops == ops_view(ops@),
                run_halts(self.m(), vops.skip(i as int)),
                run_fuel(self.m(), vops.skip(i as int)) <= run_fuel(m0, vops),
                run_res(self.m(), vops.skip(i as int)) == run_res(m0, vops),
            decreases ops@.len() - i,
        {
            proof {
                lemma_ops_view_index(ops@);
                lemma_run_unfold(self.m(), vops.skip(i as int));
                assert(vops.skip(i as int)[0] == op_view(ops@[i as int]));
                assert(vops.skip(i as int).drop_first() =~= vops.skip(i as int + 1));
            }
            let ok = self.step(&ops[i]);
            if !ok {
                return false;
            }
            i = i + 1;
        }
        proof {
            lemma_ops_view_index(ops@);
            lemma_run_zero(self.m(), vops.skip(i as int));
        }
        true
    }
}

} // verus!
