//! The mathematical model of execution: an abstract machine and a
//! fuel-indexed evaluator for instruction trees.
//!
//! `run_s(m, ops, fuel)` walks `ops` from machine state `m`. `fuel` bounds
//! only the number of loop iterations; `None` means the walk does not finish
//! within `fuel` iterations. A run that finishes yields the final machine and
//! a flag: `true` when it ran to completion, `false` when it was stopped
//! early by end of input. The evaluator is monotone in fuel, so the result
//! of a finishing run is independent of the fuel that witnesses it.

use vstd::prelude::*;

use crate::structs::SOp;

verus! {

/// The abstract machine: a cursor, a sparse byte tape (absent cells read
/// as zero), the input bytes not yet read, and the output written so far.
pub ghost struct Mach {
    pub cur: isize,
    pub tape: Map<isize, u8>,
    pub inp: Seq<u8>,
    pub out: Seq<u8>,
}

/// Read the tape at an absolute address; unwritten cells are zero.
pub open spec fn tread(tape: Map<isize, u8>, a: isize) -> u8 {
    if tape.dom().contains(a) {
        tape[a]
    } else {
        0
    }
}

/// The byte under the machine's cursor.
pub open spec fn cell(m: Mach) -> u8 {
    tread(m.tape, m.cur)
}

/// How many times a loop whose body adds `d` to its counter cell runs
/// before the counter, starting at `v`, reaches zero; `None` when it never
/// does. Every orbit of `+d` modulo 256 closes within 256 steps, so a
/// bound of 256 is exhaustive.
pub open spec fn steps_to_zero(v: u8, d: u8, bound: nat) -> Option<nat>
    decreases bound,
{
    if v == 0 {
        Some(0nat)
    } else if bound == 0 {
        None
    } else {
        match steps_to_zero(v.wrapping_add(d), d, (bound - 1) as nat) {
            Some(n) => Some(n + 1),
            None => None,
        }
    }
}

/// The iteration count of a `Transfer` with counter delta `d` starting
/// from cell value `v`; `None` means the equivalent loop never terminates.
pub open spec fn transfer_iters(v: u8, d: u8) -> Option<nat> {
    steps_to_zero(v, d, 256)
}

/// `mult` scaled by the iteration count, modulo 256.
pub open spec fn scaled(mult: u8, n: nat) -> u8 {
    ((mult * n) % 256) as u8
}

/// Apply a `Transfer`'s targets in order: add each target's multiplier,
/// scaled by the iteration count `n`, to the cell at its offset.
pub open spec fn apply_targets(
    tape: Map<isize, u8>,
    cur: isize,
    targets: Seq<(isize, u8)>,
    n: nat,
) -> Map<isize, u8>
    decreases targets.len(),
{
    if targets.len() == 0 {
        tape
    } else {
        let t2 = apply_targets(tape, cur, targets.drop_last(), n);
        let a = cur.wrapping_add(targets.last().0);
        t2.insert(a, tread(t2, a).wrapping_add(scaled(targets.last().1, n)))
    }
}

/// The machine after a completed `Transfer(d, targets)` that ran for `n`
/// iterations: the counter cell is cleared, then every target is bumped.
pub open spec fn transfer_mach(m: Mach, targets: Seq<(isize, u8)>, n: nat) -> Mach {
    Mach { tape: apply_targets(m.tape.insert(m.cur, 0), m.cur, targets, n), ..m }
}

/// One instruction from state `m`. Returns the new state and `true`, or the
/// state at the point of interruption and `false` when end of input was hit,
/// or `None` when the instruction does not finish within `fuel` loop
/// iterations (or, for a stalled `Transfer`, at all).
pub open spec fn step_s(m: Mach, op: SOp, fuel: nat) -> Option<(Mach, bool)>
    decreases fuel, op, 0int,
{
    match op {
        SOp::Add(i) => Some(
            (Mach { tape: m.tape.insert(m.cur, cell(m).wrapping_add(i)), ..m }, true),
        ),
        SOp::Mov(n) => Some((Mach { cur: m.cur.wrapping_add(n), ..m }, true)),
        SOp::In => if m.inp.len() == 0 {
            Some((m, false))
        } else {
            Some(
                (
                    Mach { tape: m.tape.insert(m.cur, m.inp[0]), inp: m.inp.drop_first(), ..m },
                    true,
                ),
            )
        },
        SOp::Out => Some((Mach { out: m.out.push(cell(m)), ..m }, true)),
        SOp::Loop(body) => if cell(m) == 0 {
            Some((m, true))
        } else if fuel == 0 {
            None
        } else {
            match run_s(m, body, fuel) {
                None => None,
                Some((m2, false)) => Some((m2, false)),
                Some((m2, true)) => step_s(m2, op, (fuel - 1) as nat),
            }
        },
        SOp::Transfer(d, targets) => if cell(m) == 0 {
            Some((m, true))
        } else {
            match transfer_iters(cell(m), d) {
                None => None,
                Some(n) => Some((transfer_mach(m, targets, n), true)),
            }
        },
    }
}

/// A sequence of instructions from state `m`, left to right, stopping at
/// the first instruction that signals end of input.
pub open spec fn run_s(m: Mach, ops: Seq<SOp>, fuel: nat) -> Option<(Mach, bool)>
    decreases fuel, ops, 1int,
{
    if ops.len() == 0 {
        Some((m, true))
    } else {
        match step_s(m, ops[0], fuel) {
            None => None,
            Some((m2, false)) => Some((m2, false)),
            Some((m2, true)) => run_s(m2, ops.drop_first(), fuel),
        }
    }
}

/// The evaluator is monotone in fuel: a finishing step finishes with the
/// same outcome under any larger fuel.
pub proof fn lemma_step_mono(m: Mach, op: SOp, f1: nat, f2: nat)
    requires
        f1 <= f2,
        step_s(m, op, f1) is Some,
    ensures
        step_s(m, op, f2) == step_s(m, op, f1),
    decreases f1, op, 0int,
{
    match op {
        SOp::Loop(body) => {
            if cell(m) != 0 {
                lemma_run_mono(m, body, f1, f2);
                match run_s(m, body, f1) {
                    Some((m2, true)) => {
                        lemma_step_mono(m2, op, (f1 - 1) as nat, (f2 - 1) as nat);
                    },
                    _ => {},
                }
            }
        },
        _ => {},
    }
}

/// The evaluator is monotone in fuel: a finishing run finishes with the
/// same outcome under any larger fuel.
pub proof fn lemma_run_mono(m: Mach, ops: Seq<SOp>, f1: nat, f2: nat)
    requires
        f1 <= f2,
        run_s(m, ops, f1) is Some,
    ensures
        run_s(m, ops, f2) == run_s(m, ops, f1),
    decreases f1, ops, 1int,
{
    if ops.len() != 0 {
        lemma_step_mono(m, ops[0], f1, f2);
        match step_s(m, ops[0], f1) {
            Some((m2, true)) => {
                lemma_run_mono(m2, ops.drop_first(), f1, f2);
            },
            _ => {},
        }
    }
}

/// A step finishes from `m` under some fuel.
pub open spec fn step_halts(m: Mach, op: SOp) -> bool {
    exists|f: nat| (#[trigger] step_s(m, op, f)) is Some
}

/// A run finishes from `m` under some fuel.
pub open spec fn run_halts(m: Mach, ops: Seq<SOp>) -> bool {
    exists|f: nat| (#[trigger] run_s(m, ops, f)) is Some
}

/// The least fuel under which the step finishes.
pub open spec fn step_fuel(m: Mach, op: SOp) -> nat {
    choose|f: nat|
        (#[trigger] step_s(m, op, f)) is Some && (f == 0 || step_s(m, op, (f - 1) as nat) is None)
}

/// The least fuel under which the run finishes.
pub open spec fn run_fuel(m: Mach, ops: Seq<SOp>) -> nat {
    choose|f: nat|
        (#[trigger] run_s(m, ops, f)) is Some && (f == 0 || run_s(
            m,
            ops,
            (f - 1) as nat,
        ) is None)
}

/// The outcome of a finishing step: the machine after it and whether it
/// completed (`true`) or was stopped by end of input (`false`).
pub open spec fn step_res(m: Mach, op: SOp) -> (Mach, bool) {
    step_s(m, op, step_fuel(m, op)).unwrap()
}

/// The outcome of a finishing run.
pub open spec fn run_res(m: Mach, ops: Seq<SOp>) -> (Mach, bool) {
    run_s(m, ops, run_fuel(m, ops)).unwrap()
}

/// A halting step finishes at its least fuel, the least fuel is least, and
/// the outcome at any witnessing fuel is the step's outcome.
pub proof fn lemma_step_fuel(m: Mach, op: SOp, f: nat)
    requires
        step_s(m, op, f) is Some,
    ensures
        step_fuel(m, op) <= f,
        step_s(m, op, step_fuel(m, op)) == step_s(m, op, f),
        step_s(m, op, f) == Some(step_res(m, op)),
    decreases f,
{
    if f > 0 && step_s(m, op, (f - 1) as nat) is Some {
        lemma_step_mono(m, op, (f - 1) as nat, f);
        lemma_step_fuel(m, op, (f - 1) as nat);
    } else {
        // `f` itself satisfies the property that `step_fuel` chooses by.
        assert(step_s(m, op, f) is Some && (f == 0 || step_s(m, op, (f - 1) as nat) is None));
        let fm = step_fuel(m, op);
        assert(step_s(m, op, fm) is Some && (fm == 0 || step_s(m, op, (fm - 1) as nat) is None));
        if fm > f {
            lemma_step_mono(m, op, f, (fm - 1) as nat);
        } else {
            lemma_step_mono(m, op, fm, f);
        }
    }
}

/// A halting run finishes at its least fuel, the least fuel is least, and
/// the outcome at any witnessing fuel is the run's outcome.
pub proof fn lemma_run_fuel(m: Mach, ops: Seq<SOp>, f: nat)
    requires
        run_s(m, ops, f) is Some,
    ensures
        run_fuel(m, ops) <= f,
        run_s(m, ops, run_fuel(m, ops)) == run_s(m, ops, f),
        run_s(m, ops, f) == Some(run_res(m, ops)),
    decreases f,
{
    if f > 0 && run_s(m, ops, (f - 1) as nat) is Some {
        lemma_run_mono(m, ops, (f - 1) as nat, f);
        lemma_run_fuel(m, ops, (f - 1) as nat);
    } else {
        assert(run_s(m, ops, f) is Some && (f == 0 || run_s(m, ops, (f - 1) as nat) is None));
        let fm = run_fuel(m, ops);
        assert(run_s(m, ops, fm) is Some && (fm == 0 || run_s(m, ops, (fm - 1) as nat) is None));
        if fm > f {
            lemma_run_mono(m, ops, f, (fm - 1) as nat);
        } else {
            lemma_run_mono(m, ops, fm, f);
        }
    }
}

/// The empty run finishes at once.
pub proof fn lemma_run_zero(m: Mach, ops: Seq<SOp>)
    requires
        ops.len() == 0,
    ensures
        run_halts(m, ops),
        run_res(m, ops) == (m, true),
{
    assert(run_s(m, ops, 0) is Some);
    lemma_run_fuel(m, ops, 0);
}

/// Unfold a halting run one instruction: its head halts within the run's
/// fuel, and the run's outcome is the head's outcome continued through the
/// tail (or the head's interruption).
pub proof fn lemma_run_unfold(m: Mach, ops: Seq<SOp>)
    requires
        run_halts(m, ops),
        ops.len() > 0,
    ensures
        step_halts(m, ops[0]),
        step_fuel(m, ops[0]) <= run_fuel(m, ops),
        step_res(m, ops[0]).1 ==> {
            &&& run_halts(step_res(m, ops[0]).0, ops.drop_first())
            &&& run_fuel(step_res(m, ops[0]).0, ops.drop_first()) <= run_fuel(m, ops)
            &&& run_res(m, ops) == run_res(step_res(m, ops[0]).0, ops.drop_first())
        },
        !step_res(m, ops[0]).1 ==> run_res(m, ops) == step_res(m, ops[0]),
{
    let fw = choose|fw: nat| (#[trigger] run_s(m, ops, fw)) is Some;
    lemma_run_fuel(m, ops, fw);
    let f = run_fuel(m, ops);
    lemma_step_fuel(m, ops[0], f);
    match step_s(m, ops[0], f) {
        Some((m2, true)) => {
            lemma_run_fuel(m2, ops.drop_first(), f);
        },
        _ => {},
    }
}

/// A loop whose counter cell is zero finishes at once, unchanged.
pub proof fn lemma_loop_zero(m: Mach, op: SOp)
    requires
        op is Loop,
        cell(m) == 0,
    ensures
        step_halts(m, op),
        step_res(m, op) == (m, true),
{
    assert(step_s(m, op, 0) is Some);
    lemma_step_fuel(m, op, 0);
}

/// Unfold one iteration of a halting loop whose counter cell is non-zero:
/// the body halts within the loop's fuel, and either it is interrupted,
/// which interrupts the loop, or the loop resumes from the body's final
/// state with strictly less fuel.
pub proof fn lemma_loop_unfold(m: Mach, op: SOp)
    requires
        step_halts(m, op),
        op is Loop,
        cell(m) != 0,
    ensures
        run_halts(m, op->Loop_0),
        run_fuel(m, op->Loop_0) <= step_fuel(m, op),
        run_res(m, op->Loop_0).1 ==> {
            &&& step_halts(run_res(m, op->Loop_0).0, op)
            &&& step_fuel(run_res(m, op->Loop_0).0, op) < step_fuel(m, op)
            &&& step_res(m, op) == step_res(run_res(m, op->Loop_0).0, op)
        },
        !run_res(m, op->Loop_0).1 ==> step_res(m, op) == (
            run_res(m, op->Loop_0).0,
            false,
        ),
{
    let body = op->Loop_0;
    let fw = choose|fw: nat| (#[trigger] step_s(m, op, fw)) is Some;
    lemma_step_fuel(m, op, fw);
    let f = step_fuel(m, op);
    assert(f > 0) by {
        if f == 0 {
            assert(step_s(m, op, 0) is None);
        }
    }
    lemma_run_fuel(m, body, f);
    match run_s(m, body, f) {
        Some((m2, true)) => {
            lemma_step_fuel(m2, op, (f - 1) as nat);
        },
        _ => {},
    }
}

/// A halting `Transfer` on a non-zero cell has a finite iteration count,
/// and yields the closed-form machine.
pub proof fn lemma_transfer_halts(m: Mach, op: SOp)
    requires
        step_halts(m, op),
        op is Transfer,
        cell(m) != 0,
    ensures
        transfer_iters(cell(m), op->Transfer_0) is Some,
        step_res(m, op) == (
            transfer_mach(m, op->Transfer_1, transfer_iters(cell(m), op->Transfer_0).unwrap()),
            true,
        ),
{
    let fw = choose|fw: nat| (#[trigger] step_s(m, op, fw)) is Some;
    lemma_step_fuel(m, op, fw);
}

/// A `Transfer` on a zero cell is a no-op.
pub proof fn lemma_transfer_zero(m: Mach, op: SOp)
    requires
        op is Transfer,
        cell(m) == 0,
    ensures
        step_halts(m, op),
        step_res(m, op) == (m, true),
{
    assert(step_s(m, op, 0) is Some);
    lemma_step_fuel(m, op, 0);
}

/// An `Add`, `Mov`, `In` or `Out` halts at once with the evident outcome.
pub proof fn lemma_step_now(m: Mach, op: SOp)
    requires
        !(op is Loop),
        !(op is Transfer),
    ensures
        step_halts(m, op),
        step_s(m, op, 0) == Some(step_res(m, op)),
{
    assert(step_s(m, op, 0) is Some);
    lemma_step_fuel(m, op, 0);
}

/// Scaling by the iteration count modulo 256 equals scaling by the count.
pub proof fn lemma_scaled_mod(mult: u8, scale: u8, n: nat)
    requires
        scale as nat == n % 256,
    ensures
        mult.wrapping_mul(scale) == scaled(mult, n),
{
    vstd::arithmetic::div_mod::lemma_mul_mod_noop_right(mult as int, n as int, 256);
}

/// The value of a loop counter cell after `k` iterations of adding `d`.
pub open spec fn orbit(v: u8, d: u8, k: nat) -> u8
    decreases k,
{
    if k == 0 {
        v
    } else {
        orbit(v, d, (k - 1) as nat).wrapping_add(d)
    }
}

/// Stepping the starting value once shifts the whole orbit by one.
pub proof fn lemma_orbit_shift(v: u8, d: u8, k: nat)
    ensures
        orbit(v, d, k + 1) == orbit(v.wrapping_add(d), d, k),
    decreases k,
{
    if k == 0 {
        assert(orbit(v, d, 1) == orbit(v, d, 0).wrapping_add(d));
    } else {
        lemma_orbit_shift(v, d, (k - 1) as nat);
        assert(orbit(v, d, k + 1) == orbit(v, d, ((k + 1) - 1) as nat).wrapping_add(d));
        assert(orbit(v.wrapping_add(d), d, k) == orbit(v.wrapping_add(d), d, (k - 1) as nat)
            .wrapping_add(d));
    }
}

/// Orbits compose: `a + b` steps are `a` steps, then `b` steps.
pub proof fn lemma_orbit_add(v: u8, d: u8, a: nat, b: nat)
    ensures
        orbit(v, d, a + b) == orbit(orbit(v, d, a), d, b),
    decreases b,
{
    if b > 0 {
        lemma_orbit_add(v, d, a, (b - 1) as nat);
    }
}

/// A finite iteration count is the first index at which the orbit hits
/// zero.
pub proof fn lemma_steps_orbit(v: u8, d: u8, bound: nat)
    requires
        steps_to_zero(v, d, bound) is Some,
    ensures
        steps_to_zero(v, d, bound).unwrap() <= bound,
        orbit(v, d, steps_to_zero(v, d, bound).unwrap()) == 0,
        forall|k: nat| k < steps_to_zero(v, d, bound).unwrap() ==> orbit(v, d, k) != 0,
    decreases bound,
{
    let n = steps_to_zero(v, d, bound).unwrap();
    if v == 0 {
    } else {
        lemma_steps_orbit(v.wrapping_add(d), d, (bound - 1) as nat);
        let n2 = steps_to_zero(v.wrapping_add(d), d, (bound - 1) as nat).unwrap();
        assert(n == n2 + 1);
        lemma_orbit_shift(v, d, n2);
        assert forall|k: nat| k < n implies orbit(v, d, k) != 0 by {
            if k > 0 {
                lemma_orbit_shift(v, d, (k - 1) as nat);
            }
        }
    }
}

/// If the orbit returns to its non-zero starting value before hitting
/// zero, it never hits zero: the equivalent loop stalls.
pub proof fn lemma_orbit_cycle(v: u8, d: u8, p: nat, bound: nat)
    requires
        v != 0,
        p >= 1,
        orbit(v, d, p) == v,
        forall|j: nat| j < p ==> orbit(v, d, j) != 0,
    ensures
        steps_to_zero(v, d, bound) is None,
{
    if steps_to_zero(v, d, bound) is Some {
        let n = steps_to_zero(v, d, bound).unwrap();
        lemma_steps_orbit(v, d, bound);
        // The first zero cannot lie inside the cycle's first pass...
        assert(n >= p);
        // ...and past one full period the orbit repeats, so a zero at `n`
        // gives an earlier zero at `n - p`, contradicting minimality.
        lemma_orbit_add(v, d, p, (n - p) as nat);
        assert(orbit(v, d, (n - p) as nat) == 0);
    }
}

} // verus!
